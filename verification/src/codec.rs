//! Little-endian integers and lexicographic byte order.
use vstd::prelude::*;

verus! {

/// The `width` low bytes of `v`, least significant first.
pub open spec fn le_bytes(v: nat, width: nat) -> Seq<u8>
    decreases width,
{
    if width == 0 {
        Seq::empty()
    } else {
        seq![(v % 256) as u8] + le_bytes(v / 256, (width - 1) as nat)
    }
}

/// The number whose little-endian bytes are `s`.
pub open spec fn le_value(s: Seq<u8>) -> nat
    decreases s.len(),
{
    if s.len() == 0 {
        0
    } else {
        s[0] as nat + 256 * le_value(s.drop_first())
    }
}

/// `256` to the power `width`: how many values fit in `width` bytes.
pub open spec fn pow256(width: nat) -> nat
    decreases width,
{
    if width == 0 {
        1
    } else {
        256 * pow256((width - 1) as nat)
    }
}

/// Two's complement reading of an unsigned value of `width` bytes.
pub open spec fn signed_value(u: nat, width: nat) -> int {
    if 2 * u >= pow256(width) {
        u - pow256(width)
    } else {
        u as int
    }
}

pub proof fn lemma_pow256()
    ensures
        pow256(0) == 1,
        pow256(1) == 0x100,
        pow256(2) == 0x1_0000,
        pow256(4) == 0x1_0000_0000,
        pow256(8) == 0x1_0000_0000_0000_0000,
{
    reveal_with_fuel(pow256, 9);
}

pub proof fn lemma_le_len(v: nat, width: nat)
    ensures
        le_bytes(v, width).len() == width,
    decreases width,
{
    if width > 0 {
        lemma_le_len(v / 256, (width - 1) as nat);
    }
}

/// Reading back what was written gives the number, as far as it fits.
pub proof fn lemma_le_round_trip(v: nat, width: nat)
    requires
        v < pow256(width),
    ensures
        le_value(le_bytes(v, width)) == v,
        le_bytes(v, width).len() == width,
    decreases width,
{
    lemma_le_len(v, width);
    if width > 0 {
        assert(v / 256 < pow256((width - 1) as nat));
        lemma_le_round_trip(v / 256, (width - 1) as nat);
        let s = le_bytes(v, width);
        assert(s.drop_first() =~= le_bytes(v / 256, (width - 1) as nat));
        assert(s[0] as nat == v % 256);
    }
}

/// The bytes of a number read from bytes are those bytes.
pub proof fn lemma_le_value_round_trip(s: Seq<u8>)
    ensures
        le_value(s) < pow256(s.len()),
        le_bytes(le_value(s), s.len()) == s,
    decreases s.len(),
{
    if s.len() > 0 {
        lemma_le_value_round_trip(s.drop_first());
        let v = le_value(s);
        let rest = le_value(s.drop_first());
        assert(v / 256 == rest && v % 256 == s[0] as nat);
        assert(le_bytes(v, s.len()) =~= seq![s[0]] + s.drop_first());
        assert(seq![s[0]] + s.drop_first() =~= s);
    }
}

/// Appends the `width` low bytes of `v`, least significant first.
pub fn put_le(buf: &mut Vec<u8>, v: u64, width: usize)
    requires
        width <= 8,
    ensures
        final(buf)@ == old(buf)@ + le_bytes(v as nat, width as nat),
{
    let mut rest: u64 = v;
    let mut i: usize = 0;
    let ghost start = buf@;
    assert(start + Seq::<u8>::empty() =~= start);
    assert(start + le_bytes(v as nat, width as nat) == buf@ + le_bytes(
        rest as nat,
        (width - i) as nat,
    ));
    while i < width
        invariant
            i <= width,
            start + le_bytes(v as nat, width as nat) == buf@ + le_bytes(
                rest as nat,
                (width - i) as nat,
            ),
        decreases width - i,
    {
        let b: u8 = (rest % 256) as u8;
        let ghost before = buf@;
        buf.push(b);
        proof {
            let tail = le_bytes(rest as nat / 256, (width - i - 1) as nat);
            assert(before + (seq![b] + tail) =~= before.push(b) + tail);
        }
        rest = rest / 256;
        i = i + 1;
    }
    assert(buf@ + Seq::<u8>::empty() =~= buf@);
}

/// The number held little-endian in `width` bytes of `bytes` from `at` on.
pub fn get_le(bytes: &[u8], at: usize, width: usize) -> (v: u64)
    requires
        width <= 8,
        at + width <= bytes@.len(),
    ensures
        v as nat == le_value(bytes@.subrange(at as int, at + width)),
        (v as nat) < pow256(width as nat),
{
    let mut v: u64 = 0;
    let mut i: usize = width;
    let n: usize = bytes.len();
    proof {
        assert(bytes@.subrange(at + width, at + width) =~= Seq::<u8>::empty());
        lemma_pow256();
    }
    while i > 0
        invariant
            i <= width <= 8,
            at + width <= n == bytes@.len(),
            v as nat == le_value(bytes@.subrange(at + i, at + width)),
        decreases i,
    {
        i = i - 1;
        let ghost tail = bytes@.subrange(at + i, at + width);
        proof {
            assert(tail.drop_first() =~= bytes@.subrange(at + i + 1, at + width));
            lemma_le_value_round_trip(tail);
            lemma_pow_mono(tail.len(), 8);
            lemma_pow256();
        }
        v = v * 256 + bytes[at + i] as u64;
    }
    proof {
        lemma_le_value_round_trip(bytes@.subrange(at as int, at + width));
    }
    v
}

pub proof fn lemma_pow_mono(a: nat, b: nat)
    requires
        a <= b,
    ensures
        pow256(a) <= pow256(b),
        pow256(a) >= 1,
    decreases b,
{
    if b > 0 && a < b {
        lemma_pow_mono(a, (b - 1) as nat);
    } else if a > 0 {
        lemma_pow_mono((a - 1) as nat, (b - 1) as nat);
    }
}

/// Lexicographic order of byte strings.
pub open spec fn bytes_before(a: Seq<u8>, b: Seq<u8>) -> bool
    decreases a.len(),
{
    if b.len() == 0 {
        false
    } else if a.len() == 0 {
        true
    } else if a[0] != b[0] {
        a[0] < b[0]
    } else {
        bytes_before(a.drop_first(), b.drop_first())
    }
}

pub proof fn lemma_bytes_irreflexive(a: Seq<u8>)
    ensures
        !bytes_before(a, a),
    decreases a.len(),
{
    if a.len() > 0 {
        lemma_bytes_irreflexive(a.drop_first());
    }
}

pub proof fn lemma_bytes_transitive(a: Seq<u8>, b: Seq<u8>, c: Seq<u8>)
    requires
        bytes_before(a, b),
        bytes_before(b, c),
    ensures
        bytes_before(a, c),
    decreases a.len(),
{
    if a.len() > 0 && a[0] == b[0] && b[0] == c[0] {
        lemma_bytes_transitive(a.drop_first(), b.drop_first(), c.drop_first());
    }
}

pub proof fn lemma_bytes_total(a: Seq<u8>, b: Seq<u8>)
    ensures
        a == b || bytes_before(a, b) || bytes_before(b, a),
    decreases a.len(),
{
    if a.len() > 0 && b.len() > 0 && a[0] == b[0] {
        lemma_bytes_total(a.drop_first(), b.drop_first());
        if a.drop_first() == b.drop_first() {
            assert(a =~= seq![a[0]] + a.drop_first());
            assert(b =~= seq![b[0]] + b.drop_first());
        }
    } else if a.len() == 0 && b.len() == 0 {
        assert(a =~= b);
    }
}

proof fn lemma_bytes_skip(a: Seq<u8>, b: Seq<u8>, i: int)
    requires
        0 <= i <= a.len(),
        i <= b.len(),
        a.subrange(0, i) == b.subrange(0, i),
    ensures
        bytes_before(a, b) == bytes_before(a.skip(i), b.skip(i)),
    decreases i,
{
    if i == 0 {
        assert(a.skip(0) =~= a);
        assert(b.skip(0) =~= b);
    } else {
        assert(a[0] == a.subrange(0, i)[0] && b[0] == b.subrange(0, i)[0]);
        let a1 = a.drop_first();
        let b1 = b.drop_first();
        assert forall|k: int| 0 <= k < i - 1 implies a1[k] == b1[k] by {
            assert(a[k + 1] == a.subrange(0, i)[k + 1] && b[k + 1] == b.subrange(0, i)[k + 1]);
        }
        assert(a1.subrange(0, i - 1) =~= b1.subrange(0, i - 1));
        lemma_bytes_skip(a1, b1, i - 1);
        assert(a1.skip(i - 1) =~= a.skip(i));
        assert(b1.skip(i - 1) =~= b.skip(i));
    }
}

/// Whether `a` comes before `b` in lexicographic byte order.
pub fn bytes_less(a: &[u8], b: &[u8]) -> (r: bool)
    ensures
        r == bytes_before(a@, b@),
{
    let mut i: usize = 0;
    while i < a.len() && i < b.len() && a[i] == b[i]
        invariant
            i <= a@.len(),
            i <= b@.len(),
            a@.subrange(0, i as int) == b@.subrange(0, i as int),
        decreases a@.len() - i,
    {
        i = i + 1;
        assert(a@.subrange(0, i as int) =~= a@.subrange(0, i - 1).push(a@[i - 1]));
        assert(b@.subrange(0, i as int) =~= b@.subrange(0, i - 1).push(b@[i - 1]));
    }
    proof {
        lemma_bytes_skip(a@, b@, i as int);
    }
    if i >= b.len() {
        false
    } else if i >= a.len() {
        true
    } else {
        a[i] < b[i]
    }
}

/// Whether two byte strings are the same.
pub fn bytes_same(a: &[u8], b: &[u8]) -> (r: bool)
    ensures
        r == (a@ == b@),
{
    if a.len() != b.len() {
        return false;
    }
    let mut i: usize = 0;
    while i < a.len()
        invariant
            i <= a@.len() == b@.len(),
            forall|k: int| 0 <= k < i ==> a@[k] == b@[k],
        decreases a@.len() - i,
    {
        if a[i] != b[i] {
            return false;
        }
        i = i + 1;
    }
    assert(a@ =~= b@);
    true
}

/// A copy of the bytes from `from` up to, but not with, `to`.
pub fn bytes_range(bytes: &[u8], from: usize, to: usize) -> (r: Vec<u8>)
    requires
        from <= to <= bytes@.len(),
    ensures
        r@ == bytes@.subrange(from as int, to as int),
{
    let mut r: Vec<u8> = Vec::with_capacity(to - from);
    let mut i: usize = from;
    while i < to
        invariant
            from <= i <= to <= bytes@.len(),
            r@ == bytes@.subrange(from as int, i as int),
        decreases to - i,
    {
        r.push(bytes[i]);
        i = i + 1;
        assert(r@ =~= bytes@.subrange(from as int, i as int));
    }
    r
}

/// A copy of all of `bytes`.
pub fn bytes_copy(bytes: &[u8]) -> (r: Vec<u8>)
    ensures
        r@ == bytes@,
{
    let r = bytes_range(bytes, 0, bytes.len());
    assert(r@ =~= bytes@);
    r
}

/// Appends `more` to `buf`.
pub fn bytes_append(buf: &mut Vec<u8>, more: &[u8])
    ensures
        final(buf)@ == old(buf)@ + more@,
{
    let ghost start = buf@;
    let mut i: usize = 0;
    assert(start + more@.subrange(0, 0) =~= start);
    while i < more.len()
        invariant
            i <= more@.len(),
            buf@ == start + more@.subrange(0, i as int),
        decreases more@.len() - i,
    {
        buf.push(more[i]);
        i = i + 1;
        assert(start + more@.subrange(0, i as int) =~= (start + more@.subrange(0, i - 1)).push(
            more@[i - 1],
        ));
    }
    assert(more@.subrange(0, i as int) =~= more@);
}

} // verus!
