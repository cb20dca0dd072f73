//! What the basic forms stand for: bytes of numbers, orders of values, decimal digits,
//! paths and fractions.
use vstd::prelude::*;
use crate::codec::{bytes_before, le_bytes, le_value, lemma_le_value_round_trip, lemma_pow256, pow256, signed_value};
use crate::column::{cell_fits, cell_less, fits, whole_number, ColumnType};
use crate::numeral::{all_digits, digits_value, is_digit, is_space, parse_int, parsed_int, trim, trimmed, trimmed_end, trimmed_start, unsigned};
use crate::ratio::{above, below, Ratio};
use crate::text::{decimal, digit, joined};

verus! {

/// The bytes of a number, the lowest first.
pub proof fn law_bytes_of_a_number(v: nat, width: nat)
    requires
        width == 1 || width == 2 || width == 4 || width == 8,
    ensures
        ({
            let b = le_bytes(v, width);
            &&& b.len() == width
            &&& b[0] == v % 256
            &&& width > 1 ==> b[1] == v / 0x100 % 256
            &&& width > 2 ==> b[2] == v / 0x1_0000 % 256
            &&& width > 2 ==> b[3] == v / 0x100_0000 % 256
            &&& width > 4 ==> b[4] == v / 0x1_0000_0000 % 256
            &&& width > 4 ==> b[5] == v / 0x100_0000_0000 % 256
            &&& width > 4 ==> b[6] == v / 0x1_0000_0000_0000 % 256
            &&& width > 4 ==> b[7] == v / 0x100_0000_0000_0000 % 256
        }),
{
    reveal_with_fuel(le_bytes, 9);
    assert(v / 256 / 256 == v / 0x1_0000);
    assert(v / 0x1_0000 / 256 == v / 0x100_0000);
    assert(v / 0x100_0000 / 256 == v / 0x1_0000_0000);
    assert(v / 0x1_0000_0000 / 256 == v / 0x100_0000_0000);
    assert(v / 0x100_0000_0000 / 256 == v / 0x1_0000_0000_0000);
    assert(v / 0x1_0000_0000_0000 / 256 == v / 0x100_0000_0000_0000);
}

/// The number of some bytes, the lowest first.
pub proof fn law_number_of_bytes(s: Seq<u8>)
    requires
        s.len() == 1 || s.len() == 2 || s.len() == 4 || s.len() == 8,
    ensures
        s.len() == 1 ==> le_value(s) == s[0],
        s.len() == 2 ==> le_value(s) == s[0] + 0x100 * s[1],
        s.len() == 4 ==> le_value(s) == s[0] + 0x100 * s[1] + 0x1_0000 * s[2] + 0x100_0000 * s[3],
        s.len() == 8 ==> le_value(s) == s[0] + 0x100 * s[1] + 0x1_0000 * s[2] + 0x100_0000 * s[3]
            + 0x1_0000_0000 * s[4] + 0x100_0000_0000 * s[5] + 0x1_0000_0000_0000 * s[6]
            + 0x100_0000_0000_0000 * s[7],
{
    reveal_with_fuel(le_value, 9);
    let a = s.drop_first();
    let b = a.drop_first();
    let c = b.drop_first();
    let d = c.drop_first();
    let e = d.drop_first();
    let f = e.drop_first();
    let g = f.drop_first();
}

/// The number of a signed type: its highest bit counts negatively.
pub proof fn law_signed_numbers(u: nat)
    ensures
        u < 0x100 ==> signed_value(u, 1) == if u < 0x80 {
            u as int
        } else {
            u - 0x100
        },
        u < 0x1_0000 ==> signed_value(u, 2) == if u < 0x8000 {
            u as int
        } else {
            u - 0x1_0000
        },
        u < 0x1_0000_0000 ==> signed_value(u, 4) == if u < 0x8000_0000 {
            u as int
        } else {
            u - 0x1_0000_0000
        },
        u < 0x1_0000_0000_0000_0000 ==> signed_value(u, 8) == if u < 0x8000_0000_0000_0000 {
            u as int
        } else {
            u - 0x1_0000_0000_0000_0000
        },
{
    lemma_pow256();
    reveal_with_fuel(pow256, 9);
}

/// Byte strings are in lexicographic order: the first byte in which they differ decides, and
/// a string comes before those that it starts.
pub proof fn law_byte_strings_are_in_lexicographic_order(a: Seq<u8>, b: Seq<u8>, k: int)
    requires
        0 <= k <= a.len(),
        k <= b.len(),
        forall|i: int| #![trigger a[i]] #![trigger b[i]] 0 <= i < k ==> a[i] == b[i],
    ensures
        k < a.len() && k < b.len() && a[k] != b[k] ==> bytes_before(a, b) == (a[k] < b[k]),
        k == a.len() ==> bytes_before(a, b) == (a.len() < b.len()),
        k == b.len() ==> !bytes_before(a, b),
    decreases k,
{
    if k > 0 {
        assert(a[0] == b[0]);
        let x = a.drop_first();
        let y = b.drop_first();
        assert forall|i: int| #![trigger x[i]] #![trigger y[i]] 0 <= i < k - 1 implies x[i] == y[i] by {
            assert(a[i + 1] == b[i + 1]);
        }
        law_byte_strings_are_in_lexicographic_order(x, y, k - 1);
        if k < a.len() && k < b.len() {
            assert(x[k - 1] == a[k]);
            assert(y[k - 1] == b[k]);
        }
    }
}

/// Values of a type are compared by what they stand for: unsigned numbers by size, signed
/// ones by size with their sign, floating-point numbers by sign and, of one sign, by their
/// patterns, and all others as byte strings.
pub proof fn law_values_are_compared_by_size(dtype: ColumnType, a: &[u8], b: &[u8], r: bool)
    requires
        fits(dtype, a@),
        fits(dtype, b@),
        call_ensures(cell_less, (dtype, a, b), r),
    ensures
        match dtype {
            ColumnType::UInt8 | ColumnType::UInt16 | ColumnType::UInt32 | ColumnType::UInt64 => r == (
            le_value(a@) < le_value(b@)),
            ColumnType::Int8 => r == (signed_value(le_value(a@), 1) < signed_value(le_value(b@), 1)),
            ColumnType::Int16 => r == (signed_value(le_value(a@), 2) < signed_value(le_value(b@), 2)),
            ColumnType::Int32 | ColumnType::Date32 => r == (signed_value(le_value(a@), 4) < signed_value(
                le_value(b@),
                4,
            )),
            ColumnType::Int64 | ColumnType::Date64 | ColumnType::TimestampSecond
            | ColumnType::TimestampMillis | ColumnType::TimestampMicros | ColumnType::TimestampNanos => r
                == (signed_value(le_value(a@), 8) < signed_value(le_value(b@), 8)),
            ColumnType::Float32 => r == floats_rise(le_value(a@), le_value(b@), 0x8000_0000),
            ColumnType::Float64 => r == floats_rise(le_value(a@), le_value(b@), 0x8000_0000_0000_0000),
            _ => r == bytes_before(a@, b@),
        },
{
    lemma_pow256();
    lemma_le_value_round_trip(a@);
    lemma_le_value_round_trip(b@);
}

/// Whether a floating-point pattern stands below another; patterns from `sign` on are
/// negative.
pub open spec fn floats_rise(a: nat, b: nat, sign: nat) -> bool {
    if a >= sign && b < sign {
        true
    } else if a < sign && b >= sign {
        false
    } else if a < sign {
        a < b
    } else {
        b < a
    }
}

/// How many bytes a value of a type has, and which ones are values.
pub proof fn law_values_have_their_size(dtype: ColumnType, b: &[u8], r: bool)
    requires
        call_ensures(cell_fits, (dtype, b), r),
    ensures
        match dtype {
            ColumnType::Int8 | ColumnType::UInt8 => r == (b@.len() == 1),
            ColumnType::Int16 | ColumnType::UInt16 => r == (b@.len() == 2),
            ColumnType::Int32 | ColumnType::UInt32 | ColumnType::Float32 | ColumnType::Date32 => r == (
            b@.len() == 4),
            ColumnType::Int64 | ColumnType::UInt64 | ColumnType::Float64 | ColumnType::Date64
            | ColumnType::TimestampSecond | ColumnType::TimestampMillis | ColumnType::TimestampMicros
            | ColumnType::TimestampNanos => r == (b@.len() == 8),
            ColumnType::Boolean => r == (b@ == seq![0u8] || b@ == seq![1u8]),
            ColumnType::Utf8 | ColumnType::LargeUtf8 => r == vstd::utf8::valid_utf8(b@),
            _ => r,
        },
{
    if dtype == ColumnType::Boolean {
        if b@.len() == 1 {
            assert(b@ =~= seq![b@[0]]);
        }
        assert(seq![0u8][0] == 0 && seq![1u8][0] == 1);
    }
}

/// The number that a value of a whole-number type holds.
pub proof fn law_whole_numbers(dtype: ColumnType, b: Seq<u8>)
    ensures
        match dtype {
            ColumnType::UInt8 | ColumnType::UInt16 | ColumnType::UInt32 | ColumnType::UInt64 =>
                whole_number(dtype, b) == le_value(b),
            ColumnType::Int8 => whole_number(dtype, b) == signed_value(le_value(b), 1),
            ColumnType::Int16 => whole_number(dtype, b) == signed_value(le_value(b), 2),
            ColumnType::Int32 | ColumnType::Date32 => whole_number(dtype, b) == signed_value(le_value(b), 4),
            ColumnType::Int64 | ColumnType::Date64 | ColumnType::TimestampSecond
            | ColumnType::TimestampMillis | ColumnType::TimestampMicros | ColumnType::TimestampNanos =>
                whole_number(dtype, b) == signed_value(le_value(b), 8),
            _ => true,
        },
{
}

/// A number written in decimal digits has only digits, no zero in front, and is read back.
pub proof fn law_decimal_is_read_back(n: nat)
    ensures
        decimal(n).len() > 0,
        all_digits(decimal(n)),
        digits_value(decimal(n)) == n,
        n > 0 ==> decimal(n)[0] != '0',
        n == 0 ==> decimal(n) == seq!['0'],
        n <= i64::MAX ==> parsed_int(decimal(n)) == Some(n as i64),
        n <= i64::MAX ==> parsed_int(seq!['-'] + decimal(n)) == Some((-n) as i64),
        n <= i64::MAX ==> parsed_int(seq!['+'] + decimal(n)) == Some(n as i64),
        n > i64::MAX ==> parsed_int(decimal(n)) is None,
    decreases n,
{
    let s = decimal(n);
    if n < 10 {
        assert(s == seq![digit(n as int)]);
        assert(s.last() == s[0]);
        assert(s.drop_last() =~= Seq::empty());
        reveal_with_fuel(digits_value, 3);
    } else {
        law_decimal_is_read_back(n / 10);
        let front = decimal(n / 10);
        assert(s.drop_last() =~= front);
        assert(s[0] == front[0]);
        assert forall|i: int| #![trigger s[i]] 0 <= i < s.len() implies is_digit(s[i]) by {
            if i < front.len() {
                assert(s[i] == front[i]);
            }
        }
        assert(digits_value(s) == 10 * digits_value(front) + (s.last() as int - '0' as int) as nat);
    }
    assert(is_digit(s[0]));
    assert((seq!['-'] + s).skip(1) =~= s);
    assert((seq!['+'] + s).skip(1) =~= s);
}

/// The number of a decimal text: one more digit counts ten times what stands before it.
pub proof fn law_digits_count_by_ten(s: Seq<char>, d: int)
    requires
        0 <= d <= 9,
    ensures
        digits_value(s.push(digit(d))) == 10 * digits_value(s) + d,
        digits_value(Seq::empty()) == 0,
{
    assert(s.push(digit(d)).drop_last() =~= s);
}

/// A whole number is read with an optional sign; nothing else may stand in the text.
pub proof fn law_texts_that_are_no_numbers(s: &str, r: Option<i64>, i: int)
    requires
        call_ensures(parse_int, (s,), r),
        0 <= i < s@.len(),
        !('0' <= s@[i] <= '9'),
        i > 0 || s@[i] != '-' && s@[i] != '+' || s@.len() == 1,
    ensures
        r is None,
{
    let body = unsigned(s@);
    if body.len() > 0 && all_digits(body) {
        if body.len() == s@.len() {
            assert(body[i] == s@[i]);
        } else {
            assert(body[i - 1] == s@[i]);
        }
    }
}

proof fn lemma_trimmed_start(s: Seq<char>) -> (k: int)
    ensures
        0 <= k <= s.len(),
        trimmed_start(s) == s.skip(k),
        forall|i: int| #![trigger s[i]] 0 <= i < k ==> is_space(s[i]),
        k < s.len() ==> !is_space(s[k]),
    decreases s.len(),
{
    if s.len() > 0 && is_space(s[0]) {
        let t = s.skip(1);
        let k = lemma_trimmed_start(t);
        assert(t.skip(k) =~= s.skip(k + 1));
        assert forall|i: int| #![trigger s[i]] 0 <= i < k + 1 implies is_space(s[i]) by {
            if i > 0 {
                assert(t[i - 1] == s[i]);
            }
        }
        if k < t.len() {
            assert(t[k] == s[k + 1]);
        }
        k + 1
    } else {
        assert(s.skip(0) =~= s);
        0
    }
}

proof fn lemma_trimmed_end(s: Seq<char>) -> (k: int)
    ensures
        0 <= k <= s.len(),
        trimmed_end(s) == s.take(k),
        forall|i: int| #![trigger s[i]] k <= i < s.len() ==> is_space(s[i]),
        k > 0 ==> !is_space(s[k - 1]),
    decreases s.len(),
{
    if s.len() > 0 && is_space(s.last()) {
        let t = s.drop_last();
        let k = lemma_trimmed_end(t);
        assert(t.take(k) =~= s.take(k));
        assert forall|i: int| #![trigger s[i]] k <= i < s.len() implies is_space(s[i]) by {
            if i < t.len() {
                assert(t[i] == s[i]);
            }
        }
        if k > 0 {
            assert(t[k - 1] == s[k - 1]);
        }
        k
    } else {
        assert(s.take(s.len() as int) =~= s);
        s.len() as int
    }
}

/// A trimmed text is the part of the text from its first to its last character that is no
/// white space.
pub proof fn law_trimming_removes_outer_space(s: &str, r: &str) -> (bounds: (int, int))
    requires
        call_ensures(trim, (s,), r),
    ensures
        0 <= bounds.0 <= bounds.1 <= s@.len(),
        r@ == s@.subrange(bounds.0, bounds.1),
        forall|i: int|
            #![trigger s@[i]]
            0 <= i < bounds.0 || bounds.1 <= i < s@.len() ==> is_space(s@[i]),
        r@.len() > 0 ==> !is_space(r@[0]) && !is_space(r@.last()),
{
    let a = lemma_trimmed_start(s@);
    let t = trimmed_start(s@);
    let k = lemma_trimmed_end(t);
    assert(t.take(k) =~= s@.subrange(a, a + k));
    assert forall|i: int|
        #![trigger s@[i]]
        0 <= i < a || a + k <= i < s@.len() implies is_space(s@[i]) by {
        if i >= a {
            assert(t[i - a] == s@[i]);
        }
    }
    if k > 0 {
        assert(r@[0] == t[0]);
        assert(r@.last() == t[k - 1]);
        if a < s@.len() {
            assert(t[0] == s@[a]);
        }
    }
    (a, a + k)
}

/// White space is the blank, what moves on the carriage, and the like of other scripts; no
/// letter, digit or mark of the first hundred-odd characters is.
pub proof fn law_visible_characters_are_no_space(c: char)
    ensures
        is_space(' ') && is_space('\t') && is_space('\n') && is_space('\r'),
        '!' <= c <= '~' ==> !is_space(c),
{
}

/// A path below a directory is the directory, a slash and the rest; a path from the root
/// stands alone.
pub proof fn law_joined_paths(base: Seq<char>, part: Seq<char>)
    ensures
        part.len() > 0 && part[0] == '/' ==> joined(base, part) == part,
        (part.len() == 0 || part[0] != '/') && base.len() > 0 && base.last() != '/' ==> joined(base, part)
            == base.push('/') + part,
        (part.len() == 0 || part[0] != '/') && base.len() > 0 && base.last() == '/' ==> joined(base, part)
            == base + part,
        (part.len() == 0 || part[0] != '/') && base.len() == 0 ==> joined(base, part) == part,
{
    assert(base + seq!['/'] + part =~= base.push('/') + part);
    assert(Seq::<char>::empty() + part =~= part);
    if base.len() == 0 {
        assert(base + part =~= part);
    }
}

/// A share is neither below nor above itself, not both below and above another, and grows
/// with its part.
pub proof fn law_shares_are_ordered(part: u64, whole: u64, more: u64, limit: Ratio)
    requires
        whole > 0,
        limit.den > 0,
        part <= more,
    ensures
        !below(part as int, whole as int, Ratio { num: part, den: whole }),
        !above(part as int, whole as int, Ratio { num: part, den: whole }),
        !(below(part as int, whole as int, limit) && above(part as int, whole as int, limit)),
        below(more as int, whole as int, limit) ==> below(part as int, whole as int, limit),
        above(part as int, whole as int, limit) ==> above(more as int, whole as int, limit),
        part < more ==> below(part as int, whole as int, Ratio { num: more, den: whole }),
        part < more ==> above(more as int, whole as int, Ratio { num: part, den: whole }),
{
    assert(part * whole == whole * part) by (nonlinear_arith);
    assert(part * limit.den <= more * limit.den) by (nonlinear_arith)
        requires
            part <= more,
            limit.den > 0,
    ;
    assert(part < more ==> part * whole < more * whole) by (nonlinear_arith)
        requires
            whole > 0,
    ;
}

} // verus!
