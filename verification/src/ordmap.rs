//! A map kept as a vector of entries in ascending key order.
use vstd::prelude::*;
use vstd::utf8::{encode_utf8, encode_utf8_decode_utf8};
use crate::codec::{bytes_before, bytes_copy, bytes_less, lemma_bytes_irreflexive, lemma_bytes_total, lemma_bytes_transitive};

verus! {

/// A key with a strict total order on its view.
pub trait OrdKey: View + Sized {
    /// Whether `a` comes before `b`.
    spec fn before(a: Self::V, b: Self::V) -> bool;

    proof fn before_irreflexive(a: Self::V)
        ensures
            !Self::before(a, a),
    ;

    proof fn before_transitive(a: Self::V, b: Self::V, c: Self::V)
        requires
            Self::before(a, b),
            Self::before(b, c),
        ensures
            Self::before(a, c),
    ;

    proof fn before_total(a: Self::V, b: Self::V)
        ensures
            a == b || Self::before(a, b) || Self::before(b, a),
    ;

    fn is_before(&self, other: &Self) -> (r: bool)
        ensures
            r == Self::before(self@, other@),
    ;

    fn duplicate(&self) -> (r: Self)
        ensures
            r@ == self@,
    ;
}

impl OrdKey for u64 {
    open spec fn before(a: u64, b: u64) -> bool {
        a < b
    }

    proof fn before_irreflexive(a: u64) {
    }

    proof fn before_transitive(a: u64, b: u64, c: u64) {
    }

    proof fn before_total(a: u64, b: u64) {
    }

    fn is_before(&self, other: &Self) -> (r: bool) {
        *self < *other
    }

    fn duplicate(&self) -> (r: Self) {
        *self
    }
}

impl OrdKey for u32 {
    open spec fn before(a: u32, b: u32) -> bool {
        a < b
    }

    proof fn before_irreflexive(a: u32) {
    }

    proof fn before_transitive(a: u32, b: u32, c: u32) {
    }

    proof fn before_total(a: u32, b: u32) {
    }

    fn is_before(&self, other: &Self) -> (r: bool) {
        *self < *other
    }

    fn duplicate(&self) -> (r: Self) {
        *self
    }
}

/// Lexicographic order of texts by the bytes of their UTF-8 form.
pub open spec fn text_before(a: Seq<char>, b: Seq<char>) -> bool {
    bytes_before(encode_utf8(a), encode_utf8(b))
}

impl OrdKey for String {
    open spec fn before(a: Seq<char>, b: Seq<char>) -> bool {
        text_before(a, b)
    }

    proof fn before_irreflexive(a: Seq<char>) {
        lemma_bytes_irreflexive(encode_utf8(a));
    }

    proof fn before_transitive(a: Seq<char>, b: Seq<char>, c: Seq<char>) {
        lemma_bytes_transitive(encode_utf8(a), encode_utf8(b), encode_utf8(c));
    }

    proof fn before_total(a: Seq<char>, b: Seq<char>) {
        lemma_bytes_total(encode_utf8(a), encode_utf8(b));
        encode_utf8_decode_utf8(a);
        encode_utf8_decode_utf8(b);
    }

    fn is_before(&self, other: &Self) -> (r: bool) {
        bytes_less(self.as_str().as_bytes(), other.as_str().as_bytes())
    }

    fn duplicate(&self) -> (r: Self) {
        self.clone()
    }
}

impl OrdKey for Vec<u8> {
    open spec fn before(a: Seq<u8>, b: Seq<u8>) -> bool {
        bytes_before(a, b)
    }

    proof fn before_irreflexive(a: Seq<u8>) {
        lemma_bytes_irreflexive(a);
    }

    proof fn before_transitive(a: Seq<u8>, b: Seq<u8>, c: Seq<u8>) {
        lemma_bytes_transitive(a, b, c);
    }

    proof fn before_total(a: Seq<u8>, b: Seq<u8>) {
        lemma_bytes_total(a, b);
    }

    fn is_before(&self, other: &Self) -> (r: bool) {
        bytes_less(self.as_slice(), other.as_slice())
    }

    fn duplicate(&self) -> (r: Self) {
        bytes_copy(self.as_slice())
    }
}

impl<A: OrdKey, B: OrdKey> OrdKey for (A, B) {
    open spec fn before(a: (A::V, B::V), b: (A::V, B::V)) -> bool {
        A::before(a.0, b.0) || a.0 == b.0 && B::before(a.1, b.1)
    }

    proof fn before_irreflexive(a: (A::V, B::V)) {
        A::before_irreflexive(a.0);
        B::before_irreflexive(a.1);
    }

    proof fn before_transitive(a: (A::V, B::V), b: (A::V, B::V), c: (A::V, B::V)) {
        if A::before(a.0, b.0) && A::before(b.0, c.0) {
            A::before_transitive(a.0, b.0, c.0);
        } else if a.0 == b.0 && b.0 == c.0 {
            B::before_transitive(a.1, b.1, c.1);
        }
    }

    proof fn before_total(a: (A::V, B::V), b: (A::V, B::V)) {
        A::before_total(a.0, b.0);
        B::before_total(a.1, b.1);
    }

    fn is_before(&self, other: &Self) -> (r: bool) {
        proof {
            A::before_total(self.0@, other.0@);
            A::before_irreflexive(self.0@);
            if A::before(self.0@, other.0@) && A::before(other.0@, self.0@) {
                A::before_transitive(self.0@, other.0@, self.0@);
            }
        }
        if self.0.is_before(&other.0) {
            true
        } else if other.0.is_before(&self.0) {
            false
        } else {
            self.1.is_before(&other.1)
        }
    }

    fn duplicate(&self) -> (r: Self) {
        (self.0.duplicate(), self.1.duplicate())
    }
}

impl<A: OrdKey, B: OrdKey, C: OrdKey> OrdKey for (A, B, C) {
    open spec fn before(a: (A::V, B::V, C::V), b: (A::V, B::V, C::V)) -> bool {
        ||| A::before(a.0, b.0)
        ||| a.0 == b.0 && B::before(a.1, b.1)
        ||| a.0 == b.0 && a.1 == b.1 && C::before(a.2, b.2)
    }

    proof fn before_irreflexive(a: (A::V, B::V, C::V)) {
        A::before_irreflexive(a.0);
        B::before_irreflexive(a.1);
        C::before_irreflexive(a.2);
    }

    proof fn before_transitive(
        a: (A::V, B::V, C::V),
        b: (A::V, B::V, C::V),
        c: (A::V, B::V, C::V),
    ) {
        if A::before(a.0, b.0) && A::before(b.0, c.0) {
            A::before_transitive(a.0, b.0, c.0);
        } else if a.0 == b.0 && b.0 == c.0 {
            if B::before(a.1, b.1) && B::before(b.1, c.1) {
                B::before_transitive(a.1, b.1, c.1);
            } else if a.1 == b.1 && b.1 == c.1 {
                C::before_transitive(a.2, b.2, c.2);
            }
        }
    }

    proof fn before_total(a: (A::V, B::V, C::V), b: (A::V, B::V, C::V)) {
        A::before_total(a.0, b.0);
        B::before_total(a.1, b.1);
        C::before_total(a.2, b.2);
    }

    fn is_before(&self, other: &Self) -> (r: bool) {
        proof {
            A::before_total(self.0@, other.0@);
            A::before_irreflexive(self.0@);
            if A::before(self.0@, other.0@) && A::before(other.0@, self.0@) {
                A::before_transitive(self.0@, other.0@, self.0@);
            }
            B::before_total(self.1@, other.1@);
            B::before_irreflexive(self.1@);
            if B::before(self.1@, other.1@) && B::before(other.1@, self.1@) {
                B::before_transitive(self.1@, other.1@, self.1@);
            }
        }
        if self.0.is_before(&other.0) {
            true
        } else if other.0.is_before(&self.0) {
            false
        } else if self.1.is_before(&other.1) {
            true
        } else if other.1.is_before(&self.1) {
            false
        } else {
            self.2.is_before(&other.2)
        }
    }

    fn duplicate(&self) -> (r: Self) {
        (self.0.duplicate(), self.1.duplicate(), self.2.duplicate())
    }
}

/// A map whose entries lie in ascending key order.
#[derive(Debug)]
pub struct OrdMap<K, V> {
    entries: Vec<(K, V)>,
}

impl<K: OrdKey, V> View for OrdMap<K, V> {
    type V = Map<K::V, V>;

    open spec fn view(&self) -> Map<K::V, V> {
        Map::new(
            |k: K::V| self.keys().contains(k),
            |k: K::V| self.value_of(self.keys().index_of(k)),
        )
    }
}

impl<K: OrdKey, V> OrdMap<K, V> {
    /// The keys, in ascending order.
    pub closed spec fn keys(&self) -> Seq<K::V> {
        self.entries@.map_values(|e: (K, V)| e.0@)
    }

    /// The value at a position of the order.
    pub closed spec fn value_of(&self, i: int) -> V {
        self.entries@[i].1
    }

    /// The keys ascend strictly.
    pub open spec fn wf(&self) -> bool {
        forall|i: int, j: int|
            #![trigger self.keys()[i], self.keys()[j]]
            0 <= i < j < self.keys().len() ==> K::before(self.keys()[i], self.keys()[j])
    }

    /// Positions of a well-formed map and its keys determine each other.
    pub proof fn lemma_index(&self, i: int)
        requires
            self.wf(),
            0 <= i < self.keys().len(),
        ensures
            self@.dom().contains(self.keys()[i]),
            self@[self.keys()[i]] == self.value_of(i),
            self.keys().index_of(self.keys()[i]) == i,
    {
        let k = self.keys()[i];
        assert(self.keys().contains(k));
        let j = self.keys().index_of(k);
        assert(0 <= j < self.keys().len() && self.keys()[j] == k);
        if i < j || j < i {
            K::before_irreflexive(k);
        }
    }

    /// Every key of a well-formed map has a position.
    pub proof fn lemma_key(&self, k: K::V) -> (i: int)
        requires
            self.wf(),
            self@.dom().contains(k),
        ensures
            0 <= i < self.keys().len(),
            self.keys()[i] == k,
            self.value_of(i) == self@[k],
    {
        let i = self.keys().index_of(k);
        self.lemma_index(i);
        i
    }

    /// The domain is finite and as large as the sequence of keys.
    pub proof fn lemma_dom(&self)
        requires
            self.wf(),
        ensures
            self@.dom() =~= self.keys().to_set(),
            self@.dom().finite(),
            self@.dom().len() == self.keys().len(),
            self@.dom().len() <= usize::MAX,
            self.keys().no_duplicates(),
    {
        assert(self.keys().len() == self.entries.len());
        assert forall|i: int, j: int|
            0 <= i < self.keys().len() && 0 <= j < self.keys().len() && i
                != j implies self.keys()[i] != self.keys()[j] by {
            K::before_irreflexive(self.keys()[i]);
        }
        self.keys().unique_seq_to_set();
        assert(self@.dom() =~= self.keys().to_set());
    }

    pub fn new() -> (m: Self)
        ensures
            m.wf(),
            m.keys() == Seq::<K::V>::empty(),
            m@ == Map::<K::V, V>::empty(),
    {
        let m = OrdMap { entries: Vec::new() };
        assert(m.keys() =~= Seq::empty());
        assert(m@ =~= Map::<K::V, V>::empty());
        m
    }

    pub fn len(&self) -> (n: usize)
        ensures
            n == self.keys().len(),
    {
        self.entries.len()
    }

    pub fn is_empty(&self) -> (b: bool)
        ensures
            b == (self.keys().len() == 0),
    {
        self.entries.len() == 0
    }

    /// The key at a position.
    pub fn key_at(&self, i: usize) -> (k: &K)
        requires
            i < self.keys().len(),
        ensures
            k@ == self.keys()[i as int],
    {
        &self.entries[i].0
    }

    /// The value at a position.
    pub fn value_at(&self, i: usize) -> (v: &V)
        requires
            i < self.keys().len(),
        ensures
            *v == self.value_of(i as int),
    {
        &self.entries[i].1
    }

    /// The value at a position, to be changed in place.
    pub fn value_mut(&mut self, i: usize) -> (v: &mut V)
        requires
            i < old(self).keys().len(),
        ensures
            *v == old(self).value_of(i as int),
            final(self).keys() == old(self).keys(),
            final(self).value_of(i as int) == *final(v),
            forall|j: int|
                0 <= j < old(self).keys().len() && j != i ==> #[trigger] final(self).value_of(j)
                    == old(self).value_of(j),
    {
        let e: &mut (K, V) = &mut self.entries[i];
        &mut e.1
    }

    /// The values, in key order.
    pub fn into_values(self) -> (r: Vec<V>)
        ensures
            r@.len() == self.keys().len(),
            forall|i: int| 0 <= i < r@.len() ==> #[trigger] r@[i] == self.value_of(i),
    {
        let mut r: Vec<V> = Vec::with_capacity(self.entries.len());
        let ghost all = self.entries@;
        for e in it: self.entries
            invariant
                it.seq() == all,
                r@.len() == it.index(),
                forall|i: int| 0 <= i < r@.len() ==> #[trigger] r@[i] == all[i].1,
        {
            r.push(e.1);
        }
        r
    }

    /// A copy of the map.
    pub fn clone_with(&self) -> (r: Self) where V: Clone
        requires
            self.wf(),
            forall|v: V, w: V| #[trigger] cloned::<V>(v, w) ==> v == w,
        ensures
            r.wf(),
            r.keys() == self.keys(),
            r@ == self@,
            forall|i: int| 0 <= i < self.keys().len() ==> #[trigger] r.value_of(i) == self.value_of(i),
    {
        let mut entries: Vec<(K, V)> = Vec::with_capacity(self.entries.len());
        let mut i: usize = 0;
        while i < self.entries.len()
            invariant
                i <= self.entries@.len(),
                entries@.len() == i,
                forall|v: V, w: V| #[trigger] cloned::<V>(v, w) ==> v == w,
                forall|j: int|
                    0 <= j < i ==> (#[trigger] entries@[j]).0@ == self.entries@[j].0@ && entries@[j].1
                        == self.entries@[j].1,
            decreases self.entries@.len() - i,
        {
            let e: &(K, V) = &self.entries[i];
            let v = e.1.clone();
            assert(cloned::<V>(e.1, v));
            entries.push((e.0.duplicate(), v));
            i = i + 1;
        }
        let r = OrdMap { entries };
        proof {
            assert(r.keys() =~= self.keys());
            assert forall|k: K::V| #[trigger] r@.dom().contains(k) implies r@[k] == self@[k] by {
                let j = r.lemma_key(k);
                self.lemma_index(j);
            }
            assert(r@ =~= self@);
        }
        r
    }

    /// The first position whose key does not come before `key`.
    pub fn lower_bound(&self, key: &K) -> (pos: usize)
        requires
            self.wf(),
        ensures
            pos <= self.keys().len(),
            forall|i: int|
                #![trigger self.keys()[i]]
                0 <= i < pos ==> K::before(self.keys()[i], key@),
            forall|i: int|
                #![trigger self.keys()[i]]
                pos <= i < self.keys().len() ==> !K::before(self.keys()[i], key@),
    {
        let mut lo: usize = 0;
        let mut hi: usize = self.entries.len();
        while lo < hi
            invariant
                self.wf(),
                lo <= hi <= self.keys().len(),
                self.keys().len() == self.entries@.len(),
                forall|i: int|
                    #![trigger self.keys()[i]]
                    0 <= i < lo ==> K::before(self.keys()[i], key@),
                forall|i: int|
                    #![trigger self.keys()[i]]
                    hi <= i < self.keys().len() ==> !K::before(self.keys()[i], key@),
            decreases hi - lo,
        {
            let mid: usize = lo + (hi - lo) / 2;
            let ghost ks = self.keys();
            assert(ks[mid as int] == self.entries@[mid as int].0@);
            if self.entries[mid].0.is_before(key) {
                proof {
                    assert forall|i: int|
                        #![trigger self.keys()[i]]
                        0 <= i < mid + 1 implies K::before(self.keys()[i], key@) by {
                        if i < mid {
                            assert(K::before(ks[i], ks[mid as int]));
                            K::before_transitive(ks[i], ks[mid as int], key@);
                        }
                    }
                }
                lo = mid + 1;
            } else {
                proof {
                    assert forall|i: int|
                        #![trigger self.keys()[i]]
                        mid <= i < self.keys().len() implies !K::before(self.keys()[i], key@) by {
                        if mid < i && K::before(ks[i], key@) {
                            assert(K::before(ks[mid as int], ks[i]));
                            K::before_transitive(ks[mid as int], ks[i], key@);
                        }
                    }
                }
                hi = mid;
            }
        }
        lo
    }

    /// The position of `key`, or where it would be put.
    pub fn find(&self, key: &K) -> (r: Result<usize, usize>)
        requires
            self.wf(),
        ensures
            match r {
                Ok(i) => i < self.keys().len() && self.keys()[i as int] == key@
                    && self@.dom().contains(key@) && self@[key@] == self.value_of(i as int),
                Err(i) => i <= self.keys().len() && !self@.dom().contains(key@) && (forall|j: int|
                    #![trigger self.keys()[j]]
                    0 <= j < i ==> K::before(self.keys()[j], key@)) && (forall|j: int|
                    #![trigger self.keys()[j]]
                    i <= j < self.keys().len() ==> K::before(key@, self.keys()[j])),
            },
    {
        let pos: usize = self.lower_bound(key);
        let ghost ks = self.keys();
        if pos < self.entries.len() && !key.is_before(&self.entries[pos].0) {
            proof {
                K::before_total(ks[pos as int], key@);
                self.lemma_index(pos as int);
            }
            Ok(pos)
        } else {
            proof {
                assert forall|j: int|
                    #![trigger self.keys()[j]]
                    pos <= j < self.keys().len() implies K::before(key@, self.keys()[j]) by {
                    assert(ks[pos as int] == self.entries@[pos as int].0@);
                    if pos < j {
                        assert(K::before(ks[pos as int], ks[j]));
                        K::before_transitive(key@, ks[pos as int], ks[j]);
                    }
                }
                if self@.dom().contains(key@) {
                    let j = self.lemma_key(key@);
                    K::before_irreflexive(key@);
                }
            }
            Err(pos)
        }
    }

    pub fn get(&self, key: &K) -> (r: Option<&V>)
        requires
            self.wf(),
        ensures
            r == (if self@.dom().contains(key@) {
                Some(&self@[key@])
            } else {
                None
            }),
    {
        match self.find(key) {
            Ok(i) => Some(&self.entries[i].1),
            Err(_) => None,
        }
    }

    pub fn contains_key(&self, key: &K) -> (r: bool)
        requires
            self.wf(),
        ensures
            r == self@.dom().contains(key@),
    {
        match self.find(key) {
            Ok(_) => true,
            Err(_) => false,
        }
    }

    /// Sets the value of `key` and gives back the one it replaced.
    pub fn insert(&mut self, key: K, value: V) -> (r: Option<V>)
        requires
            old(self).wf(),
        ensures
            final(self).wf(),
            final(self)@ == old(self)@.insert(key@, value),
            r == (if old(self)@.dom().contains(key@) {
                Some(old(self)@[key@])
            } else {
                None
            }),
    {
        let ghost before = *self;
        match self.find(&key) {
            Ok(i) => {
                let mut slot = (key, value);
                let ghost slot0 = slot;
                self.entries.push(slot);
                let old_entry = self.entries.swap_remove(i);
                proof {
                    assert(self.entries@ =~= before.entries@.update(i as int, slot0));
                    assert(self.keys() =~= before.keys());
                    assert forall|k: K::V| #[trigger]
                        self@.dom().contains(k) implies self@[k] == before@.insert(
                        slot0.0@,
                        slot0.1,
                    )[k] by {
                        let j = self.lemma_key(k);
                        before.lemma_index(j);
                        if j != i {
                            before.lemma_index(i as int);
                        }
                    }
                    assert(self@ =~= before@.insert(slot0.0@, slot0.1));
                }
                Some(old_entry.1)
            },
            Err(i) => {
                let ghost k0 = key@;
                let ghost v0 = value;
                self.entries.insert(i, (key, value));
                proof {
                    assert(self.keys() =~= before.keys().insert(i as int, k0));
                    let ks = self.keys();
                    let old_ks = before.keys();
                    assert forall|a: int, b: int|
                        #![trigger self.keys()[a], self.keys()[b]]
                        0 <= a < b < self.keys().len() implies K::before(
                        self.keys()[a],
                        self.keys()[b],
                    ) by {
                        if a < i && b > i {
                            assert(K::before(old_ks[a], old_ks[b - 1]));
                        } else if a < i && b < i {
                            assert(K::before(old_ks[a], old_ks[b]));
                        } else if a > i {
                            assert(K::before(old_ks[a - 1], old_ks[b - 1]));
                        } else if a == i {
                            assert(K::before(k0, old_ks[b - 1]));
                        } else {
                            assert(K::before(old_ks[a], k0));
                        }
                    }
                    let want = before@.insert(k0, v0);
                    assert forall|k: K::V| #[trigger]
                        self@.dom().contains(k) implies want.dom().contains(k) && self@[k]
                        == want[k] by {
                        let j = self.lemma_key(k);
                        if j < i {
                            before.lemma_index(j);
                        } else if j > i {
                            before.lemma_index(j - 1);
                        }
                    }
                    assert forall|k: K::V| #[trigger]
                        want.dom().contains(k) implies self@.dom().contains(k) by {
                        if k == k0 {
                            self.lemma_index(i as int);
                        } else {
                            let j = before.lemma_key(k);
                            if j < i {
                                self.lemma_index(j);
                                assert(self.keys()[j] == k);
                            } else {
                                self.lemma_index(j + 1);
                                assert(self.keys()[j + 1] == k);
                            }
                        }
                    }
                    assert(self@ =~= want);
                }
                None
            },
        }
    }

    /// Removes `key` and gives back its value.
    pub fn remove(&mut self, key: &K) -> (r: Option<V>)
        requires
            old(self).wf(),
        ensures
            final(self).wf(),
            final(self)@ == old(self)@.remove(key@),
            r == (if old(self)@.dom().contains(key@) {
                Some(old(self)@[key@])
            } else {
                None
            }),
    {
        let ghost before = *self;
        match self.find(key) {
            Ok(i) => {
                let e = self.entries.remove(i);
                proof {
                    assert(self.keys() =~= before.keys().remove(i as int));
                    let old_ks = before.keys();
                    assert forall|a: int, b: int|
                        #![trigger self.keys()[a], self.keys()[b]]
                        0 <= a < b < self.keys().len() implies K::before(
                        self.keys()[a],
                        self.keys()[b],
                    ) by {
                        let a1 = if a < i {
                            a
                        } else {
                            a + 1
                        };
                        let b1 = if b < i {
                            b
                        } else {
                            b + 1
                        };
                        assert(K::before(old_ks[a1], old_ks[b1]));
                    }
                    let want = before@.remove(key@);
                    assert forall|k: K::V| #[trigger]
                        self@.dom().contains(k) implies want.dom().contains(k) && self@[k]
                        == want[k] by {
                        let j = self.lemma_key(k);
                        let j1 = if j < i {
                            j
                        } else {
                            j + 1
                        };
                        before.lemma_index(j1);
                        before.lemma_index(i as int);
                        assert(old_ks[j1] == k);
                    }
                    assert forall|k: K::V| #[trigger]
                        want.dom().contains(k) implies self@.dom().contains(k) by {
                        let j = before.lemma_key(k);
                        let j1 = if j < i {
                            j
                        } else {
                            j - 1
                        };
                        self.lemma_index(j1);
                        assert(self.keys()[j1] == k);
                    }
                    assert(self@ =~= want);
                }
                Some(e.1)
            },
            Err(_) => {
                proof {
                    assert(before@.remove(key@) =~= before@);
                }
                None
            },
        }
    }
}

/// Changing one value in place is setting it under its key.
pub proof fn lemma_value_changed<K: OrdKey, V>(before: OrdMap<K, V>, after: OrdMap<K, V>, i: int)
    requires
        before.wf(),
        after.keys() == before.keys(),
        0 <= i < before.keys().len(),
        forall|j: int|
            0 <= j < before.keys().len() && j != i ==> #[trigger] after.value_of(j)
                == before.value_of(j),
    ensures
        after.wf(),
        after@ == before@.insert(before.keys()[i], after.value_of(i)),
{
    assert(after.wf()) by {
        assert forall|a: int, b: int|
            #![trigger after.keys()[a], after.keys()[b]]
            0 <= a < b < after.keys().len() implies K::before(after.keys()[a], after.keys()[b]) by {
            assert(K::before(before.keys()[a], before.keys()[b]));
        }
    }
    let want = before@.insert(before.keys()[i], after.value_of(i));
    assert forall|k: K::V| #[trigger] after@.dom().contains(k) implies want.dom().contains(k)
        && after@[k] == want[k] by {
        let j = after.lemma_key(k);
        before.lemma_index(j);
        before.lemma_index(i);
    }
    assert forall|k: K::V| #[trigger] want.dom().contains(k) implies after@.dom().contains(k) by {
        if before@.dom().contains(k) {
            let j = before.lemma_key(k);
            after.lemma_index(j);
        } else {
            after.lemma_index(i);
        }
    }
    assert(after@ =~= want);
}

/// The item at `a` comes before the one at `b` in stable ascending order.
pub open spec fn sorts_before<K: OrdKey>(keys: Seq<K::V>, a: int, b: int) -> bool {
    K::before(keys[a], keys[b]) || keys[a] == keys[b] && a < b
}

/// `order` lists the positions of all keys in stable ascending order.
pub open spec fn is_stable_order<K: OrdKey>(order: Seq<usize>, keys: Seq<K::V>) -> bool {
    &&& order.len() == keys.len()
    &&& forall|a: int| #![trigger order[a]] 0 <= a < order.len() ==> order[a] < keys.len()
    &&& forall|a: int, b: int|
        #![trigger order[a], order[b]]
        0 <= a < b < order.len() ==> sorts_before::<K>(keys, order[a] as int, order[b] as int)
}

/// The views of some keys.
pub open spec fn key_views<K: OrdKey>(keys: Seq<K>) -> Seq<K::V> {
    Seq::new(keys.len(), |i: int| keys[i]@)
}

proof fn lemma_sorts_transitive<K: OrdKey>(keys: Seq<K::V>, a: int, b: int, c: int)
    requires
        sorts_before::<K>(keys, a, b),
        sorts_before::<K>(keys, b, c),
    ensures
        sorts_before::<K>(keys, a, c),
{
    if K::before(keys[a], keys[b]) && K::before(keys[b], keys[c]) {
        K::before_transitive(keys[a], keys[b], keys[c]);
    }
}

pub proof fn lemma_order_distinct<K: OrdKey>(order: Seq<usize>, keys: Seq<K::V>)
    requires
        is_stable_order::<K>(order, keys),
    ensures
        order.no_duplicates(),
        forall|p: usize| p < keys.len() ==> order.contains(p),
{
    assert forall|a: int, b: int| 0 <= a < order.len() && 0 <= b < order.len() && a != b implies order[a]
        != order[b] by {
        if order[a] == order[b] {
            K::before_irreflexive(keys[order[a] as int]);
            if a < b {
                assert(sorts_before::<K>(keys, order[a] as int, order[b] as int));
            } else {
                assert(sorts_before::<K>(keys, order[b] as int, order[a] as int));
            }
        }
    }
    let ints = order.map_values(|p: usize| p as int);
    assert(ints.no_duplicates());
    let all = vstd::set_lib::set_int_range(0, keys.len() as int);
    vstd::set_lib::lemma_int_range(0, keys.len() as int);
    ints.unique_seq_to_set();
    assert(ints.to_set().subset_of(all));
    vstd::set_lib::lemma_subset_equality(ints.to_set(), all);
    assert forall|p: usize| p < keys.len() implies order.contains(p) by {
        assert(all.contains(p as int));
        assert(ints.contains(p as int));
        let i = choose|i: int| 0 <= i < ints.len() && ints[i] == p as int;
        assert(order[i] == p);
    }
}

/// There is one stable ascending order.
pub proof fn lemma_stable_order_unique<K: OrdKey>(a: Seq<usize>, b: Seq<usize>, keys: Seq<K::V>)
    requires
        is_stable_order::<K>(a, keys),
        is_stable_order::<K>(b, keys),
    ensures
        a == b,
{
    lemma_order_distinct::<K>(a, keys);
    lemma_order_distinct::<K>(b, keys);
    assert forall|i: int| 0 <= i < a.len() implies a[i] == b[i] by {
        lemma_orders_agree::<K>(a, b, keys, i);
    }
    assert(a =~= b);
}

proof fn lemma_orders_agree<K: OrdKey>(a: Seq<usize>, b: Seq<usize>, keys: Seq<K::V>, i: int)
    requires
        is_stable_order::<K>(a, keys),
        is_stable_order::<K>(b, keys),
        a.no_duplicates(),
        b.no_duplicates(),
        forall|p: usize| p < keys.len() ==> a.contains(p),
        forall|p: usize| p < keys.len() ==> b.contains(p),
        0 <= i < a.len(),
    ensures
        a[i] == b[i],
    decreases i,
{
    assert forall|j: int| 0 <= j < i implies #[trigger] a[j] == b[j] by {
        lemma_orders_agree::<K>(a, b, keys, j);
    }
    if a[i] != b[i] {
        assert(b.contains(a[i]));
        let x = choose|x: int| 0 <= x < b.len() && b[x] == a[i];
        assert(a.contains(b[i]));
        let y = choose|y: int| 0 <= y < a.len() && a[y] == b[i];
        if x < i {
            assert(a[x] == b[x]);
        }
        if y < i {
            assert(a[y] == b[y]);
        }
        assert(x > i && y > i);
        assert(sorts_before::<K>(keys, a[i] as int, a[y] as int));
        assert(sorts_before::<K>(keys, b[i] as int, b[x] as int));
        lemma_sorts_transitive::<K>(keys, a[i] as int, b[i] as int, a[i] as int);
        K::before_irreflexive(keys[a[i] as int]);
    }
}

/// The positions of some keys in stable ascending order.
pub fn stable_order<K: OrdKey>(keys: &Vec<K>) -> (order: Vec<usize>)
    ensures
        is_stable_order::<K>(order@, key_views(keys@)),
{
    let mut order: Vec<usize> = Vec::new();
    let ghost views = key_views(keys@);
    let mut i: usize = 0;
    while i < keys.len()
        invariant
            i <= keys@.len(),
            views == key_views(keys@),
            order@.len() == i,
            forall|a: int| #![trigger order@[a]] 0 <= a < order@.len() ==> order@[a] < i,
            forall|a: int, b: int|
                #![trigger order@[a], order@[b]]
                0 <= a < b < order@.len() ==> sorts_before::<K>(
                    views,
                    order@[a] as int,
                    order@[b] as int,
                ),
        decreases keys@.len() - i,
    {
        let mut at: usize = order.len();
        while at > 0 && keys[i].is_before(&keys[order[at - 1]])
            invariant
                at <= order@.len() == i,
                i < keys@.len(),
                views == key_views(keys@),
                forall|a: int| #![trigger order@[a]] 0 <= a < order@.len() ==> order@[a] < i,
                forall|a: int|
                    #![trigger order@[a]]
                    at <= a < order@.len() ==> sorts_before::<K>(views, i as int, order@[a] as int),
            decreases at,
        {
            at = at - 1;
        }
        let ghost prev = order@;
        proof {
            assert forall|a: int| #![trigger prev[a]] 0 <= a < at implies sorts_before::<K>(
                views,
                prev[a] as int,
                i as int,
            ) by {
                let last = prev[at - 1] as int;
                K::before_total(views[last], views[i as int]);
                assert(sorts_before::<K>(views, last, i as int));
                if a < at - 1 {
                    lemma_sorts_transitive::<K>(views, prev[a] as int, last, i as int);
                }
            }
        }
        order.insert(at, i);
        proof {
            assert forall|a: int, b: int|
                #![trigger order@[a], order@[b]]
                0 <= a < b < order@.len() implies sorts_before::<K>(
                views,
                order@[a] as int,
                order@[b] as int,
            ) by {
                let a1 = if a < at {
                    a
                } else {
                    a - 1
                };
                let b1 = if b < at {
                    b
                } else {
                    b - 1
                };
                if a != at && b != at {
                    assert(order@[a] == prev[a1] && order@[b] == prev[b1]);
                    assert(sorts_before::<K>(views, prev[a1] as int, prev[b1] as int));
                } else if a == at {
                    assert(order@[b] == prev[b1]);
                } else {
                    assert(order@[a] == prev[a1]);
                }
            }
        }
        i = i + 1;
    }
    order
}

/// Whether keys come in ascending order.
pub open spec fn in_order<K: OrdKey>(keys: Seq<K::V>) -> bool {
    forall|i: int, j: int|
        #![trigger keys[i], keys[j]]
        0 <= i < j < keys.len() ==> K::before(keys[i], keys[j])
}

/// There is one way to put a set of keys in order.
pub proof fn lemma_one_order<K: OrdKey>(a: Seq<K::V>, b: Seq<K::V>)
    requires
        in_order::<K>(a),
        in_order::<K>(b),
        forall|k: K::V| #[trigger] a.contains(k) == b.contains(k),
    ensures
        a == b,
    decreases a.len(),
{
    if a.len() == 0 {
        if b.len() > 0 {
            assert(b.contains(b[0]));
            assert(a.contains(b[0]));
        }
        assert(a =~= b);
    } else {
        assert(a.contains(a.last()));
        assert(b.contains(a.last()));
        assert(b.len() > 0);
        assert(b.contains(b.last()));
        assert(a.contains(b.last()));
        let i = choose|i: int| 0 <= i < b.len() && b[i] == a.last();
        let j = choose|j: int| 0 <= j < a.len() && a[j] == b.last();
        if i < b.len() - 1 && j < a.len() - 1 {
            assert(K::before(b[i], b[b.len() - 1]));
            assert(K::before(a[j], a[a.len() - 1]));
            K::before_transitive(a.last(), b.last(), a.last());
            K::before_irreflexive(a.last());
        }
        assert(a.last() == b.last());
        let x = a.drop_last();
        let y = b.drop_last();
        assert forall|k: K::V| #[trigger] x.contains(k) == y.contains(k) by {
            lemma_front_holds::<K>(a, k);
            lemma_front_holds::<K>(b, k);
            assert(a.contains(k) == b.contains(k));
        }
        lemma_one_order::<K>(x, y);
        assert(a =~= x.push(a.last()));
        assert(b =~= y.push(b.last()));
    }
}

/// Without its last key, an ordered list holds the others.
proof fn lemma_front_holds<K: OrdKey>(keys: Seq<K::V>, k: K::V)
    requires
        keys.len() > 0,
        in_order::<K>(keys),
    ensures
        keys.drop_last().contains(k) == (keys.contains(k) && k != keys.last()),
{
    let front = keys.drop_last();
    if front.contains(k) {
        let i = choose|i: int| 0 <= i < front.len() && front[i] == k;
        assert(keys[i] == k);
        assert(K::before(keys[i], keys[keys.len() - 1]));
        K::before_irreflexive(k);
    }
    if keys.contains(k) && k != keys.last() {
        let i = choose|i: int| 0 <= i < keys.len() && keys[i] == k;
        assert(front[i] == k);
    }
}

/// The keys of a map are in order, and one more key takes its place among them.
pub proof fn lemma_key_added<K: OrdKey, V>(before: OrdMap<K, V>, after: OrdMap<K, V>, k: K::V) -> (i: int)
    requires
        before.wf(),
        after.wf(),
        after@.dom() == before@.dom().insert(k),
    ensures
        0 <= i < after.keys().len(),
        after.keys()[i] == k,
        before@.dom().contains(k) ==> after.keys() == before.keys(),
        !before@.dom().contains(k) ==> after.keys() == before.keys().insert(i, k),
{
    let a = before.keys();
    let b = after.keys();
    before.lemma_dom();
    after.lemma_dom();
    assert(after@.dom().contains(k));
    let i = after.lemma_key(k);
    assert forall|x: K::V| #[trigger] a.contains(x) == before@.dom().contains(x) by {
        assert(a.to_set().contains(x) == a.contains(x));
    }
    assert forall|x: K::V| #[trigger] b.contains(x) == after@.dom().contains(x) by {
        assert(b.to_set().contains(x) == b.contains(x));
    }
    if before@.dom().contains(k) {
        assert(after@.dom() =~= before@.dom());
        assert forall|x: K::V| #[trigger] a.contains(x) == b.contains(x) by {
            assert(before@.dom().contains(x) == after@.dom().contains(x));
        }
        lemma_one_order::<K>(a, b);
    } else {
        let rest = b.remove(i);
        assert forall|x: int, y: int|
            #![trigger rest[x], rest[y]]
            0 <= x < y < rest.len() implies K::before(rest[x], rest[y]) by {
            let p = if x < i {
                x
            } else {
                x + 1
            };
            let q = if y < i {
                y
            } else {
                y + 1
            };
            assert(rest[x] == b[p] && rest[y] == b[q]);
        }
        assert forall|x: K::V| #[trigger] a.contains(x) == rest.contains(x) by {
            if rest.contains(x) {
                let j = choose|j: int| 0 <= j < rest.len() && rest[j] == x;
                let p = if j < i {
                    j
                } else {
                    j + 1
                };
                assert(b[p] == x);
                assert(b.contains(x));
                if x == k {
                    assert(b[p] == b[i]);
                }
                assert(after@.dom().contains(x));
            }
            if a.contains(x) {
                assert(after@.dom().contains(x));
                assert(b.contains(x));
                let p = choose|p: int| 0 <= p < b.len() && b[p] == x;
                assert(p != i);
                let j = if p < i {
                    p
                } else {
                    p - 1
                };
                assert(rest[j] == x);
            }
        }
        lemma_one_order::<K>(a, rest);
        assert(b =~= a.insert(i, k));
    }
    i
}

} // verus!
