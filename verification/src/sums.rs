//! Sums over the values of a map.
use vstd::prelude::*;

verus! {

/// The sum of a measure over the values of a map.
pub open spec fn map_sum<K, V>(m: Map<K, V>, f: spec_fn(V) -> int) -> int
    decreases m.dom().len(),
    when m.dom().finite()
{
    if m.dom().len() == 0 {
        0
    } else {
        let k = m.dom().choose();
        f(m[k]) + map_sum(m.remove(k), f)
    }
}

/// A map without values has the sum zero.
pub proof fn lemma_sum_empty<K, V>(f: spec_fn(V) -> int)
    ensures
        map_sum(Map::<K, V>::empty(), f) == 0,
{
    assert(Map::<K, V>::empty().dom() =~= Set::empty());
}

/// The part of one value can be taken out of a sum.
pub proof fn lemma_sum_part<K, V>(m: Map<K, V>, k: K, f: spec_fn(V) -> int)
    requires
        m.dom().finite(),
        m.dom().contains(k),
    ensures
        map_sum(m, f) == f(m[k]) + map_sum(m.remove(k), f),
    decreases m.dom().len(),
{
    let c = m.dom().choose();
    assert(m.dom().contains(c));
    assert(m.remove(c).dom() =~= m.dom().remove(c));
    assert(m.remove(k).dom() =~= m.dom().remove(k));
    if c != k {
        lemma_sum_part(m.remove(c), k, f);
        lemma_sum_part(m.remove(k), c, f);
        assert(m.remove(c).remove(k) =~= m.remove(k).remove(c));
    }
}

/// What a sum is once a value was put in the place of another, or in a new place.
pub proof fn lemma_sum_insert<K, V>(m: Map<K, V>, k: K, v: V, f: spec_fn(V) -> int)
    requires
        m.dom().finite(),
    ensures
        map_sum(m.insert(k, v), f) == map_sum(m, f) + f(v) - if m.dom().contains(k) {
            f(m[k])
        } else {
            0
        },
{
    let n = m.insert(k, v);
    assert(n.dom() =~= m.dom().insert(k));
    lemma_sum_part(n, k, f);
    if m.dom().contains(k) {
        lemma_sum_part(m, k, f);
        assert(n.remove(k) =~= m.remove(k));
    } else {
        assert(n.remove(k) =~= m);
    }
}

/// The sum of a measure over the values under some keys.
pub open spec fn listed_sum<K, V>(m: Map<K, V>, keys: Seq<K>, f: spec_fn(V) -> int) -> int
    decreases keys.len(),
{
    if keys.len() == 0 {
        0
    } else {
        listed_sum(m, keys.drop_last(), f) + f(m[keys.last()])
    }
}

/// The sum over the values under all keys, each listed once, is that of the map.
pub proof fn lemma_sum_listed<K, V>(m: Map<K, V>, keys: Seq<K>, f: spec_fn(V) -> int)
    requires
        keys.no_duplicates(),
        forall|k: K| #[trigger] m.dom().contains(k) <==> keys.contains(k),
        m.dom().finite(),
    ensures
        listed_sum(m, keys, f) == map_sum(m, f),
    decreases keys.len(),
{
    if keys.len() == 0 {
        assert(m.dom() =~= Set::empty()) by {
            assert forall|k: K| !#[trigger] m.dom().contains(k) by {}
        }
    } else {
        let last = keys.last();
        let front = keys.drop_last();
        let rest = m.remove(last);
        assert(keys.contains(last));
        assert(m.dom().contains(last));
        assert(rest.dom() =~= m.dom().remove(last));
        assert forall|k: K| #[trigger] rest.dom().contains(k) <==> front.contains(k) by {
            if front.contains(k) {
                let i = choose|i: int| 0 <= i < front.len() && front[i] == k;
                assert(keys[i] == k);
                assert(keys.contains(k));
                assert(keys[keys.len() - 1] == last);
            }
            if rest.dom().contains(k) {
                assert(m.dom().contains(k));
                let i = choose|i: int| 0 <= i < keys.len() && keys[i] == k;
                assert(front[i] == k);
            }
        }
        lemma_sum_listed(rest, front, f);
        lemma_listed_elsewhere(m, rest, front, f);
        lemma_sum_part(m, last, f);
    }
}

/// A sum depends on the values under its keys only.
proof fn lemma_listed_elsewhere<K, V>(a: Map<K, V>, b: Map<K, V>, keys: Seq<K>, f: spec_fn(V) -> int)
    requires
        forall|k: K| #[trigger] keys.contains(k) ==> a[k] == b[k],
    ensures
        listed_sum(a, keys, f) == listed_sum(b, keys, f),
    decreases keys.len(),
{
    if keys.len() > 0 {
        let front = keys.drop_last();
        assert forall|k: K| #[trigger] front.contains(k) implies a[k] == b[k] by {
            let i = choose|i: int| 0 <= i < front.len() && front[i] == k;
            assert(keys[i] == k);
            assert(keys.contains(k));
        }
        lemma_listed_elsewhere(a, b, front, f);
        assert(keys.contains(keys.last()));
    }
}

/// The sum over the values under some keys, each listed once, is not more than
/// that of the map, where no value counts less than zero.
pub proof fn lemma_sum_bounds<K, V>(m: Map<K, V>, keys: Seq<K>, f: spec_fn(V) -> int)
    requires
        m.dom().finite(),
        keys.no_duplicates(),
        forall|k: K| #[trigger] keys.contains(k) ==> m.dom().contains(k),
        forall|v: V| #[trigger] f(v) >= 0,
    ensures
        listed_sum(m, keys, f) <= map_sum(m, f),
    decreases keys.len(),
{
    if keys.len() == 0 {
        lemma_sum_positive(m, f);
    } else {
        let last = keys.last();
        let front = keys.drop_last();
        let rest = m.remove(last);
        assert(keys.contains(last));
        assert(rest.dom() =~= m.dom().remove(last));
        assert forall|k: K| #[trigger] front.contains(k) implies rest.dom().contains(k) && m[k] == rest[k] by {
            let i = choose|i: int| 0 <= i < front.len() && front[i] == k;
            assert(keys[i] == k);
            assert(keys.contains(k));
            assert(keys[keys.len() - 1] == last);
        }
        lemma_sum_bounds(rest, front, f);
        lemma_listed_elsewhere(m, rest, front, f);
        lemma_sum_part(m, last, f);
    }
}

proof fn lemma_sum_positive<K, V>(m: Map<K, V>, f: spec_fn(V) -> int)
    requires
        m.dom().finite(),
        forall|v: V| #[trigger] f(v) >= 0,
    ensures
        map_sum(m, f) >= 0,
    decreases m.dom().len(),
{
    if m.dom().len() > 0 {
        let k = m.dom().choose();
        assert(m.dom().contains(k));
        assert(m.remove(k).dom() =~= m.dom().remove(k));
        assert(f(m[k]) >= 0);
        lemma_sum_positive(m.remove(k), f);
    }
}

} // verus!
