//! Compressed sets of row numbers, kept by `croaring::Bitmap`.
use vstd::prelude::*;

verus! {

/// `croaring::Bitmap`, a compressed set of `u32`.
#[verifier::external_type_specification]
#[verifier::external_body]
pub struct ExBitmap(croaring::Bitmap);

/// The numbers that a bitmap holds.
pub uninterp spec fn bitmap_rows(b: croaring::Bitmap) -> Set<u32>;

/// The numbers of the bitmap that `croaring` reads from bytes in portable
/// form; no number when the bytes are not of that form.
pub uninterp spec fn portable_rows(bytes: Seq<u8>) -> Set<u32>;

/// `rows` lists exactly the numbers of `set`, in ascending order.
pub open spec fn lists(rows: Seq<u32>, set: Set<u32>) -> bool {
    &&& forall|i: int, j: int| #![auto] 0 <= i < j < rows.len() ==> rows[i] < rows[j]
    &&& forall|x: u32| #[trigger] set.contains(x) <==> rows.contains(x)
}

/// A listed set is as large as its list.
pub proof fn lemma_lists_len(rows: Seq<u32>, set: Set<u32>)
    requires
        lists(rows, set),
    ensures
        set.finite(),
        set.len() == rows.len(),
{
    assert(rows.no_duplicates());
    rows.unique_seq_to_set();
    assert(set =~= rows.to_set());
}

/// There is one ascending list of a set.
pub proof fn lemma_lists_unique(a: Seq<u32>, b: Seq<u32>, set: Set<u32>)
    requires
        lists(a, set),
        lists(b, set),
    ensures
        a == b,
    decreases a.len(),
{
    lemma_lists_len(a, set);
    lemma_lists_len(b, set);
    if a.len() > 0 {
        let la = a.last();
        let lb = b.last();
        assert(set.contains(la) && set.contains(lb));
        assert(a.contains(lb) && b.contains(la));
        let i = a.index_of(lb);
        let j = b.index_of(la);
        assert(a[i] == lb && b[j] == la);
        assert(la == lb);
        let a1 = a.drop_last();
        let b1 = b.drop_last();
        let s1 = set.remove(la);
        assert forall|x: u32| #[trigger] s1.contains(x) <==> a1.contains(x) by {
            if s1.contains(x) {
                let k = a.index_of(x);
                assert(a1[k] == x);
            }
            if a1.contains(x) {
                let k = a1.index_of(x);
                assert(a[k] == x);
                assert(a[k] < a[a.len() - 1]);
            }
        }
        assert forall|x: u32| #[trigger] s1.contains(x) <==> b1.contains(x) by {
            if s1.contains(x) {
                let k = b.index_of(x);
                assert(b1[k] == x);
            }
            if b1.contains(x) {
                let k = b1.index_of(x);
                assert(b[k] == x);
                assert(b[k] < b[b.len() - 1]);
            }
        }
        lemma_lists_unique(a1, b1, s1);
        assert(a =~= a1.push(la));
        assert(b =~= b1.push(lb));
    } else {
        assert(a =~= b);
    }
}

/// The ascending list of a finite set.
pub open spec fn listing(set: Set<u32>) -> Seq<u32> {
    choose|rows: Seq<u32>| lists(rows, set)
}

/// A list of a set is its listing.
pub proof fn lemma_listing(rows: Seq<u32>, set: Set<u32>)
    requires
        lists(rows, set),
    ensures
        listing(set) == rows,
{
    lemma_lists_unique(rows, listing(set), set);
}

/// The numbers of a set below `n`, in ascending order.
spec fn listed_below(set: Set<u32>, n: nat) -> Seq<u32>
    decreases n,
{
    if n == 0 {
        Seq::empty()
    } else {
        let front = listed_below(set, (n - 1) as nat);
        if set.contains((n - 1) as u32) {
            front.push((n - 1) as u32)
        } else {
            front
        }
    }
}

proof fn lemma_listed_below(set: Set<u32>, n: nat)
    requires
        n <= 0x1_0000_0000,
    ensures
        ({
            let rows = listed_below(set, n);
            &&& forall|i: int, j: int| #![auto] 0 <= i < j < rows.len() ==> rows[i] < rows[j]
            &&& forall|i: int| #![trigger rows[i]] 0 <= i < rows.len() ==> rows[i] < n
            &&& forall|x: u32| #[trigger] rows.contains(x) <==> set.contains(x) && x < n
        }),
    decreases n,
{
    if n > 0 {
        let front = listed_below(set, (n - 1) as nat);
        let rows = listed_below(set, n);
        let last = (n - 1) as u32;
        lemma_listed_below(set, (n - 1) as nat);
        assert forall|x: u32| #[trigger] rows.contains(x) <==> set.contains(x) && x < n by {
            if front.contains(x) {
                assert(rows[front.index_of(x)] == x);
            }
            if set.contains(last) {
                assert(rows[front.len() as int] == last);
            }
            if rows.contains(x) && rows.index_of(x) < front.len() {
                assert(front[rows.index_of(x)] == x);
            }
        }
    }
}

/// Every set has a listing.
pub proof fn lemma_has_listing(set: Set<u32>)
    ensures
        lists(listing(set), set),
{
    lemma_listed_below(set, 0x1_0000_0000);
    assert(lists(listed_below(set, 0x1_0000_0000), set));
}

/// `Bitmap::new`: a bitmap without numbers.
#[verifier::external_body]
pub(crate) fn bitmap_new() -> (b: croaring::Bitmap)
    ensures
        bitmap_rows(b) == Set::<u32>::empty(),
{
    croaring::Bitmap::new()
}

/// `Bitmap::of`: a bitmap of the numbers of a slice.
#[verifier::external_body]
pub(crate) fn bitmap_of(elements: &[u32]) -> (b: croaring::Bitmap)
    ensures
        bitmap_rows(b) == elements@.to_set(),
{
    croaring::Bitmap::of(elements)
}

/// `Bitmap::add`: puts one number in.
#[verifier::external_body]
pub(crate) fn bitmap_add(b: &mut croaring::Bitmap, element: u32)
    ensures
        bitmap_rows(*final(b)) == bitmap_rows(*old(b)).insert(element),
{
    b.add(element)
}

/// `Bitmap::contains`: whether a number is in.
#[verifier::external_body]
pub(crate) fn bitmap_contains(b: &croaring::Bitmap, element: u32) -> (r: bool)
    ensures
        r == bitmap_rows(*b).contains(element),
{
    b.contains(element)
}

/// `Bitmap::cardinality`: how many numbers are in.
#[verifier::external_body]
pub(crate) fn bitmap_cardinality(b: &croaring::Bitmap) -> (n: u64)
    ensures
        n == bitmap_rows(*b).len(),
{
    b.cardinality()
}

/// `Bitmap::iter`: the numbers, in ascending order.
#[verifier::external_body]
pub(crate) fn bitmap_list(b: &croaring::Bitmap) -> (rows: Vec<u32>)
    ensures
        lists(rows@, bitmap_rows(*b)),
{
    b.iter().collect()
}

/// `Bitmap::or_inplace`: puts in every number of another bitmap.
#[verifier::external_body]
pub(crate) fn bitmap_or(b: &mut croaring::Bitmap, other: &croaring::Bitmap)
    ensures
        bitmap_rows(*final(b)) == bitmap_rows(*old(b)).union(bitmap_rows(*other)),
{
    b.or_inplace(other)
}

/// `Bitmap::serialize` in portable form: bytes from which the same numbers are
/// read back.
#[verifier::external_body]
pub(crate) fn bitmap_serialize(b: &croaring::Bitmap) -> (bytes: Vec<u8>)
    ensures
        portable_rows(bytes@) == bitmap_rows(*b),
{
    b.serialize::<croaring::Portable>()
}

/// `Bitmap::deserialize` in portable form: the bitmap that the bytes hold, an
/// empty one when they hold none.
#[verifier::external_body]
pub(crate) fn bitmap_deserialize(bytes: &[u8]) -> (b: croaring::Bitmap)
    ensures
        bitmap_rows(b) == portable_rows(bytes@),
{
    croaring::Bitmap::deserialize::<croaring::Portable>(bytes)
}

/// `Bitmap::range_cardinality`: how many numbers are in, from one number up to
/// another.
#[verifier::external_body]
pub(crate) fn bitmap_range_cardinality(b: &croaring::Bitmap, start: u32, end: u32) -> (n: u64)
    ensures
        n == bitmap_rows(*b).filter(|x: u32| start <= x < end).len(),
{
    b.range_cardinality(start..end)
}

} // verus!
