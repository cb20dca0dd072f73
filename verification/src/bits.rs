//! Vectors of bits.
use vstd::prelude::*;

verus! {

/// A `bitvec::vec::BitVec`.
#[verifier::external_body]
#[derive(Debug)]
pub struct BitVector {
    bits: bitvec::vec::BitVec,
}

/// The bits that a bit vector holds.
pub uninterp spec fn bits_of(b: BitVector) -> Seq<bool>;

/// How many bits a bit vector can hold.
pub open spec fn max_bits() -> int {
    usize::MAX as int / 8
}

/// `ones` lists the places of the set bits, in ascending order.
pub open spec fn lists_ones(ones: Seq<usize>, bits: Seq<bool>) -> bool {
    &&& forall|i: int, j: int| #![auto] 0 <= i < j < ones.len() ==> ones[i] < ones[j]
    &&& forall|i: int| #![trigger ones[i]] 0 <= i < ones.len() ==> ones[i] < bits.len() && bits[ones[i] as int]
    &&& forall|k: int| #![trigger bits[k]] 0 <= k < bits.len() && bits[k] ==> ones.contains(k as usize)
}

/// `BitVec::new`: no bits.
#[verifier::external_body]
pub(crate) fn bits_new() -> (b: BitVector)
    ensures
        bits_of(b) == Seq::<bool>::empty(),
{
    BitVector { bits: bitvec::vec::BitVec::new() }
}

/// `BitSlice::len`: how many bits there are, of which there cannot be more than
/// a vector can hold.
#[verifier::external_body]
pub(crate) fn bits_len(b: &BitVector) -> (n: usize)
    ensures
        n == bits_of(*b).len(),
        n <= max_bits(),
{
    b.bits.len()
}

/// `BitVec::resize` with cleared bits: bits are cut off or appended at the end.
#[verifier::external_body]
pub(crate) fn bits_resize(b: &mut BitVector, len: usize)
    requires
        len <= max_bits(),
    ensures
        bits_of(*final(b)) == Seq::new(
            len as nat,
            |i: int|
                if i < bits_of(*old(b)).len() {
                    bits_of(*old(b))[i]
                } else {
                    false
                },
        ),
{
    b.bits.resize(len, false)
}

/// `BitSlice::set`: writes one bit.
#[verifier::external_body]
pub(crate) fn bits_set(b: &mut BitVector, index: usize, value: bool)
    requires
        index < bits_of(*old(b)).len(),
    ensures
        bits_of(*final(b)) == bits_of(*old(b)).update(index as int, value),
{
    b.bits.set(index, value)
}

/// `BitSlice::get`: one bit, if it is there.
#[verifier::external_body]
pub(crate) fn bits_get(b: &BitVector, index: usize) -> (r: Option<bool>)
    ensures
        r == if index < bits_of(*b).len() {
            Some(bits_of(*b)[index as int])
        } else {
            None
        },
{
    b.bits.get(index).map(|bit| *bit)
}

/// `BitSlice::iter_ones`: the places of the set bits.
#[verifier::external_body]
pub(crate) fn bits_ones(b: &BitVector) -> (ones: Vec<usize>)
    ensures
        lists_ones(ones@, bits_of(*b)),
{
    b.bits.iter_ones().collect()
}

/// `BitSlice::count_ones`: how many bits are set.
#[verifier::external_body]
pub(crate) fn bits_count_ones(b: &BitVector) -> (n: usize)
    ensures
        n == set_bits(bits_of(*b)),
{
    b.bits.count_ones()
}

/// How many bits are set.
pub open spec fn set_bits(bits: Seq<bool>) -> nat
    decreases bits.len(),
{
    if bits.len() == 0 {
        0
    } else {
        set_bits(bits.drop_last()) + if bits.last() {
            1nat
        } else {
            0nat
        }
    }
}

/// There are as many set bits as a list of them has places.
pub proof fn lemma_lists_ones_len(ones: Seq<usize>, bits: Seq<bool>)
    requires
        lists_ones(ones, bits),
        bits.len() <= usize::MAX,
    ensures
        ones.len() == set_bits(bits),
    decreases bits.len(),
{
    if bits.len() == 0 {
        if ones.len() > 0 {
            assert(ones[0] < bits.len());
        }
    } else {
        let front = bits.drop_last();
        let last = bits.len() - 1;
        if bits.last() {
            assert(bits[last]);
            assert(ones.contains(last as usize));
            let at = choose|i: int| 0 <= i < ones.len() && ones[i] == last as usize;
            if at < ones.len() - 1 {
                assert(ones[at] < ones[ones.len() - 1]);
                assert(ones[ones.len() - 1] < bits.len());
            }
            let fewer = ones.drop_last();
            assert(lists_ones(fewer, front)) by {
                assert forall|i: int| #![trigger fewer[i]] 0 <= i < fewer.len() implies fewer[i] < front.len()
                    && front[fewer[i] as int] by {
                    assert(ones[i] < ones[ones.len() - 1]);
                    assert(fewer[i] == ones[i]);
                }
                assert forall|k: int| #![trigger front[k]] 0 <= k < front.len() && front[k] implies fewer.contains(
                    k as usize,
                ) by {
                    assert(bits[k]);
                    let i = choose|i: int| 0 <= i < ones.len() && ones[i] == k as usize;
                    assert(fewer[i] == k as usize);
                }
            }
            lemma_lists_ones_len(fewer, front);
        } else {
            assert(lists_ones(ones, front)) by {
                assert forall|i: int| #![trigger ones[i]] 0 <= i < ones.len() implies ones[i] < front.len()
                    && front[ones[i] as int] by {
                    assert(bits[ones[i] as int]);
                }
                assert forall|k: int| #![trigger front[k]] 0 <= k < front.len() && front[k] implies ones.contains(
                    k as usize,
                ) by {
                    assert(bits[k]);
                }
            }
            lemma_lists_ones_len(ones, front);
        }
    }
}

} // verus!
