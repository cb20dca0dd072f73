//! Fractions compared without rounding.
use vstd::prelude::*;

verus! {

/// The fraction `num / den`.
#[derive(Debug, Clone, Copy, PartialEq, Eq, Structural)]
pub struct Ratio {
    pub num: u64,
    pub den: u64,
}

/// `part / whole` is less than `limit`, for positive denominators.
pub open spec fn below(part: int, whole: int, limit: Ratio) -> bool {
    part * limit.den < limit.num * whole
}

/// `part / whole` is greater than `limit`, for positive denominators.
pub open spec fn above(part: int, whole: int, limit: Ratio) -> bool {
    part * limit.den > limit.num * whole
}

proof fn lemma_product_fits(a: u64, b: u64)
    ensures
        0 <= a * b <= u128::MAX,
{
    assert(0 <= a * b <= 0xffff_ffff_ffff_ffff * 0xffff_ffff_ffff_ffff) by (nonlinear_arith)
        requires
            0 <= a <= 0xffff_ffff_ffff_ffff,
            0 <= b <= 0xffff_ffff_ffff_ffff,
    ;
}

/// Whether `part / whole` is less than `limit`.
pub fn is_below(part: u64, whole: u64, limit: Ratio) -> (r: bool)
    ensures
        r == below(part as int, whole as int, limit),
{
    proof {
        lemma_product_fits(part, limit.den);
        lemma_product_fits(limit.num, whole);
    }
    (part as u128) * (limit.den as u128) < (limit.num as u128) * (whole as u128)
}

/// Whether `part / whole` is greater than `limit`.
pub fn is_above(part: u64, whole: u64, limit: Ratio) -> (r: bool)
    ensures
        r == above(part as int, whole as int, limit),
{
    proof {
        lemma_product_fits(part, limit.den);
        lemma_product_fits(limit.num, whole);
    }
    (part as u128) * (limit.den as u128) > (limit.num as u128) * (whole as u128)
}

/// A fraction that may be negative.
#[derive(Debug, Clone, Copy, PartialEq, Eq, Structural)]
pub struct Fraction {
    pub num: i128,
    pub den: u128,
}

} // verus!
