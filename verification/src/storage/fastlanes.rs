//! How wide the integers of a column are packed.
use vstd::arithmetic::power2::{lemma2_to64, lemma_pow2_unfold, pow2};
use vstd::prelude::*;
use crate::column::{Column, ColumnType, ColumnView};
use crate::error::RockDuckError;
use crate::segment::encoding::{every, lemma_every_len};
use crate::segment::projection::{number_at, read_number};

verus! {

/// How a column is encoded.
#[derive(Debug, Clone, Copy, PartialEq, Eq, Structural)]
pub enum EncodingScheme {
    BitPacking,
    Delta,
    FOR,
    Alp,
    AlpRD,
    BtrBlocks,
}

/// How integers are best encoded.
#[derive(Debug, Clone, Copy, PartialEq, Eq, Structural)]
pub enum EncodingMethod {
    /// In so many bits each.
    BitPacking(u8),
    Delta,
    FoR,
}

/// At most so many values are looked at.
pub const SAMPLE_ROWS: usize = 10000;

/// Whether the values of a type are integers.
pub open spec fn is_integer(dtype: ColumnType) -> bool {
    match dtype {
        ColumnType::Int8
        | ColumnType::Int16
        | ColumnType::Int32
        | ColumnType::Int64
        | ColumnType::UInt8
        | ColumnType::UInt16
        | ColumnType::UInt32
        | ColumnType::UInt64 => true,
        _ => false,
    }
}

/// Whether the values of a type are integers with a sign.
pub open spec fn is_signed(dtype: ColumnType) -> bool {
    match dtype {
        ColumnType::Int8 | ColumnType::Int16 | ColumnType::Int32 | ColumnType::Int64 => true,
        _ => false,
    }
}

/// The integer in a row: zero where there is none or the type has none.
pub open spec fn int_at(c: ColumnView, row: int) -> int {
    if is_integer(c.dtype) {
        number_at(c, row)
    } else {
        0
    }
}

/// Every how many rows a value is looked at.
pub open spec fn sample_step(total: nat) -> nat {
    if total <= SAMPLE_ROWS {
        1
    } else {
        total / SAMPLE_ROWS as nat
    }
}

/// The values that are looked at.
pub open spec fn sampled(c: ColumnView) -> Seq<int> {
    every(Seq::new(c.cells.len(), |i: int| int_at(c, i)), sample_step(c.cells.len()) as int)
}

pub open spec fn least_of(s: Seq<int>) -> int
    recommends
        s.len() > 0,
    decreases s.len(),
{
    if s.len() <= 1 || s.last() < least_of(s.drop_last()) {
        s.last()
    } else {
        least_of(s.drop_last())
    }
}

pub open spec fn greatest_of(s: Seq<int>) -> int
    recommends
        s.len() > 0,
    decreases s.len(),
{
    if s.len() <= 1 || s.last() > greatest_of(s.drop_last()) {
        s.last()
    } else {
        greatest_of(s.drop_last())
    }
}

/// How far the values that are looked at lie apart.
pub open spec fn spread(c: ColumnView) -> int {
    greatest_of(sampled(c)) - least_of(sampled(c))
}

/// How many bits a number has without leading zeros.
pub open spec fn bit_len(n: nat) -> nat
    decreases n,
{
    if n == 0 {
        0
    } else {
        1 + bit_len(n / 2)
    }
}

/// How many bits the values of a column need: those of the spread, or with a sign
/// those of one more, but no more than 64; one bit if all are equal.
pub open spec fn bits_needed(c: ColumnView) -> nat {
    if c.cells.len() == 0 || spread(c) == 0 {
        1
    } else {
        let bits = bit_len(
            (if is_signed(c.dtype) {
                spread(c) + 1
            } else {
                spread(c)
            }) as nat,
        );
        if bits > 64 {
            64
        } else {
            bits
        }
    }
}

/// The integer in a row.
pub fn extract_i128(arr: &Column, idx: usize) -> (r: i128)
    requires
        arr.wf(),
        idx < arr@.cells.len(),
    ensures
        r == int_at(arr@, idx as int),
        i64::MIN <= r <= u64::MAX,
{
    match arr.dtype {
        ColumnType::Int8
        | ColumnType::Int16
        | ColumnType::Int32
        | ColumnType::Int64
        | ColumnType::UInt8
        | ColumnType::UInt16
        | ColumnType::UInt32
        | ColumnType::UInt64 => read_number(arr, idx),
        _ => 0,
    }
}

proof fn lemma_extremes(s: Seq<int>)
    requires
        s.len() > 0,
    ensures
        least_of(s) <= greatest_of(s),
    decreases s.len(),
{
    if s.len() > 1 {
        lemma_extremes(s.drop_last());
    }
}

/// How far the values that are looked at lie apart.
fn sample_spread(arr: &Column) -> (r: u128)
    requires
        arr.wf(),
        arr@.cells.len() > 0,
    ensures
        r == spread(arr@),
        r <= 0x1_8000_0000_0000_0000,
{
    let n: usize = arr.len();
    let step: usize = if n <= SAMPLE_ROWS {
        1
    } else {
        n / SAMPLE_ROWS
    };
    let ghost rows = Seq::new(arr@.cells.len(), |i: int| int_at(arr@, i));
    let ghost chosen = sampled(arr@);
    let first: i128 = extract_i128(arr, 0);
    let mut least: i128 = first;
    let mut greatest: i128 = first;
    let mut at: usize = 0;
    let ghost mut k: int = 0;
    proof {
        assert(step >= 1 && step == sample_step(n as nat));
        lemma_every_len(n as int, step as int, 0);
        lemma_every_len(n as int, step as int, 1);
        assert(0 * step == 0) by (nonlinear_arith);
        assert(chosen[0] == rows[0 * step]);
        assert(chosen.take(1) =~= seq![chosen[0]]);
        k = 1;
    }
    while step < n - at
        invariant
            arr.wf(),
            n == arr@.cells.len(),
            n > 0,
            step >= 1,
            step == sample_step(n as nat),
            rows == Seq::new(arr@.cells.len(), |i: int| int_at(arr@, i)),
            chosen == sampled(arr@),
            chosen == every(rows, step as int),
            1 <= k <= chosen.len(),
            at == (k - 1) * step,
            at < n,
            least == least_of(chosen.take(k)),
            greatest == greatest_of(chosen.take(k)),
            i64::MIN <= least <= greatest <= u64::MAX,
        decreases n - at,
    {
        at = at + step;
        let v: i128 = extract_i128(arr, at);
        proof {
            assert(at == k * step) by (nonlinear_arith)
                requires
                    at == (k - 1) * step + step,
            ;
            lemma_every_len(n as int, step as int, k);
            assert(chosen[k] == rows[k * step]);
            assert(chosen.take(k + 1).drop_last() =~= chosen.take(k));
            assert(chosen.take(k + 1).last() == v);
            k = k + 1;
        }
        if v < least {
            least = v;
        }
        if v > greatest {
            greatest = v;
        }
    }
    proof {
        lemma_every_len(n as int, step as int, k);
        assert(k * step == (k - 1) * step + step) by (nonlinear_arith);
        assert(chosen.take(k) =~= chosen);
    }
    (greatest - least) as u128
}

fn bits_of(n: u128) -> (r: u32)
    requires
        n <= 0x1_8000_0000_0000_0001,
    ensures
        r == bit_len(n as nat),
{
    let mut rest: u128 = n;
    let mut bits: u32 = 0;
    proof {
        lemma_bit_len(n as nat, 65);
    }
    while rest > 0
        invariant
            bits + bit_len(rest as nat) == bit_len(n as nat),
            bit_len(n as nat) <= 65,
        decreases rest,
    {
        rest = rest / 2;
        bits = bits + 1;
    }
    bits
}

pub proof fn lemma_bit_len(n: nat, bits: nat)
    requires
        n < pow2(bits) || (bits == 65 && n <= 0x1_8000_0000_0000_0001),
    ensures
        bit_len(n) <= bits,
    decreases bits,
{
    lemma2_to64();
    if n > 0 && bits > 0 {
        lemma_pow2_unfold(bits);
        lemma_bit_len(n / 2, (bits - 1) as nat);
    }
}

/// How many bits the values of a column need.
pub fn compute_bit_width(arr: &Column) -> (r: usize)
    requires
        arr.wf(),
    ensures
        r == bits_needed(arr@),
        1 <= r <= 64,
{
    let n: usize = arr.len();
    if n == 0 {
        return 1;
    }
    let range: u128 = sample_spread(arr);
    if range == 0 {
        return 1;
    }
    let signed = match arr.dtype {
        ColumnType::Int8 | ColumnType::Int16 | ColumnType::Int32 | ColumnType::Int64 => true,
        _ => false,
    };
    let bits: u32 = bits_of(
        if signed {
            range + 1
        } else {
            range
        },
    );
    if bits > 64 {
        64
    } else {
        bits as usize
    }
}

/// Packs integers.
pub struct FastLanesEncoder;

impl FastLanesEncoder {
    /// In how many bits the values of a column of integers are packed; other
    /// columns are not.
    pub fn packing(arr: &Column) -> (r: Result<(u8, EncodingScheme), RockDuckError>)
        requires
            arr.wf(),
        ensures
            match r {
                Ok((bits, scheme)) => is_integer(arr.dtype) && bits == bits_needed(arr@) && scheme
                    == EncodingScheme::BitPacking,
                Err(e) => !is_integer(arr.dtype) && e == RockDuckError::TypeMismatch,
            },
    {
        match arr.dtype {
            ColumnType::Int8
            | ColumnType::Int16
            | ColumnType::Int32
            | ColumnType::Int64
            | ColumnType::UInt8
            | ColumnType::UInt16
            | ColumnType::UInt32
            | ColumnType::UInt64 => {
                let bits: usize = compute_bit_width(arr);
                Ok((bits as u8, EncodingScheme::BitPacking))
            },
            _ => Err(RockDuckError::TypeMismatch),
        }
    }
}

/// A number has its bits: it lies below two to their power, and not below two to
/// the power of one less.
pub proof fn law_bits_hold_the_number(n: nat)
    ensures
        n < pow2(bit_len(n)),
        n > 0 ==> pow2((bit_len(n) - 1) as nat) <= n,
    decreases n,
{
    lemma2_to64();
    if n > 0 {
        law_bits_hold_the_number(n / 2);
        lemma_pow2_unfold(bit_len(n));
        if n / 2 > 0 {
            lemma_pow2_unfold(bit_len(n / 2));
        }
    }
}

pub proof fn lemma_between(s: Seq<int>, i: int)
    requires
        0 <= i < s.len(),
    ensures
        least_of(s) <= s[i] <= greatest_of(s),
    decreases s.len(),
{
    if s.len() > 1 {
        if i < s.len() - 1 {
            lemma_between(s.drop_last(), i);
            assert(s.drop_last()[i] == s[i]);
        } else {
            lemma_extremes(s.drop_last());
        }
    }
}

/// Every value of a column that is looked at whole, less the least one, fits in
/// the bits that the column is packed in.
pub proof fn law_small_column_fits_its_bits(c: ColumnView, row: int)
    requires
        0 <= row < c.cells.len() <= SAMPLE_ROWS,
        bits_needed(c) < 64,
    ensures
        0 <= int_at(c, row) - least_of(sampled(c)) < pow2(bits_needed(c)),
{
    let s = sampled(c);
    let rows = Seq::new(c.cells.len(), |i: int| int_at(c, i));
    let n = rows.len() as int;
    assert((n + 1 - 1) / 1 == n) by (nonlinear_arith);
    assert(s[row] == rows[row * 1]);
    lemma_between(s, row);
    lemma2_to64();
    if spread(c) != 0 {
        let wanted = (if is_signed(c.dtype) {
            spread(c) + 1
        } else {
            spread(c)
        }) as nat;
        law_bits_hold_the_number(wanted);
    }
}

} // verus!
