//! Which encoding suits a column: floating-point numbers that are near one take
//! an encoding of decimals, integers one of packed bits or differences.
use vstd::prelude::*;
use crate::codec::{get_le, le_value, lemma_le_value_round_trip, lemma_pow256};
use crate::column::{fits, Column, ColumnType, ColumnView};
use crate::ipc::cell_view;
use crate::segment::encoding::{every, lemma_every_len};
use crate::storage::fastlanes::{bits_needed, compute_bit_width, is_integer, EncodingMethod, EncodingScheme};

verus! {

/// The exponent of a 64-bit floating-point number without its bias; of zero, of a
/// number too small for the usual form, of infinity and of what is no number it
/// is the greatest integer.
pub open spec fn exponent_of(bits: nat) -> int {
    let raw = (bits / 0x10_0000_0000_0000) % 0x800;
    if raw == 0x7ff || raw == 0 {
        i32::MAX as int
    } else {
        raw - 1023
    }
}

/// Whether a number lies between about a hundredth and a hundred: its exponent is
/// between minus six and six.
pub open spec fn decimal_like(dtype: ColumnType, cell: Option<Seq<u8>>) -> bool {
    match cell {
        Some(bytes) => if dtype == ColumnType::Float64 {
            -6 <= exponent_of(le_value(bytes)) <= 6
        } else {
            121 <= (le_value(bytes) / 0x80_0000) % 0x100 <= 133
        },
        None => false,
    }
}

/// How many values of a column of numbers are looked at, at least: a twentieth of
/// them, but between a thousand and ten thousand.
pub open spec fn alp_sample(total: nat) -> nat {
    if total / 20 < 1000 {
        1000
    } else if total / 20 > 10000 {
        10000
    } else {
        total / 20
    }
}

/// How many of some cells hold numbers near one.
pub open spec fn decimals_in(dtype: ColumnType, cells: Seq<Option<Seq<u8>>>) -> nat
    decreases cells.len(),
{
    if cells.len() == 0 {
        0
    } else {
        decimals_in(dtype, cells.drop_last()) + if decimal_like(dtype, cells.last()) {
            1nat
        } else {
            0nat
        }
    }
}

/// How much smaller a column is expected to become: by four if more than six in
/// ten of the numbers looked at are near one, by two if more than three in ten.
/// Fewer than a thousand rows are not looked at.
pub open spec fn expected_ratio(c: ColumnView) -> nat {
    let total = c.cells.len();
    if (c.dtype != ColumnType::Float32 && c.dtype != ColumnType::Float64) || total < 1000 {
        1
    } else {
        let chosen = every(c.cells, (total / alp_sample(total)) as int);
        let near = decimals_in(c.dtype, chosen);
        if 10 * near > 6 * chosen.len() {
            4
        } else if 10 * near > 3 * chosen.len() {
            2
        } else {
            1
        }
    }
}

/// The exponent of a 64-bit floating-point number without its bias.
pub fn ieee754_exponent(bits: u64) -> (r: i32)
    ensures
        r == exponent_of(bits as nat),
{
    let raw: u64 = (bits / 0x10_0000_0000_0000) % 0x800;
    if raw == 0x7ff || raw == 0 {
        i32::MAX
    } else {
        raw as i32 - 1023
    }
}

fn is_decimal_like(c: &Column, row: usize) -> (r: bool)
    requires
        c.wf(),
        c.dtype == ColumnType::Float32 || c.dtype == ColumnType::Float64,
        row < c@.cells.len(),
    ensures
        r == decimal_like(c.dtype, c@.cells[row as int]),
{
    assert(c@.cells[row as int] == cell_view(c.cells@[row as int]));
    match &c.cells[row] {
        Some(b) => {
            proof {
                assert(fits(c.dtype, b@));
                assert(b@.subrange(0, b@.len() as int) =~= b@);
                lemma_le_value_round_trip(b@);
                lemma_pow256();
            }
            match c.dtype {
                ColumnType::Float64 => {
                    let exponent: i32 = ieee754_exponent(get_le(b.as_slice(), 0, 8));
                    exponent >= -6 && exponent <= 6
                },
                _ => {
                    let raw: u64 = (get_le(b.as_slice(), 0, 4) / 0x80_0000) % 0x100;
                    raw >= 121 && raw <= 133
                },
            }
        },
        None => false,
    }
}

/// How many values are looked at, and how many of them are near one.
fn sample_decimals(arr: &Column, step: usize) -> (r: (u64, u64))
    requires
        arr.wf(),
        arr.dtype == ColumnType::Float32 || arr.dtype == ColumnType::Float64,
        arr@.cells.len() > 0,
        step >= 1,
    ensures
        r.0 == every(arr@.cells, step as int).len(),
        r.1 == decimals_in(arr.dtype, every(arr@.cells, step as int)),
        r.1 <= r.0 <= arr@.cells.len(),
{
    let n: usize = arr.len();
    let ghost chosen = every(arr@.cells, step as int);
    let mut count: u64 = 0;
    let mut near: u64 = 0;
    let mut at: usize = 0;
    let mut more = true;
    proof {
        lemma_every_len(n as int, step as int, 0);
        assert(0 * step == 0) by (nonlinear_arith);
        assert(chosen.take(0) =~= Seq::<Option<Seq<u8>>>::empty());
    }
    while more
        invariant
            arr.wf(),
            arr.dtype == ColumnType::Float32 || arr.dtype == ColumnType::Float64,
            n == arr@.cells.len(),
            n > 0,
            step >= 1,
            chosen == every(arr@.cells, step as int),
            count <= chosen.len(),
            more == (count < chosen.len()),
            more ==> at == count * step && at < n,
            near == decimals_in(arr.dtype, chosen.take(count as int)),
            near <= count <= n,
            count <= at + 1,
            !more ==> at < n,
            more ==> count <= at,
        decreases chosen.len() - count,
    {
        proof {
            assert(chosen[count as int] == arr@.cells[count * step]);
            assert(chosen.take(count + 1).drop_last() =~= chosen.take(count as int));
            assert((count + 1) * step == count * step + step) by (nonlinear_arith);
            lemma_every_len(n as int, step as int, count + 1);
        }
        if is_decimal_like(arr, at) {
            near = near + 1;
        }
        count = count + 1;
        if step < n - at {
            at = at + step;
        } else {
            more = false;
        }
    }
    assert(chosen.take(count as int) =~= chosen);
    (count, near)
}

/// How much smaller a column is expected to become as decimals: one means that
/// it is not worth it.
pub fn alp_is_worth_it(arr: &Column) -> (r: u32)
    requires
        arr.wf(),
    ensures
        r == expected_ratio(arr@),
{
    match arr.dtype {
        ColumnType::Float32 | ColumnType::Float64 => {},
        _ => {
            return 1;
        },
    }
    let total: usize = arr.len();
    if total < 1000 {
        return 1;
    }
    let sample_size: usize = if total / 20 < 1000 {
        1000
    } else if total / 20 > 10000 {
        10000
    } else {
        total / 20
    };
    let step: usize = total / sample_size;
    assert(step >= 1) by (nonlinear_arith)
        requires
            step == total / sample_size,
            0 < sample_size <= total,
    ;
    let (count, near) = sample_decimals(arr, step);
    if 10 * (near as u128) > 6 * (count as u128) {
        4
    } else if 10 * (near as u128) > 3 * (count as u128) {
        2
    } else {
        1
    }
}

/// How the integers of a column are best encoded: packed if they need no more
/// than 32 bits, otherwise as differences.
pub open spec fn integer_method(c: ColumnView) -> EncodingMethod {
    if bits_needed(c) <= 32 {
        EncodingMethod::BitPacking(bits_needed(c) as u8)
    } else {
        EncodingMethod::Delta
    }
}

/// How the integers of a column are best encoded.
pub fn choose_integer_encoding(arr: &Column) -> (r: EncodingMethod)
    requires
        arr.wf(),
    ensures
        r == integer_method(arr@),
{
    let bits: usize = compute_bit_width(arr);
    if bits <= 32 {
        EncodingMethod::BitPacking(bits as u8)
    } else {
        EncodingMethod::Delta
    }
}

/// Settings for the encodings of a table.
#[derive(Debug, Clone, Copy)]
pub struct TableEncodingConfig {}

/// Picks the encoding of a column.
#[derive(Debug, Clone, Copy)]
pub struct AdaptiveEncodingPicker {
    pub config: TableEncodingConfig,
}

/// The encoding of a column: of numbers as decimals if that is worth it, of
/// integers by their bits, of anything else the general one.
pub open spec fn picked(c: ColumnView) -> EncodingScheme {
    if c.dtype == ColumnType::Float32 || c.dtype == ColumnType::Float64 {
        if expected_ratio(c) > 1 {
            EncodingScheme::Alp
        } else {
            EncodingScheme::BtrBlocks
        }
    } else if is_integer(c.dtype) {
        match integer_method(c) {
            EncodingMethod::BitPacking(_) => EncodingScheme::BitPacking,
            EncodingMethod::Delta => EncodingScheme::Delta,
            EncodingMethod::FoR => EncodingScheme::FOR,
        }
    } else {
        EncodingScheme::BtrBlocks
    }
}

/// The encoding that is used where one is asked for.
pub open spec fn used_scheme(asked: EncodingScheme) -> EncodingScheme {
    if asked == EncodingScheme::AlpRD {
        EncodingScheme::Alp
    } else {
        asked
    }
}

impl AdaptiveEncodingPicker {
    pub fn new(config: TableEncodingConfig) -> (r: Self)
        ensures
            r == (AdaptiveEncodingPicker { config }),
    {
        AdaptiveEncodingPicker { config }
    }

    /// The encoding of a column.
    pub fn pick(&self, arr: &Column) -> (r: EncodingScheme)
        requires
            arr.wf(),
        ensures
            r == picked(arr@),
    {
        match arr.dtype {
            ColumnType::Float32 | ColumnType::Float64 => if alp_is_worth_it(arr) > 1 {
                EncodingScheme::Alp
            } else {
                EncodingScheme::BtrBlocks
            },
            ColumnType::Int8
            | ColumnType::Int16
            | ColumnType::Int32
            | ColumnType::Int64
            | ColumnType::UInt8
            | ColumnType::UInt16
            | ColumnType::UInt32
            | ColumnType::UInt64 => match choose_integer_encoding(arr) {
                EncodingMethod::BitPacking(_) => EncodingScheme::BitPacking,
                EncodingMethod::Delta => EncodingScheme::Delta,
                EncodingMethod::FoR => EncodingScheme::FOR,
            },
            _ => EncodingScheme::BtrBlocks,
        }
    }

    /// The encoding that is used where one is asked for.
    pub fn with_scheme(&self, scheme: EncodingScheme) -> (r: EncodingScheme)
        ensures
            r == used_scheme(scheme),
    {
        match scheme {
            EncodingScheme::Alp | EncodingScheme::AlpRD => EncodingScheme::Alp,
            EncodingScheme::BitPacking => EncodingScheme::BitPacking,
            EncodingScheme::Delta => EncodingScheme::Delta,
            EncodingScheme::FOR => EncodingScheme::FOR,
            EncodingScheme::BtrBlocks => EncodingScheme::BtrBlocks,
        }
    }
}

/// Packing is picked exactly for integers that need no more than 32 bits.
pub proof fn law_packed_integers_are_narrow(c: ColumnView)
    ensures
        picked(c) == EncodingScheme::BitPacking <==> is_integer(c.dtype) && bits_needed(c) <= 32,
{
}

/// Decimals are picked only for columns of floating-point numbers.
pub proof fn law_decimals_are_floats(c: ColumnView)
    requires
        picked(c) == EncodingScheme::Alp,
    ensures
        c.dtype == ColumnType::Float32 || c.dtype == ColumnType::Float64,
        c.cells.len() >= 1000,
{
}

} // verus!
