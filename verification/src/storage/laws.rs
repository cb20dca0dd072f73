//! What the statistics, encodings and files of the storage engine are for.
use vstd::arithmetic::power2::pow2;
use vstd::prelude::*;
use crate::codec::bytes_before;
use crate::column::{is_nan, number_width, value_before, Batch, Column, ColumnType, ColumnView};
use crate::error::RockDuckError;
use crate::segment::encoding::{every, missing};
use crate::storage::fastlanes::{bits_needed, greatest_of, int_at, is_signed, least_of, lemma_between, lemma_bit_len, sampled, spread, EncodingMethod, EncodingScheme, SAMPLE_ROWS};
use crate::storage::granule::{compute_column_stats, compute_null_count, flushed, law_statistics_bound_the_values, nulls_in, waiting, writer_of, BufferView, ColumnStats};
use crate::storage::granule_bloom_filter::{bits_for, ones_in, word_ones};
use crate::storage::granule_zone_map_mmap::{after_values, overlaps, rows_of, GranuleView, GranuleZoneMapData, InlineBytes};
use crate::storage::parquet_format::{read_parquet_file, write_parquet_batch, ParquetWriterConfig};
use crate::storage::vortex::{dominant_at, dominant_scheme, locate_row, rows_before};
use crate::storage::vortex_alp_ext::{alp_is_worth_it, alp_sample, choose_integer_encoding, decimal_like, decimals_in, exponent_of, AdaptiveEncodingPicker};

verus! {

/// Statistics of a column of numbers, truth values or texts: its least and its greatest value
/// are known as soon as it has a value that can be compared, they are values of the column,
/// and that value lies between them.
pub proof fn law_statistics_are_the_extremes(column: &Column, r: ColumnStats, row: int)
    requires
        column.wf(),
        call_ensures(compute_column_stats, (column,), r),
        number_width(column@.dtype) is Some || column@.dtype == ColumnType::Boolean || column@.dtype
            == ColumnType::Utf8 || column@.dtype == ColumnType::LargeUtf8,
        0 <= row < column@.cells.len(),
        column@.cells[row] is Some,
        !is_nan(column@.dtype, column@.cells[row]->0),
    ensures
        r.min is Some && r.max is Some,
        column@.cells.contains(Some((r.min->0)@)),
        column@.cells.contains(Some((r.max->0)@)),
        !is_nan(column@.dtype, (r.min->0)@) && !is_nan(column@.dtype, (r.max->0)@),
        !value_before(column@.dtype, column@.cells[row]->0, (r.min->0)@),
        !value_before(column@.dtype, (r.max->0)@, column@.cells[row]->0),
{
    law_statistics_bound_the_values(column@, row);
}

proof fn lemma_nulls(c: ColumnView, n: nat)
    requires
        n <= c.cells.len(),
    ensures
        nulls_in(c, n) == missing(c.cells.take(n as int)),
        nulls_in(c, n) <= n,
    decreases n,
{
    if n > 0 {
        lemma_nulls(c, (n - 1) as nat);
        assert(c.cells.take(n as int).drop_last() =~= c.cells.take(n - 1));
        assert(c.cells.take(n as int).last() == c.cells[n - 1]);
    }
}

/// The count of missing values is the number of cells without a value.
pub proof fn law_nulls_are_the_missing_cells(column: &Column, n: u32)
    requires
        call_ensures(compute_null_count, (column,), n),
        column@.cells.len() <= u32::MAX,
    ensures
        n == missing(column@.cells),
{
    lemma_nulls(column@, column@.cells.len());
    assert(column@.cells.take(column@.cells.len() as int) =~= column@.cells);
}

/// When a granule with rows is closed, the next one has the next number and begins with the
/// row behind its last.
pub proof fn law_next_granule_begins_behind(b: BufferView, seg_id: Seq<char>)
    requires
        b.writers.dom().contains(seg_id),
        b.writers[seg_id].rows > 0,
        b.granule_id < u32::MAX,
        b.row_offset + b.writers[seg_id].rows <= u64::MAX,
    ensures
        flushed(b, seg_id).granule_id == b.granule_id + 1,
        flushed(b, seg_id).row_offset == b.row_offset + b.writers[seg_id].rows,
        writer_of(flushed(b, seg_id), seg_id).granule_id == b.granule_id + 1,
        writer_of(flushed(b, seg_id), seg_id).row_offset == b.row_offset + b.writers[seg_id].rows,
        writer_of(flushed(b, seg_id), seg_id).rows == 0,
        waiting(b, seg_id) == b.writers[seg_id].rows,
{
}

/// A granule is read unless its greatest value lies below the range or its least value above
/// it; an empty bound tells nothing, and a granule that is not known is read.
pub proof fn law_granules_outside_a_range_are_skipped(
    map: &GranuleZoneMapData,
    at: usize,
    lo: &[u8],
    hi: &[u8],
    r: bool,
)
    requires
        map.wf(),
        call_ensures(GranuleZoneMapData::granule_may_overlap, (map, at, lo, hi), r),
    ensures
        at >= map@.granules.len() ==> r,
        at < map@.granules.len() ==> {
            let g = map@.granules[at as int];
            let below = g.max is Some && (g.max->0).len() > 0 && bytes_before(g.max->0, lo@);
            let above = g.min is Some && (g.min->0).len() > 0 && bytes_before(hi@, g.min->0);
            r == (!below && !above)
        },
{
}

/// A zone map is read when one of its granules is.
pub proof fn law_zone_map_is_read_for_a_granule(
    map: &GranuleZoneMapData,
    at: usize,
    lo: &[u8],
    hi: &[u8],
    whole: bool,
    one: bool,
)
    requires
        map.wf(),
        call_ensures(GranuleZoneMapData::may_overlap, (map, lo, hi), whole),
        call_ensures(GranuleZoneMapData::granule_may_overlap, (map, at, lo, hi), one),
    ensures
        at < map@.granules.len() && one ==> whole,
        map@.granules.len() == 0 ==> !whole,
        map@.granules.len() == 1 && at == 0 ==> whole == one,
        whole ==> exists|i: int|
            #![trigger map@.granules[i]]
            0 <= i < map@.granules.len() && overlaps(map@.granules[i], lo@, hi@),
{
    let list = map@.granules;
    if at < list.len() && one {
        assert(overlaps(list[at as int], lo@, hi@));
    }
}

/// Inline bytes are the bytes themselves, or the first 32 of longer ones.
pub proof fn law_inline_bytes_are_a_prefix(bytes: &[u8], r: InlineBytes, i: int)
    requires
        call_ensures(InlineBytes::from_slice, (bytes,), r),
    ensures
        bytes@.len() <= 32 ==> r@ == bytes@,
        bytes@.len() > 32 ==> r@.len() == 32 && (0 <= i < 32 ==> r@[i] == bytes@[i]),
{
}

/// The bounds of a granule that was given short values are values that it was given, and
/// none that it was given lies outside of them.
pub proof fn law_bounds_are_values(g: GranuleView, values: Seq<Seq<u8>>, i: int)
    requires
        g.min is None,
        g.max is None,
        0 <= i < values.len(),
        forall|k: int| #![trigger values[k]] 0 <= k < values.len() ==> values[k].len() <= 32,
    ensures
        after_values(g, values).min matches Some(m) && values.contains(m) && !bytes_before(values[i], m),
        after_values(g, values).max matches Some(m) && values.contains(m) && !bytes_before(m, values[i]),
    decreases values.len(),
{
    let front = values.drop_last();
    let n = values.len() - 1;
    let last = values[n];
    crate::codec::lemma_bytes_irreflexive(last);
    assert forall|k: int| #![trigger front[k]] 0 <= k < front.len() implies front[k].len() <= 32 by {
        assert(front[k] == values[k]);
    }
    let was = after_values(g, front);
    let now = after_values(g, values);
    assert(values[n] == last);
    if n > 0 {
        let j = if i < n {
            i
        } else {
            0
        };
        law_bounds_are_values(g, front, j);
        let a = was.min->0;
        let b = was.max->0;
        let p = front.index_of(a);
        let q = front.index_of(b);
        assert(values[p] == a);
        assert(values[q] == b);
        assert(front[j] == values[j]);
        crate::codec::lemma_bytes_total(last, a);
        crate::codec::lemma_bytes_total(last, b);
        if bytes_before(last, a) {
            if bytes_before(values[j], last) {
                crate::codec::lemma_bytes_transitive(values[j], last, a);
            }
        }
        if bytes_before(b, last) {
            if bytes_before(last, values[j]) {
                crate::codec::lemma_bytes_transitive(b, last, values[j]);
            }
        }
    } else {
        assert(front.len() == 0);
        assert(was == g);
    }
}

/// The rows of a zone map are those of its granules together.
pub proof fn law_rows_of_granules_add_up(list: Seq<GranuleView>, g: GranuleView)
    ensures
        rows_of(list.push(g)) == rows_of(list) + g.row_count,
        rows_of(Seq::empty()) == 0,
{
    assert(list.push(g).drop_last() =~= list);
}

proof fn lemma_extremes_between(s: Seq<int>, lo: int, hi: int)
    requires
        s.len() > 0,
        forall|i: int| #![trigger s[i]] 0 <= i < s.len() ==> lo <= s[i] <= hi,
    ensures
        lo <= least_of(s),
        greatest_of(s) <= hi,
    decreases s.len(),
{
    assert(s.last() == s[s.len() - 1]);
    if s.len() > 1 {
        let front = s.drop_last();
        assert forall|i: int| #![trigger front[i]] 0 <= i < front.len() implies lo <= front[i] <= hi by {
            assert(front[i] == s[i]);
        }
        lemma_extremes_between(front, lo, hi);
    }
}

/// A column that is looked at whole is packed in no more bits than its values need: if they
/// lie so close that the distance of any two, and one more, has `k` bits, it takes at most
/// `k`.
pub proof fn law_no_bits_are_wasted(c: ColumnView, lo: int, hi: int, k: nat)
    requires
        0 < c.cells.len() <= SAMPLE_ROWS,
        forall|row: int| #![trigger c.cells[row]] 0 <= row < c.cells.len() ==> lo <= int_at(c, row) <= hi,
        hi - lo + 1 < pow2(k),
        1 <= k <= 64,
    ensures
        bits_needed(c) <= k,
{
    let s = sampled(c);
    let rows = Seq::new(c.cells.len(), |i: int| int_at(c, i));
    let n = rows.len() as int;
    assert((n + 1 - 1) / 1 == n) by (nonlinear_arith);
    assert forall|i: int| #![trigger s[i]] 0 <= i < s.len() implies lo <= s[i] <= hi by {
        assert(s[i] == rows[i * 1]);
        let x = c.cells[i];
    }
    lemma_extremes_between(s, lo, hi);
    lemma_between(s, 0);
    if spread(c) != 0 {
        let wanted = (if is_signed(c.dtype) {
            spread(c) + 1
        } else {
            spread(c)
        }) as nat;
        lemma_bit_len(wanted, k);
    }
}

/// Whole numbers that need at most 32 bits are packed in them, others are stored as
/// differences.
pub proof fn law_narrow_numbers_are_packed(column: &Column, r: EncodingMethod)
    requires
        column.wf(),
        call_ensures(choose_integer_encoding, (column,), r),
    ensures
        bits_needed(column@) <= 32 ==> (r matches EncodingMethod::BitPacking(bits) && bits == bits_needed(
            column@,
        )),
        bits_needed(column@) > 32 ==> r is Delta,
{
}

/// Columns of floating-point numbers are packed as decimals where that is worth it, whole
/// numbers by their bits or their differences, and all others in blocks.
pub proof fn law_encodings_follow_the_values(
    picker: &AdaptiveEncodingPicker,
    column: &Column,
    r: EncodingScheme,
    ratio: u32,
)
    requires
        column.wf(),
        call_ensures(AdaptiveEncodingPicker::pick, (picker, column), r),
        call_ensures(alp_is_worth_it, (column,), ratio),
    ensures
        match column@.dtype {
            ColumnType::Float32 | ColumnType::Float64 => r == if ratio > 1 {
                EncodingScheme::Alp
            } else {
                EncodingScheme::BtrBlocks
            },
            ColumnType::Int8 | ColumnType::Int16 | ColumnType::Int32 | ColumnType::Int64
            | ColumnType::UInt8 | ColumnType::UInt16 | ColumnType::UInt32 | ColumnType::UInt64 => r == if bits_needed(
                column@,
            ) <= 32 {
                EncodingScheme::BitPacking
            } else {
                EncodingScheme::Delta
            },
            _ => r == EncodingScheme::BtrBlocks,
        },
{
}

/// The exponent of a pattern of 64 bits: a number of some fraction with exponent `k` has it,
/// whatever its sign.
pub proof fn law_exponents_are_read(k: int, fraction: nat, negative: bool)
    requires
        -1022 <= k <= 1023,
        fraction < 0x10_0000_0000_0000,
    ensures
        exponent_of(
            ((k + 1023) * 0x10_0000_0000_0000 + fraction + if negative {
                0x8000_0000_0000_0000
            } else {
                0int
            }) as nat,
        ) == k,
        exponent_of(fraction) == i32::MAX,
        exponent_of(0x7ff0_0000_0000_0000 + fraction) == i32::MAX,
{
    let bits = (k + 1023) * 0x10_0000_0000_0000 + fraction + if negative {
        0x8000_0000_0000_0000
    } else {
        0int
    };
    let raw = (k + 1023) + if negative {
        0x800int
    } else {
        0
    };
    assert(bits == raw * 0x10_0000_0000_0000 + fraction);
    assert(bits / 0x10_0000_0000_0000 == raw);
    assert(raw % 0x800 == k + 1023);
}

/// A number counts as a decimal when its exponent lies between -6 and 6, in both widths.
pub proof fn law_decimals_have_small_exponents(bytes: Seq<u8>, k: int, fraction: nat)
    ensures
        crate::codec::le_value(bytes) == (k + 1023) * 0x10_0000_0000_0000 + fraction && -1022 <= k <= 1023
            && fraction < 0x10_0000_0000_0000 ==> decimal_like(ColumnType::Float64, Some(bytes)) == (-6 <= k
            <= 6),
        crate::codec::le_value(bytes) == (k + 127) * 0x80_0000 + fraction && -126 <= k <= 127 && fraction
            < 0x80_0000 ==> decimal_like(ColumnType::Float32, Some(bytes)) == (-6 <= k <= 6),
        !decimal_like(ColumnType::Float32, None),
        !decimal_like(ColumnType::Float64, None),
{
    if -1022 <= k <= 1023 && fraction < 0x10_0000_0000_0000 {
        law_exponents_are_read(k, fraction, false);
    }
    if crate::codec::le_value(bytes) == (k + 127) * 0x80_0000 + fraction && -126 <= k <= 127 && fraction
        < 0x80_0000 {
        let v = crate::codec::le_value(bytes) as int;
        assert(v / 0x80_0000 == k + 127);
        assert((k + 127) % 0x100 == k + 127);
    }
}

proof fn lemma_decimals(dtype: ColumnType, cells: Seq<Option<Seq<u8>>>)
    ensures
        decimals_in(dtype, cells) <= cells.len(),
        (forall|i: int| #![trigger cells[i]] 0 <= i < cells.len() ==> decimal_like(dtype, cells[i]))
            ==> decimals_in(dtype, cells) == cells.len(),
        (forall|i: int| #![trigger cells[i]] 0 <= i < cells.len() ==> !decimal_like(dtype, cells[i]))
            ==> decimals_in(dtype, cells) == 0,
    decreases cells.len(),
{
    if cells.len() > 0 {
        let front = cells.drop_last();
        assert forall|i: int| #![trigger front[i]] 0 <= i < front.len() implies front[i] == cells[i] by {}
        lemma_decimals(dtype, front);
        assert(cells.last() == cells[cells.len() - 1]);
    }
}

/// A large column of decimals is expected to shrink to a quarter, one without decimals or of
/// less than a thousand rows not at all.
pub proof fn law_decimals_shrink(column: &Column, r: u32)
    requires
        column.wf(),
        call_ensures(alp_is_worth_it, (column,), r),
    ensures
        column@.dtype != ColumnType::Float32 && column@.dtype != ColumnType::Float64 ==> r == 1,
        column@.cells.len() < 1000 ==> r == 1,
        (column@.dtype == ColumnType::Float32 || column@.dtype == ColumnType::Float64) && column@.cells.len()
            >= 1000 && (forall|i: int|
            #![trigger column@.cells[i]]
            0 <= i < column@.cells.len() ==> decimal_like(column@.dtype, column@.cells[i])) ==> r == 4,
        (forall|i: int|
            #![trigger column@.cells[i]]
            0 <= i < column@.cells.len() ==> !decimal_like(column@.dtype, column@.cells[i])) ==> r == 1,
{
    let c = column@;
    let total = c.cells.len();
    if (c.dtype == ColumnType::Float32 || c.dtype == ColumnType::Float64) && total >= 1000 {
        let sample = alp_sample(total);
        let step = (total / sample) as int;
        assert(step >= 1) by (nonlinear_arith)
            requires
                sample <= total,
                sample > 0,
                step == total / sample,
        ;
        let chosen = every(c.cells, step);
        assert(chosen.len() >= 1) by (nonlinear_arith)
            requires
                chosen.len() == (total + step - 1) / step,
                total >= 1,
                step >= 1,
        ;
        assert forall|i: int| #![trigger chosen[i]] 0 <= i < chosen.len() implies 0 <= i * step < total
            && chosen[i] == c.cells[i * step] by {
            assert(0 <= i * step < total) by (nonlinear_arith)
                requires
                    0 <= i < (total + step - 1) / step,
                    step >= 1,
            ;
        }
        lemma_decimals(c.dtype, chosen);
    }
}

/// The scheme of most columns: none has a higher count, and of those with the same count it
/// is the last.
pub proof fn law_dominant_scheme_has_the_highest_count(
    schemes: &Vec<(EncodingScheme, u32)>,
    r: EncodingScheme,
    i: int,
)
    requires
        call_ensures(dominant_scheme, (schemes,), r),
        0 <= i < schemes@.len(),
    ensures
        exists|k: int|
            #![trigger schemes@[k]]
            0 <= k < schemes@.len() && schemes@[k].0 == r && schemes@[i].1 <= schemes@[k].1 && (i > k
                ==> schemes@[i].1 < schemes@[k].1),
        schemes@.len() > 0,
{
    lemma_dominant(schemes@, i);
    let k = dominant_at(schemes@);
    assert(schemes@[k].0 == r);
}

proof fn lemma_dominant(schemes: Seq<(EncodingScheme, u32)>, i: int)
    requires
        0 <= i < schemes.len(),
    ensures
        0 <= dominant_at(schemes) < schemes.len(),
        schemes[i].1 <= schemes[dominant_at(schemes)].1,
        i > dominant_at(schemes) ==> schemes[i].1 < schemes[dominant_at(schemes)].1,
    decreases schemes.len(),
{
    if schemes.len() > 1 {
        let front = schemes.drop_last();
        let n = schemes.len() - 1;
        let j = if i < n {
            i
        } else {
            0
        };
        lemma_dominant(front, j);
        assert(front[j] == schemes[j]);
        let before = dominant_at(front);
        assert(front[before] == schemes[before]);
    }
}

/// Every row of some batches is found, in the batch in which it lies, behind the rows of the
/// batches before it; a row behind the last is not found.
pub proof fn law_rows_are_found_in_their_batches(rows: &[u64], total: u64, row: u64, r: Option<(usize, u64)>)
    requires
        call_ensures(locate_row, (rows, total, row), r),
        total == rows_before(rows@, rows@.len() as int),
    ensures
        r is Some == (row < total),
        r matches Some((batch, place)) ==> batch < rows@.len() && place < rows@[batch as int] && row == place
            + rows_before(rows@, batch as int),
{
}

/// The rows before a batch are those of the batches before it together.
pub proof fn law_rows_before_add_up(rows: Seq<u64>, n: int)
    requires
        0 <= n < rows.len(),
    ensures
        rows_before(rows, n + 1) == rows_before(rows, n) + rows[n],
        rows_before(rows, 0) == 0,
{
}

/// A batch that was written to a file for exchange is read back.
pub proof fn law_written_batch_is_read_back(
    batch: &Batch,
    config: &ParquetWriterConfig,
    written: Vec<u8>,
    bytes: &[u8],
    r: Result<Vec<Batch>, RockDuckError>,
)
    requires
        crate::storage::parquet_format::is_batch(batch@),
        call_ensures(write_parquet_batch, (batch, config), Ok(written)),
        bytes@ == written@,
        call_ensures(read_parquet_file, (bytes,), r),
    ensures
        r is Ok,
        (r->Ok_0)@.len() == 1,
        (r->Ok_0)@[0]@ == batch@,
{
    assert(r is Ok);
    let list = r->Ok_0;
    let views = crate::storage::parquet_format::batch_views(list@);
    assert(views == seq![batch@]);
    assert(views.len() == list@.len());
    assert(views[0] == list@[0]@);
}

/// The ones of a word are those of its half, and one more where it is odd; those of several
/// words add up.
pub proof fn law_ones_of_words(w: nat, words: Seq<u64>, last: u64)
    ensures
        word_ones(0) == 0,
        word_ones(2 * w) == word_ones(w),
        word_ones(2 * w + 1) == word_ones(w) + 1,
        ones_in(words.push(last)) == ones_in(words) + word_ones(last as nat),
        ones_in(Seq::empty()) == 0,
{
    assert((2 * w) / 2 == w && (2 * w) % 2 == 0);
    assert((2 * w + 1) / 2 == w && (2 * w + 1) % 2 == 1);
    assert(words.push(last).drop_last() =~= words);
    reveal_with_fuel(word_ones, 2);
}

/// A filter has ten bits for each expected key, and at least 64.
pub proof fn law_filters_have_ten_bits_to_a_key(entries: nat)
    ensures
        bits_for(entries) >= 64,
        bits_for(entries) >= 10 * entries,
        entries >= 7 ==> bits_for(entries) == 10 * entries,
        entries < 7 ==> bits_for(entries) == 64,
{
}

} // verus!
