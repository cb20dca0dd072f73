//! What the choice of encodings, the sizes of updates and the choice of projections are for.
use vstd::prelude::*;
use vstd::utf8::encode_utf8;
use crate::codec::{le_bytes, le_value, lemma_le_len, lemma_le_round_trip, pow256};
use crate::column::{kind_of, value_before, whole_number, Column, ColumnType};
use crate::ratio::Ratio;
use crate::segment::adaptive_del_mask::{merged_form, Representation};
use crate::segment::encoding::{bytes_sampled, bytes_to_u64, encoding_for_dtype, every, lemma_every_len, lemma_value_transitive, missing, present, sample_step, value_keys, AdaptiveEncoder, EncodingAnalysis, EncodingRecommendation};
use crate::segment::meta::{granule_deletes, granule_rows, ColumnDef, DataType, EncodingType, GranuleMeta};
use crate::segment::projection::{can_projection_prune, extract_column_from_predicate, ProjectionMeta};
use crate::segment::sparse_index::{digits, pk_to_bytes};
use crate::segment::upd_mask::{lemma_updates_insert, updates_size, Updates};
use crate::text::{decimal, digit};

verus! {

/// Whole numbers are stored by their differences, floating-point numbers by theirs, truth
/// values by their runs, and all else as it is.
pub proof fn law_type_has_its_encoding(dt: &DataType, r: EncodingType)
    requires
        call_ensures(encoding_for_dtype, (dt,), r),
    ensures
        r == EncodingType::Rle <==> *dt == DataType::Bool,
        r == EncodingType::Gorilla <==> *dt == DataType::Float32 || *dt == DataType::Float64,
        r == EncodingType::Raw <==> *dt == DataType::Utf8 || *dt == DataType::LargeUtf8 || *dt == DataType::Binary
            || *dt == DataType::LargeBinary || *dt == DataType::Date32 || *dt == DataType::Date64 || *dt
            == DataType::TimestampMicros || *dt == DataType::TimestampMillis,
        r == EncodingType::Delta || r == EncodingType::Rle || r == EncodingType::Gorilla || r == EncodingType::Raw,
{
}

/// A dictionary is recommended for few different values, differences for sorted values and for
/// whole numbers that lie close together, and an encoding of floating-point numbers for those
/// alone; the surer the choice, the higher the confidence.
pub proof fn law_recommendation_follows_the_values(
    e: &AdaptiveEncoder,
    a: &EncodingAnalysis,
    r: EncodingRecommendation,
)
    requires
        call_ensures(AdaptiveEncoder::recommend, (e, a), r),
    ensures
        r.encoding == EncodingType::Dict <==> (a.cardinality matches Some(n) && n < e.low_cardinality_threshold),
        r.encoding == EncodingType::Alp ==> (a.dtype == DataType::Float32 || a.dtype == DataType::Float64)
            && 2 * a.compression_ratio_hint.num > a.compression_ratio_hint.den,
        r.encoding == EncodingType::Gorilla ==> (a.dtype == DataType::Float32 || a.dtype == DataType::Float64)
            && 2 * a.compression_ratio_hint.num <= a.compression_ratio_hint.den,
        r.encoding != EncodingType::Dict && a.is_sorted ==> r.encoding == EncodingType::Delta,
        r.encoding != EncodingType::Dict && !a.is_sorted && (a.dtype == DataType::Float32 || a.dtype
            == DataType::Float64) ==> r.encoding == EncodingType::Alp || r.encoding == EncodingType::Gorilla,
        r.encoding == EncodingType::Delta && !a.is_sorted ==> a.min_value is Some && a.max_value is Some,
        r.encoding == EncodingType::Delta || r.encoding == EncodingType::Dict || r.encoding == EncodingType::Alp
            || r.encoding == EncodingType::Gorilla || r.encoding == EncodingType::Raw,
        r.confidence == (Ratio {
            num: if r.encoding == EncodingType::Dict {
                90
            } else if a.is_sorted {
                85
            } else if r.encoding == EncodingType::Delta {
                80
            } else if r.encoding == EncodingType::Gorilla {
                75
            } else if r.encoding == EncodingType::Alp {
                70
            } else {
                50
            },
            den: 100,
        }),
{
}

/// Unsorted whole numbers of up to eight bytes, with a known number of different values that is
/// not low, are stored by their differences exactly when there are fewer than twice as many
/// places between the least and the greatest.
pub proof fn law_close_numbers_are_stored_by_differences(
    e: &AdaptiveEncoder,
    a: &EncodingAnalysis,
    r: EncodingRecommendation,
    least: Vec<u8>,
    greatest: Vec<u8>,
    n: u64,
)
    requires
        call_ensures(AdaptiveEncoder::recommend, (e, a), r),
        a.dtype == DataType::Int8 || a.dtype == DataType::Int16 || a.dtype == DataType::Int32 || a.dtype
            == DataType::Int64 || a.dtype == DataType::UInt8 || a.dtype == DataType::UInt16 || a.dtype
            == DataType::UInt32 || a.dtype == DataType::UInt64,
        !a.is_sorted,
        a.min_value == Some(least),
        a.max_value == Some(greatest),
        least@.len() == greatest@.len() <= 8,
        a.cardinality == Some(n),
        e.low_cardinality_threshold <= n <= u64::MAX / 2,
        0 <= le_value(greatest@) - le_value(least@) <= u64::MAX,
    ensures
        r.encoding == if le_value(greatest@) - le_value(least@) < 2 * n {
            EncodingType::Delta
        } else {
            EncodingType::Raw
        },
{
}

/// A sample of a column has steps of equal length: one where all rows are looked at, else the
/// longest with which enough rows are.
pub proof fn law_sample_steps_are_even(e: &AdaptiveEncoder, total: usize, r: usize)
    requires
        total > 0,
        e.sample_size > 0,
        call_ensures(AdaptiveEncoder::step, (e, total), r),
    ensures
        r >= 1,
        total <= e.sample_size ==> r == 1,
        r > 1 ==> r * e.sample_size <= total,
        total < (r + 1) * e.sample_size,
{
    let t = total as int;
    let s = e.sample_size as int;
    if s < t {
        let q = t / s;
        assert(1 <= q && q * s <= t && t < (q + 1) * s) by (nonlinear_arith)
            requires
                q == t / s,
                0 < s < t,
        ;
    } else {
        assert(t / t == 1) by (nonlinear_arith)
            requires
                t > 0,
        ;
    }
}

/// Present values without a missing one are the values themselves.
proof fn lemma_all_present(cells: Seq<Option<Seq<u8>>>)
    requires
        forall|i: int| #![trigger cells[i]] 0 <= i < cells.len() ==> cells[i] is Some,
    ensures
        present(cells).len() == cells.len(),
        missing(cells) == 0,
        forall|i: int| #![trigger present(cells)[i]] 0 <= i < cells.len() ==> present(cells)[i] == cells[i]->0,
    decreases cells.len(),
{
    if cells.len() > 0 {
        let front = cells.drop_last();
        assert forall|i: int| #![trigger front[i]] 0 <= i < front.len() implies front[i] is Some by {
            assert(front[i] == cells[i]);
        }
        lemma_all_present(front);
        assert forall|i: int| #![trigger present(cells)[i]] 0 <= i < cells.len() implies present(cells)[i]
            == cells[i]->0 by {
            if i < front.len() {
                assert(present(cells)[i] == present(front)[i]);
            }
        }
    }
}

proof fn lemma_step_one(cells: Seq<Option<Seq<u8>>>)
    ensures
        every(cells, 1) == cells,
{
    assert(every(cells, 1) =~= cells);
}

/// Rising neighbours rise over any distance.
proof fn lemma_rising(dtype: ColumnType, values: Seq<Seq<u8>>, i: int, j: int)
    requires
        0 <= i < j < values.len(),
        forall|k: int| #![trigger values[k]] 0 < k < values.len() ==> value_before(dtype, values[k - 1], values[k]),
    ensures
        value_before(dtype, values[i], values[j]),
    decreases j - i,
{
    assert(value_before(dtype, values[j - 1], values[j]));
    if i < j - 1 {
        lemma_rising(dtype, values, i, j - 1);
        lemma_value_transitive(dtype, values[i], values[j - 1], values[j]);
    }
}

proof fn lemma_falling(dtype: ColumnType, values: Seq<Seq<u8>>, i: int, j: int)
    requires
        0 <= i < j < values.len(),
        forall|k: int| #![trigger values[k]] 0 < k < values.len() ==> value_before(dtype, values[k], values[k - 1]),
    ensures
        value_before(dtype, values[j], values[i]),
    decreases j - i,
{
    assert(value_before(dtype, values[j], values[j - 1]));
    if i < j - 1 {
        lemma_falling(dtype, values, i, j - 1);
        lemma_value_transitive(dtype, values[j], values[j - 1], values[i]);
    }
}

/// A column of which every row is looked at and holds a value is sorted exactly when each value
/// comes before each later one, or each after each later one; it has no missing value.
pub proof fn law_sorted_column_rises_or_falls(
    e: &AdaptiveEncoder,
    col: &ColumnDef,
    column: &Column,
    total: usize,
    float_hint: Ratio,
    r: EncodingAnalysis,
)
    requires
        column.wf(),
        0 < total == column@.cells.len(),
        total <= e.sample_size,
        total <= u32::MAX,
        forall|i: int| #![trigger column@.cells[i]] 0 <= i < total ==> column@.cells[i] is Some,
        call_ensures(AdaptiveEncoder::analyze_column_array, (e, col, column, total, float_hint), r),
    ensures
        r.null_count == 0,
        r.is_sorted <==> (forall|i: int, j: int|
            #![trigger column@.cells[i], column@.cells[j]]
            0 <= i < j < total ==> value_before(column@.dtype, column@.cells[i]->0, column@.cells[j]->0)) || (forall|
            i: int,
            j: int,
        |
            #![trigger column@.cells[i], column@.cells[j]]
            0 <= i < j < total ==> value_before(column@.dtype, column@.cells[j]->0, column@.cells[i]->0)),
{
    let cells = column@.cells;
    let dtype = column@.dtype;
    law_sample_steps_of_all(total as int, e.sample_size as int);
    assert(cells.take(total as int) =~= cells);
    lemma_step_one(cells);
    lemma_all_present(cells);
    let values = present(cells);
    if r.is_sorted {
        if crate::segment::encoding::rises(dtype, values) {
            assert forall|i: int, j: int| #![trigger cells[i], cells[j]] 0 <= i < j < total implies value_before(
                dtype,
                cells[i]->0,
                cells[j]->0,
            ) by {
                lemma_rising(dtype, values, i, j);
                assert(values[i] == cells[i]->0 && values[j] == cells[j]->0);
            }
        } else {
            assert(crate::segment::encoding::falls(dtype, values));
            assert forall|i: int, j: int| #![trigger cells[i], cells[j]] 0 <= i < j < total implies value_before(
                dtype,
                cells[j]->0,
                cells[i]->0,
            ) by {
                lemma_falling(dtype, values, i, j);
                assert(values[i] == cells[i]->0 && values[j] == cells[j]->0);
            }
        }
    }
    if forall|i: int, j: int|
        #![trigger cells[i], cells[j]]
        0 <= i < j < total ==> value_before(dtype, cells[i]->0, cells[j]->0) {
        assert forall|k: int| #![trigger values[k]] 0 < k < values.len() implies value_before(
            dtype,
            values[k - 1],
            values[k],
        ) by {
            assert(values[k - 1] == cells[k - 1]->0 && values[k] == cells[k]->0);
        }
        assert(crate::segment::encoding::rises(dtype, values));
    }
    if forall|i: int, j: int|
        #![trigger cells[i], cells[j]]
        0 <= i < j < total ==> value_before(dtype, cells[j]->0, cells[i]->0) {
        assert forall|k: int| #![trigger values[k]] 0 < k < values.len() implies value_before(
            dtype,
            values[k],
            values[k - 1],
        ) by {
            assert(values[k - 1] == cells[k - 1]->0 && values[k] == cells[k]->0);
        }
        assert(crate::segment::encoding::falls(dtype, values));
    }
}

/// A sample that may have all rows has all of them.
pub proof fn law_sample_steps_of_all(total: int, sample: int)
    requires
        0 < total <= sample,
    ensures
        sample_step(total, sample) == 1,
{
    assert(total / total == 1) by (nonlinear_arith)
        requires
            total > 0,
    ;
}

/// The number of different values of a column that is looked at whole: as many as there are
/// values when no two are equal, fewer when two are, and one when all are.
pub proof fn law_different_values_are_counted(
    e: &AdaptiveEncoder,
    col: &ColumnDef,
    column: &Column,
    total: usize,
    float_hint: Ratio,
    r: EncodingAnalysis,
)
    requires
        column.wf(),
        0 < total == column@.cells.len(),
        total <= e.cardinality_sample_threshold,
        e.sample_size > 0,
        !(kind_of(column@.dtype) is Opaque),
        forall|i: int| #![trigger column@.cells[i]] 0 <= i < total ==> column@.cells[i] is Some,
        call_ensures(AdaptiveEncoder::analyze_column_array, (e, col, column, total, float_hint), r),
    ensures
        r.cardinality matches Some(n) && 1 <= n <= total,
        r.cardinality == Some(total as u64) <==> forall|i: int, j: int|
            #![trigger column@.cells[i], column@.cells[j]]
            0 <= i < j < total ==> column@.cells[i] != column@.cells[j],
        r.cardinality == Some(1u64) <==> forall|i: int|
            #![trigger column@.cells[i]]
            0 <= i < total ==> column@.cells[i] == column@.cells[0],
{
    let cells = column@.cells;
    assert(cells.take(total as int) =~= cells);
    lemma_all_present(cells);
    let values = present(cells);
    let keys = value_keys(column@.dtype, values);
    assert(keys =~= values);
    let set = keys.to_set();
    keys.lemma_cardinality_of_set();
    assert(keys.contains(keys[0]));
    assert(set.contains(keys[0]));
    if forall|i: int, j: int| #![trigger cells[i], cells[j]] 0 <= i < j < total ==> cells[i] != cells[j] {
        assert forall|i: int, j: int| 0 <= i < keys.len() && 0 <= j < keys.len() && i != j implies keys[i]
            != keys[j] by {
            assert(keys[i] == cells[i]->0 && keys[j] == cells[j]->0);
            if i < j {
                assert(cells[i] != cells[j]);
            } else {
                assert(cells[j] != cells[i]);
            }
        }
        keys.unique_seq_to_set();
    }
    if set.len() == keys.len() {
        keys.lemma_no_dup_set_cardinality();
        assert forall|i: int, j: int| #![trigger cells[i], cells[j]] 0 <= i < j < total implies cells[i]
            != cells[j] by {
            assert(keys[i] == cells[i]->0 && keys[j] == cells[j]->0);
        }
    }
    if set.len() == 1 {
        assert forall|i: int| #![trigger cells[i]] 0 <= i < total implies cells[i] == cells[0] by {
            assert(keys[i] == cells[i]->0 && keys[0] == cells[0]->0);
            assert(keys.contains(keys[i]));
            assert(set.contains(keys[i]));
            vstd::set_lib::lemma_len_subset(set![keys[0], keys[i]], set);
            if keys[i] != keys[0] {
                assert(set![keys[0], keys[i]].len() == 2);
            }
        }
    }
    if forall|i: int| #![trigger cells[i]] 0 <= i < total ==> cells[i] == cells[0] {
        assert forall|k: Seq<u8>| set.contains(k) <==> set![keys[0]].contains(k) by {
            if set.contains(k) {
                assert(keys.contains(k));
                let i = keys.index_of(k);
                assert(keys[i] == cells[i]->0 && keys[0] == cells[0]->0);
                assert(cells[i] == cells[0]);
            }
        }
        assert(set =~= set![keys[0]]);
    }
}

/// Of plain bytes, a sample has one at the start of each step.
pub proof fn law_bytes_are_sampled_by_steps(e: &AdaptiveEncoder, col: &ColumnDef, values: &[u8], r: EncodingAnalysis)
    requires
        e.sample_size > 0,
        values@.len() <= usize::MAX,
        call_ensures(AdaptiveEncoder::analyze_column, (e, col, values), r),
    ensures
        r.col_name@ == col.name@ && r.dtype == col.data_type && r.null_count == 0,
        values@.len() < 2 * e.sample_size ==> r.cardinality == Some(values@.len() as u64),
        values@.len() > 0 ==> (r.cardinality matches Some(n) && (values@.len() >= e.sample_size ==> n
            >= e.sample_size)),
        r.min_value is Some <==> values@.len() > 0,
{
    let len = values@.len();
    let sample = e.sample_size;
    let step = if len < sample {
        1int
    } else {
        len as int / sample as int
    };
    let n = bytes_sampled(len, sample);
    if len < 2 * sample {
        if len >= sample {
            assert(len as int / sample as int == 1) by (nonlinear_arith)
                requires
                    sample <= len < 2 * sample,
                    sample > 0,
            ;
        }
        let l = len as int;
        assert((l + step - 1) / step == l) by (nonlinear_arith)
            requires
                step == 1,
        ;
    }
    if len >= sample {
        let l = len as int;
        let s = sample as int;
        assert(1 <= step && s * step <= l) by (nonlinear_arith)
            requires
                step == l / s,
                0 < s <= l,
        ;
        assert((s - 1) * step < l) by (nonlinear_arith)
            requires
                s * step <= l,
                step >= 1,
        ;
        lemma_every_len(l, step, s - 1);
        assert(n <= l) by (nonlinear_arith)
            requires
                n == (l + step - 1) / step,
                step >= 1,
                l > 0,
        ;
    }
}

/// An update takes the bytes of the name of its column and of its value, and fifty-six more; one
/// that takes the place of another takes its bytes too.
pub proof fn law_updates_take_their_bytes(m: Updates, col: Seq<char>, pos: u64, v: Vec<u8>)
    requires
        m.dom().finite(),
    ensures
        !m.dom().contains((col, pos)) ==> updates_size(m.insert((col, pos), v)) == updates_size(m) + 56
            + encode_utf8(col).len() + v@.len(),
        m.dom().contains((col, pos)) ==> updates_size(m.insert((col, pos), v)) - v@.len() == updates_size(m)
            - m[(col, pos)]@.len(),
        m =~= Map::<(Seq<char>, u64), Vec<u8>>::empty() ==> updates_size(m) == 0,
{
    lemma_updates_insert(m, (col, pos), v);
}

/// A mask that takes in the rows of another takes on its form, but for a few rows that take in
/// a compressed set without rows, and a compressed set that takes in a few rows.
pub proof fn law_merged_mask_has_the_form_of_the_other(
    a: Representation,
    a_empty: bool,
    b: Representation,
    b_empty: bool,
)
    ensures
        merged_form(a, a_empty, b, b_empty) == a || merged_form(a, a_empty, b, b_empty) == b,
        merged_form(a, a_empty, b, b_empty) != b <==> {
            ||| a == Representation::Roaring && b == Representation::Sparse
            ||| a == Representation::Sparse && b == Representation::Roaring && (a_empty || b_empty)
        },
{
}

/// A projection may leave out rows for a predicate exactly when it is sorted by the column of
/// the predicate.
pub proof fn law_projection_prunes_by_its_sort_columns(
    p: &ProjectionMeta,
    predicate: &str,
    column: Option<(String, String)>,
    r: bool,
)
    requires
        call_ensures(can_projection_prune, (p, predicate), r),
        call_ensures(extract_column_from_predicate, (predicate,), column),
    ensures
        r <==> column is Some && exists|i: int|
            #![trigger p.sort_columns@[i]]
            0 <= i < p.sort_columns@.len() && p.sort_columns@[i]@ == (column->0).0@,
{
}

/// The digits of a key are those of the number in decimal.
pub proof fn law_key_digits_are_decimal(n: nat, i: int)
    ensures
        digits(n).len() == decimal(n).len(),
        0 <= i < digits(n).len() ==> digits(n)[i] == decimal(n)[i] as u8,
    decreases n,
{
    if n >= 10 {
        law_key_digits_are_decimal(n / 10, i);
        assert(digit((n % 10) as int) as u8 == (48 + n % 10) as u8);
    } else {
        assert(digit(n as int) as u8 == (48 + n) as u8);
    }
}

/// The key of a row: the word of a truth value, the decimal of a date or a time, the bytes of a
/// value of fixed width or of a text, and bytes with their number behind them.
pub proof fn law_keys_hold_their_values(column: &Column, row: usize, r: Vec<u8>, value: Seq<u8>)
    requires
        column.wf(),
        row < column@.cells.len(),
        column@.cells[row as int] == Some(value),
        call_ensures(pk_to_bytes, (column, row), r),
    ensures
        column@.dtype == ColumnType::Boolean ==> r@ == if value[0] == 1 {
            seq![116u8, 114u8, 117u8, 101u8]
        } else {
            seq![102u8, 97u8, 108u8, 115u8, 101u8]
        },
        column@.dtype == ColumnType::Utf8 || column@.dtype == ColumnType::LargeUtf8 ==> r@ == value,
        column@.dtype == ColumnType::Int8 || column@.dtype == ColumnType::Int16 || column@.dtype == ColumnType::Int32
            || column@.dtype == ColumnType::Int64 || column@.dtype == ColumnType::UInt8 || column@.dtype
            == ColumnType::UInt16 || column@.dtype == ColumnType::UInt32 || column@.dtype == ColumnType::UInt64
            || column@.dtype == ColumnType::Float32 || column@.dtype == ColumnType::Float64 ==> r@ == value,
        (column@.dtype == ColumnType::Binary || column@.dtype == ColumnType::LargeBinary) && value.len() <= u32::MAX
            ==> r@.len() == value.len() + 4 && r@.take(value.len() as int) == value && le_value(
            r@.skip(value.len() as int),
        ) == value.len(),
        column@.dtype == ColumnType::Date32 || column@.dtype == ColumnType::Date64 || column@.dtype
            == ColumnType::TimestampSecond || column@.dtype == ColumnType::TimestampMillis || column@.dtype
            == ColumnType::TimestampMicros || column@.dtype == ColumnType::TimestampNanos ==> {
            let n = whole_number(column@.dtype, value);
            r@ == if n < 0 {
                seq![45u8] + digits((-n) as nat)
            } else {
                digits(n as nat)
            }
        },
{
    let n = value.len() as int;
    let tail = le_bytes(value.len(), 4);
    lemma_le_len(value.len(), 4);
    assert((value + tail).take(n) =~= value);
    assert((value + tail).skip(n) =~= tail);
    if value.len() <= u32::MAX {
        reveal_with_fuel(pow256, 5);
        assert(pow256(4) == 0x1_0000_0000);
        lemma_le_round_trip(value.len(), 4);
    }
}

/// The number in some bytes is that of the first eight, the least part first.
pub proof fn law_first_eight_bytes_are_a_number(bytes: &[u8], v: u64)
    requires
        call_ensures(bytes_to_u64, (bytes,), v),
    ensures
        bytes@.len() <= 8 ==> v == le_value(bytes@),
        bytes@.len() > 8 ==> v == le_value(bytes@.take(8)),
{
}

/// The rows of a segment are those of its granules, and so are its deleted rows.
pub proof fn law_granules_add_up(granules: Seq<GranuleMeta>, g: GranuleMeta)
    ensures
        granule_rows(Seq::<GranuleMeta>::empty()) == 0 && granule_deletes(Seq::<GranuleMeta>::empty()) == 0,
        granule_rows(granules.push(g)) == granule_rows(granules) + g.row_count,
        granule_deletes(granules.push(g)) == granule_deletes(granules) + g.del_count,
{
    assert(granules.push(g).drop_last() =~= granules);
}

/// The reason of a recommendation is that of its encoding.
pub proof fn law_reasons_follow_the_encodings(e: &AdaptiveEncoder, a: &EncodingAnalysis, r: EncodingRecommendation)
    requires
        call_ensures(AdaptiveEncoder::recommend, (e, a), r),
    ensures
        r.encoding == EncodingType::Alp ==> r.reason@ == "Float with low variance, ALP effective"@,
        r.encoding == EncodingType::Gorilla ==> r.reason@ == "Float values, Gorilla compression"@,
        r.encoding == EncodingType::Raw ==> r.reason@ == "No clear encoding advantage, using raw"@,
        r.encoding == EncodingType::Delta ==> r.reason@ == if a.is_sorted {
            "Monotonically increasing values"@
        } else {
            "Integer range matches cardinality, Delta effective"@
        },
        r.encoding == EncodingType::Dict ==> (a.cardinality matches Some(n) && r.reason@ == "Low cardinality: "@
            + decimal(n as nat) + " unique values"@),
{
}

} // verus!
