//! Choice of the encoding of a column.
//!
//! Few different values call for a dictionary, monotonic values for deltas,
//! floating-point numbers for one of their own encodings. Large columns are
//! judged by a sample of their rows.
use vstd::prelude::*;
use crate::codec::{bytes_copy, get_le, le_value};
use crate::column::{cell_is_nan, cell_less, fits, is_nan, kind_of, value_before, CellKind, Column, ColumnType, ColumnView};
use crate::ipc::cell_view;
use crate::ordmap::OrdMap;
use crate::ratio::{above, is_above, Ratio};
use crate::segment::meta::{ColumnDef, DataType, EncodingType};
use crate::text::{append_decimal, decimal, text_copy};

verus! {

/// What was found out about a column.
#[derive(Debug)]
pub struct EncodingAnalysis {
    pub col_name: String,
    pub dtype: DataType,
    pub cardinality: Option<u64>,
    pub min_value: Option<Vec<u8>>,
    pub max_value: Option<Vec<u8>>,
    pub null_count: u32,
    pub is_sorted: bool,
    /// How well floating-point values are expected to compress, up to one.
    pub compression_ratio_hint: Ratio,
}

/// An encoding, how sure the choice is, and why.
#[derive(Debug)]
pub struct EncodingRecommendation {
    pub encoding: EncodingType,
    pub confidence: Ratio,
    pub reason: String,
}

/// Chooses encodings.
#[derive(Debug, Clone, Copy, PartialEq, Eq, Structural)]
pub struct AdaptiveEncoder {
    /// From how many different values on a dictionary is no longer chosen.
    pub low_cardinality_threshold: u64,
    /// How many rows of a large column are looked at.
    pub sample_size: usize,
    /// Up to how many rows different values are counted exactly.
    pub cardinality_sample_threshold: usize,
}

/// The bytes of a value of which only the first eight are read.
pub open spec fn first_eight(bytes: Seq<u8>) -> Seq<u8> {
    if bytes.len() > 8 {
        bytes.take(8)
    } else {
        bytes
    }
}

/// The number that the first eight bytes stand for in little-endian form.
pub fn bytes_to_u64(bytes: &[u8]) -> (v: u64)
    ensures
        v == le_value(first_eight(bytes@)),
{
    let n: usize = if bytes.len() > 8 {
        8
    } else {
        bytes.len()
    };
    assert(bytes@.subrange(0, n as int) =~= first_eight(bytes@));
    get_le(bytes, 0, n)
}

/// Whether a type is one of whole numbers.
pub open spec fn is_integer(dt: DataType) -> bool {
    match dt {
        DataType::Int8 | DataType::Int16 | DataType::Int32 | DataType::Int64 | DataType::UInt8
        | DataType::UInt16 | DataType::UInt32 | DataType::UInt64 => true,
        _ => false,
    }
}

/// Whether a type is one of floating-point numbers.
pub open spec fn is_float(dt: DataType) -> bool {
    dt == DataType::Float32 || dt == DataType::Float64
}

/// The encoding that suits a type.
pub open spec fn type_encoding(dt: DataType) -> EncodingType {
    if is_integer(dt) {
        EncodingType::Delta
    } else if is_float(dt) {
        EncodingType::Gorilla
    } else if dt == DataType::Bool {
        EncodingType::Rle
    } else {
        EncodingType::Raw
    }
}

/// The encoding that suits a type.
pub fn encoding_for_dtype(dtype: &DataType) -> (r: EncodingType)
    ensures
        r == type_encoding(*dtype),
{
    match dtype {
        DataType::Int8 | DataType::Int16 | DataType::Int32 | DataType::Int64 | DataType::UInt8
        | DataType::UInt16 | DataType::UInt32 | DataType::UInt64 => EncodingType::Delta,
        DataType::Float32 | DataType::Float64 => EncodingType::Gorilla,
        DataType::Bool => EncodingType::Rle,
        _ => EncodingType::Raw,
    }
}

/// The distance between two values, modulo the range of `u64`.
pub open spec fn value_range(min: Seq<u8>, max: Seq<u8>) -> int {
    (le_value(first_eight(max)) - le_value(first_eight(min))) % 0x1_0000_0000_0000_0000
}

/// Whether the values of an integer column lie so close that there are at least
/// half as many different ones as places between the least and the greatest.
pub open spec fn is_dense(a: EncodingAnalysis, cardinality: u64) -> bool {
    match (a.min_value, a.max_value) {
        (Some(min), Some(max)) => min@.len() == max@.len() && min@.len() <= 8 && value_range(
            min@,
            max@,
        ) < (cardinality * 2) % 0x1_0000_0000_0000_0000,
        _ => false,
    }
}

/// The number of different values, where it is not known the greatest number.
pub open spec fn known_cardinality(a: EncodingAnalysis) -> u64 {
    match a.cardinality {
        Some(c) => c,
        None => u64::MAX,
    }
}

/// Whether floating-point values are expected to compress to less than a half.
pub open spec fn compresses(a: EncodingAnalysis) -> bool {
    above(
        a.compression_ratio_hint.num as int,
        a.compression_ratio_hint.den as int,
        Ratio { num: 1, den: 2 },
    )
}

/// The encoding for a column.
pub open spec fn chosen_encoding(a: EncodingAnalysis, threshold: u64) -> EncodingType {
    if known_cardinality(a) < threshold {
        EncodingType::Dict
    } else if a.is_sorted {
        EncodingType::Delta
    } else if is_float(a.dtype) {
        if compresses(a) {
            EncodingType::Alp
        } else {
            EncodingType::Gorilla
        }
    } else if is_integer(a.dtype) && is_dense(a, known_cardinality(a)) {
        EncodingType::Delta
    } else {
        EncodingType::Raw
    }
}

/// How sure the choice of an encoding is.
pub open spec fn choice_confidence(a: EncodingAnalysis, threshold: u64) -> Ratio {
    if known_cardinality(a) < threshold {
        Ratio { num: 90, den: 100 }
    } else if a.is_sorted {
        Ratio { num: 85, den: 100 }
    } else if is_float(a.dtype) {
        if compresses(a) {
            Ratio { num: 70, den: 100 }
        } else {
            Ratio { num: 75, den: 100 }
        }
    } else if is_integer(a.dtype) && is_dense(a, known_cardinality(a)) {
        Ratio { num: 80, den: 100 }
    } else {
        Ratio { num: 50, den: 100 }
    }
}

/// Why an encoding is chosen.
pub open spec fn choice_reason(a: EncodingAnalysis, threshold: u64) -> Seq<char> {
    if known_cardinality(a) < threshold {
        "Low cardinality: "@ + decimal(known_cardinality(a) as nat) + " unique values"@
    } else if a.is_sorted {
        "Monotonically increasing values"@
    } else if is_float(a.dtype) {
        if compresses(a) {
            "Float with low variance, ALP effective"@
        } else {
            "Float values, Gorilla compression"@
        }
    } else if is_integer(a.dtype) && is_dense(a, known_cardinality(a)) {
        "Integer range matches cardinality, Delta effective"@
    } else {
        "No clear encoding advantage, using raw"@
    }
}

/// The distance between the rows of a sample of at most about `sample` rows.
pub open spec fn sample_step(total: int, sample: int) -> int {
    let count = if sample < total {
        sample
    } else {
        total
    };
    if count <= 0 || total / count < 1 {
        1
    } else {
        total / count
    }
}

/// Every so many of some items.
pub open spec fn every<T>(items: Seq<T>, step: int) -> Seq<T> {
    Seq::new(((items.len() + step - 1) / step) as nat, |i: int| items[i * step])
}

/// The values of some cells, without the missing ones.
pub open spec fn present(cells: Seq<Option<Seq<u8>>>) -> Seq<Seq<u8>>
    decreases cells.len(),
{
    if cells.len() == 0 {
        Seq::empty()
    } else {
        match cells.last() {
            Some(b) => present(cells.drop_last()).push(b),
            None => present(cells.drop_last()),
        }
    }
}

/// How many cells have no value.
pub open spec fn missing(cells: Seq<Option<Seq<u8>>>) -> nat
    decreases cells.len(),
{
    if cells.len() == 0 {
        0
    } else {
        missing(cells.drop_last()) + match cells.last() {
            Some(_) => 0nat,
            None => 1nat,
        }
    }
}

/// The bytes by which a value is told apart from others; none for a type whose
/// values are not read.
pub open spec fn value_key(dtype: ColumnType, value: Seq<u8>) -> Seq<u8> {
    if kind_of(dtype) is Opaque {
        Seq::empty()
    } else {
        value
    }
}

/// The bytes by which some values are told apart.
pub open spec fn value_keys(dtype: ColumnType, values: Seq<Seq<u8>>) -> Seq<Seq<u8>> {
    values.map_values(|v: Seq<u8>| value_key(dtype, v))
}

/// The bytes of the value of a row.
pub fn value_as_bytes(column: &Column, row: usize) -> (r: Vec<u8>)
    requires
        row < column@.cells.len(),
        column@.cells[row as int] is Some,
    ensures
        r@ == value_key(column@.dtype, column@.cells[row as int]->0),
{
    match column.dtype.kind() {
        CellKind::Opaque => {
            let none: Vec<u8> = Vec::new();
            assert(none@ =~= Seq::empty());
            none
        },
        _ => match &column.cells[row] {
            Some(b) => bytes_copy(b.as_slice()),
            None => Vec::new(),
        },
    }
}

/// The values of a column that take part in its least and greatest value: those
/// that are there, without floating-point patterns that stand for no number.
pub open spec fn ranked(c: ColumnView, i: int) -> bool {
    &&& 0 <= i < c.cells.len()
    &&& c.cells[i] is Some
    &&& !is_nan(c.dtype, c.cells[i]->0)
}

/// `m` is the least value of a column, the first of equal ones.
pub open spec fn is_least(c: ColumnView, m: Option<Seq<u8>>) -> bool {
    match m {
        None => forall|i: int| #![trigger c.cells[i]] !ranked(c, i),
        Some(v) => {
            &&& exists|i: int| #![trigger c.cells[i]] ranked(c, i) && c.cells[i]->0 == v
            &&& forall|i: int|
                #![trigger c.cells[i]]
                ranked(c, i) ==> !value_before(c.dtype, c.cells[i]->0, v)
        },
    }
}

/// `m` is the greatest value of a column.
pub open spec fn is_greatest(c: ColumnView, m: Option<Seq<u8>>) -> bool {
    match m {
        None => forall|i: int| #![trigger c.cells[i]] !ranked(c, i),
        Some(v) => {
            &&& exists|i: int| #![trigger c.cells[i]] ranked(c, i) && c.cells[i]->0 == v
            &&& forall|i: int|
                #![trigger c.cells[i]]
                ranked(c, i) ==> !value_before(c.dtype, v, c.cells[i]->0)
        },
    }
}

/// Whether a truth value is among the cells of a column.
pub open spec fn has_truth(c: ColumnView, truth: u8) -> bool {
    exists|i: int|
        #![trigger c.cells[i]]
        0 <= i < c.cells.len() && c.cells[i] is Some && c.cells[i]->0[0] == truth
}

/// The least value of a column. A column of truth values without a false one has
/// a true one as its least value, also when it is empty; a column of values that
/// are not read has none.
pub open spec fn column_min(c: ColumnView, m: Option<Seq<u8>>) -> bool {
    match kind_of(c.dtype) {
        CellKind::Truth => m == Some(
            seq![
                if has_truth(c, 0) {
                    0u8
                } else {
                    1u8
                },
            ],
        ),
        CellKind::Opaque => m is None,
        _ => is_least(c, m),
    }
}

/// The greatest value of a column. A column of truth values without a true one
/// has a false one as its greatest value; a column of values that are not read
/// has none.
pub open spec fn column_max(c: ColumnView, m: Option<Seq<u8>>) -> bool {
    match kind_of(c.dtype) {
        CellKind::Truth => m == Some(
            seq![
                if has_truth(c, 1) {
                    1u8
                } else {
                    0u8
                },
            ],
        ),
        CellKind::Opaque => m is None,
        _ => is_greatest(c, m),
    }
}

fn find_truth(column: &Column, truth: u8) -> (r: bool)
    requires
        column.wf(),
        kind_of(column.dtype) is Truth,
    ensures
        r == has_truth(column@, truth),
{
    let mut i: usize = 0;
    while i < column.cells.len()
        invariant
            column.wf(),
            kind_of(column.dtype) is Truth,
            i <= column.cells@.len(),
            forall|k: int|
                #![trigger column@.cells[k]]
                0 <= k < i && column@.cells[k] is Some ==> column@.cells[k]->0[0] != truth,
        decreases column.cells@.len() - i,
    {
        assert(column@.cells[i as int] == cell_view(column.cells@[i as int]));
        if let Some(b) = &column.cells[i] {
            assert(fits(column.dtype, b@));
            if b[0] == truth {
                return true;
            }
        }
        i = i + 1;
    }
    false
}

/// The place of the least value of a column (or, if `greatest`, of the
/// greatest).
fn find_extreme(column: &Column, greatest: bool) -> (r: Option<usize>)
    requires
        column.wf(),
    ensures
        ({
            let c = column@;
            match r {
                None => forall|i: int| #![trigger c.cells[i]] !ranked(c, i),
                Some(m) => ranked(c, m as int) && forall|i: int|
                    #![trigger c.cells[i]]
                    ranked(c, i) ==> if greatest {
                        !value_before(c.dtype, c.cells[m as int]->0, c.cells[i]->0)
                    } else {
                        !value_before(c.dtype, c.cells[i]->0, c.cells[m as int]->0)
                    },
            }
        }),
{
    let ghost c = column@;
    let mut best: Option<usize> = None;
    let mut i: usize = 0;
    while i < column.cells.len()
        invariant
            column.wf(),
            c == column@,
            i <= column.cells@.len() == c.cells.len(),
            match best {
                None => forall|k: int| #![trigger c.cells[k]] k < i ==> !ranked(c, k),
                Some(m) => m < i && ranked(c, m as int) && forall|k: int|
                    #![trigger c.cells[k]]
                    k < i && ranked(c, k) ==> if greatest {
                        !value_before(c.dtype, c.cells[m as int]->0, c.cells[k]->0)
                    } else {
                        !value_before(c.dtype, c.cells[k]->0, c.cells[m as int]->0)
                    },
            },
        decreases column.cells@.len() - i,
    {
        assert(c.cells[i as int] == cell_view(column.cells@[i as int]));
        if let Some(b) = &column.cells[i] {
            assert(fits(column.dtype, b@));
            if !cell_is_nan(column.dtype, b.as_slice()) {
                match best {
                    None => {
                        proof {
                            lemma_value_irreflexive(c.dtype, b@);
                        }
                        best = Some(i);
                    },
                    Some(m) => {
                        assert(c.cells[m as int] == cell_view(column.cells@[m as int]));
                        if let Some(held) = &column.cells[m] {
                            assert(fits(column.dtype, held@));
                            let better = if greatest {
                                cell_less(column.dtype, held.as_slice(), b.as_slice())
                            } else {
                                cell_less(column.dtype, b.as_slice(), held.as_slice())
                            };
                            if better {
                                proof {
                                    lemma_value_irreflexive(c.dtype, b@);
                                    assert forall|k: int|
                                        #![trigger c.cells[k]]
                                        k < i + 1 && ranked(c, k) implies if greatest {
                                        !value_before(c.dtype, b@, c.cells[k]->0)
                                    } else {
                                        !value_before(c.dtype, c.cells[k]->0, b@)
                                    } by {
                                        if k < i {
                                            if greatest {
                                                if value_before(c.dtype, b@, c.cells[k]->0) {
                                                    lemma_value_transitive(
                                                        c.dtype,
                                                        held@,
                                                        b@,
                                                        c.cells[k]->0,
                                                    );
                                                }
                                            } else {
                                                if value_before(c.dtype, c.cells[k]->0, b@) {
                                                    lemma_value_transitive(
                                                        c.dtype,
                                                        c.cells[k]->0,
                                                        b@,
                                                        held@,
                                                    );
                                                }
                                            }
                                        }
                                    }
                                }
                                best = Some(i);
                            }
                        }
                    },
                }
            }
        }
        i = i + 1;
    }
    best
}

/// The order of values is irreflexive.
pub proof fn lemma_value_irreflexive(dtype: ColumnType, a: Seq<u8>)
    ensures
        !value_before(dtype, a, a),
{
    crate::codec::lemma_bytes_irreflexive(a);
}

/// What comes between two values, or is one of them: every value comes after the first or
/// before the second.
pub proof fn lemma_value_through(dtype: ColumnType, a: Seq<u8>, b: Seq<u8>, c: Seq<u8>)
    requires
        value_before(dtype, a, b),
    ensures
        value_before(dtype, a, c) || value_before(dtype, c, b),
{
    match kind_of(dtype) {
        CellKind::Truth | CellKind::Text | CellKind::Bytes | CellKind::Opaque => {
            crate::codec::lemma_bytes_total(a, c);
            if !value_before(dtype, a, c) && a != c {
                crate::codec::lemma_bytes_transitive(c, a, b);
            }
        },
        _ => {},
    }
}

/// The order of values is transitive.
pub proof fn lemma_value_transitive(dtype: ColumnType, a: Seq<u8>, b: Seq<u8>, c: Seq<u8>)
    requires
        value_before(dtype, a, b),
        value_before(dtype, b, c),
    ensures
        value_before(dtype, a, c),
{
    match kind_of(dtype) {
        CellKind::Truth | CellKind::Text | CellKind::Bytes | CellKind::Opaque => {
            crate::codec::lemma_bytes_transitive(a, b, c);
        },
        _ => {},
    }
}

/// The least value of a column.
pub fn extract_array_min(column: &Column) -> (r: Option<Vec<u8>>)
    requires
        column.wf(),
    ensures
        column_min(column@, cell_view(r)),
{
    extract_extreme(column, false)
}

/// The greatest value of a column.
pub fn extract_array_max(column: &Column) -> (r: Option<Vec<u8>>)
    requires
        column.wf(),
    ensures
        column_max(column@, cell_view(r)),
{
    extract_extreme(column, true)
}

fn extract_extreme(column: &Column, greatest: bool) -> (r: Option<Vec<u8>>)
    requires
        column.wf(),
    ensures
        if greatest {
            column_max(column@, cell_view(r))
        } else {
            column_min(column@, cell_view(r))
        },
{
    match column.dtype.kind() {
        CellKind::Truth => {
            let wanted: u8 = if greatest {
                1
            } else {
                0
            };
            let found = find_truth(column, wanted);
            let value: u8 = if found {
                wanted
            } else {
                1 - wanted
            };
            let mut r: Vec<u8> = Vec::new();
            r.push(value);
            assert(r@ =~= seq![value]);
            Some(r)
        },
        CellKind::Opaque => None,
        _ => match find_extreme(column, greatest) {
            None => None,
            Some(m) => {
                assert(column@.cells[m as int] == cell_view(column.cells@[m as int]));
                match &column.cells[m] {
                    Some(b) => Some(bytes_copy(b.as_slice())),
                    None => None,
                }
            },
        },
    }
}

/// The number of different keys.
pub open spec fn distinct(keys: Seq<Seq<u8>>) -> nat {
    keys.to_set().len()
}

/// The number of different values of a column, by its values or a sample of
/// them: in a sample of a large column, as many of all rows as are different in
/// the sample, rounded down.
pub open spec fn cardinality_of(c: ColumnView, total: nat, e: AdaptiveEncoder) -> nat {
    let rows = c.cells.take(total as int);
    if total <= e.cardinality_sample_threshold {
        distinct(value_keys(c.dtype, present(rows)))
    } else {
        let step = sample_step(total as int, e.sample_size as int);
        let values = present(every(rows, step));
        let count = if values.len() == 0 {
            1
        } else {
            values.len()
        };
        total * distinct(value_keys(c.dtype, values)) / count
    }
}

/// Whether each of some values comes before the next.
pub open spec fn rises(dtype: ColumnType, values: Seq<Seq<u8>>) -> bool {
    forall|i: int|
        #![trigger values[i]]
        0 < i < values.len() ==> value_before(dtype, values[i - 1], values[i])
}

/// Whether each of some values comes after the next.
pub open spec fn falls(dtype: ColumnType, values: Seq<Seq<u8>>) -> bool {
    forall|i: int|
        #![trigger values[i]]
        0 < i < values.len() ==> value_before(dtype, values[i], values[i - 1])
}

/// Whether the sampled values of a column all rise or all fall.
pub open spec fn is_monotonic(c: ColumnView, total: nat, e: AdaptiveEncoder) -> bool {
    let step = sample_step(total as int, e.sample_size as int);
    let values = present(every(c.cells.take(total as int), step));
    rises(c.dtype, values) || falls(c.dtype, values)
}

/// How well a column is expected to compress: as given for floating-point
/// columns of which at least two values are sampled.
pub open spec fn hint_of(c: ColumnView, total: nat, e: AdaptiveEncoder, float_hint: Ratio) -> Ratio {
    match kind_of(c.dtype) {
        CellKind::Float { .. } => {
            let step = sample_step(total as int, e.sample_size as int);
            if present(every(c.cells.take(total as int), step)).len() < 2 {
                Ratio { num: 1, den: 2 }
            } else {
                float_hint
            }
        },
        _ => Ratio { num: 3, den: 10 },
    }
}

/// `a` is the analysis of the first rows of a column.
pub open spec fn analyzes(
    a: EncodingAnalysis,
    col: ColumnDef,
    c: ColumnView,
    total: nat,
    e: AdaptiveEncoder,
    float_hint: Ratio,
) -> bool {
    &&& a.col_name@ == col.name@
    &&& a.dtype == col.data_type
    &&& if total == 0 {
        &&& a.cardinality == Some(0u64)
        &&& a.min_value is None
        &&& a.max_value is None
        &&& a.null_count == 0
        &&& a.is_sorted
        &&& a.compression_ratio_hint == (Ratio { num: 0, den: 1 })
    } else {
        &&& a.cardinality == Some(cardinality_of(c, total, e) as u64)
        &&& column_min(c, cell_view(a.min_value))
        &&& column_max(c, cell_view(a.max_value))
        &&& a.null_count == missing(c.cells) as u32
        &&& a.is_sorted == is_monotonic(c, total, e)
        &&& a.compression_ratio_hint == hint_of(c, total, e, float_hint)
    }
}

impl Default for AdaptiveEncoder {
    fn default() -> (r: Self)
        ensures
            r == (AdaptiveEncoder {
                low_cardinality_threshold: 1000,
                sample_size: 10_000,
                cardinality_sample_threshold: 100_000,
            }),
    {
        AdaptiveEncoder {
            low_cardinality_threshold: 1000,
            sample_size: 10_000,
            cardinality_sample_threshold: 100_000,
        }
    }
}

impl AdaptiveEncoder {
    pub fn new() -> (r: Self)
        ensures
            r == (AdaptiveEncoder {
                low_cardinality_threshold: 1000,
                sample_size: 10_000,
                cardinality_sample_threshold: 100_000,
            }),
    {
        Self::default()
    }

    /// The encoding for a column, how sure it is, and why.
    pub fn recommend(&self, analysis: &EncodingAnalysis) -> (r: EncodingRecommendation)
        ensures
            r.encoding == chosen_encoding(*analysis, self.low_cardinality_threshold),
            r.confidence == choice_confidence(*analysis, self.low_cardinality_threshold),
            r.reason@ == choice_reason(*analysis, self.low_cardinality_threshold),
    {
        let cardinality: u64 = match analysis.cardinality {
            Some(c) => c,
            None => u64::MAX,
        };
        if cardinality < self.low_cardinality_threshold {
            let mut reason = text_copy("Low cardinality: ");
            append_decimal(&mut reason, cardinality);
            reason.append(" unique values");
            return EncodingRecommendation {
                encoding: EncodingType::Dict,
                confidence: Ratio { num: 90, den: 100 },
                reason,
            };
        }
        if analysis.is_sorted {
            return EncodingRecommendation {
                encoding: EncodingType::Delta,
                confidence: Ratio { num: 85, den: 100 },
                reason: text_copy("Monotonically increasing values"),
            };
        }
        let float = analysis.dtype == DataType::Float32 || analysis.dtype == DataType::Float64;
        if float {
            let hint = analysis.compression_ratio_hint;
            if is_above(hint.num, hint.den, Ratio { num: 1, den: 2 }) {
                return EncodingRecommendation {
                    encoding: EncodingType::Alp,
                    confidence: Ratio { num: 70, den: 100 },
                    reason: text_copy("Float with low variance, ALP effective"),
                };
            }
            return EncodingRecommendation {
                encoding: EncodingType::Gorilla,
                confidence: Ratio { num: 75, den: 100 },
                reason: text_copy("Float values, Gorilla compression"),
            };
        }
        let integer = match analysis.dtype {
            DataType::Int8 | DataType::Int16 | DataType::Int32 | DataType::Int64
            | DataType::UInt8 | DataType::UInt16 | DataType::UInt32 | DataType::UInt64 => true,
            _ => false,
        };
        if integer && self.is_dense_range(analysis, cardinality) {
            return EncodingRecommendation {
                encoding: EncodingType::Delta,
                confidence: Ratio { num: 80, den: 100 },
                reason: text_copy("Integer range matches cardinality, Delta effective"),
            };
        }
        EncodingRecommendation {
            encoding: EncodingType::Raw,
            confidence: Ratio { num: 50, den: 100 },
            reason: text_copy("No clear encoding advantage, using raw"),
        }
    }

    fn is_dense_range(&self, analysis: &EncodingAnalysis, cardinality: u64) -> (r: bool)
        ensures
            r == is_dense(*analysis, cardinality),
    {
        match (&analysis.min_value, &analysis.max_value) {
            (Some(min), Some(max)) => {
                if min.len() == max.len() && min.len() <= 8 {
                    let range: u64 = bytes_to_u64(max.as_slice()).wrapping_sub(
                        bytes_to_u64(min.as_slice()),
                    );
                    range < cardinality.wrapping_mul(2)
                } else {
                    false
                }
            },
            _ => false,
        }
    }

    /// How far apart the rows of a sample of `total` rows are.
    pub fn step(&self, total: usize) -> (r: usize)
        requires
            total > 0,
            self.sample_size > 0,
        ensures
            r == sample_step(total as int, self.sample_size as int),
            r >= 1,
    {
        let count: usize = if self.sample_size < total {
            self.sample_size
        } else {
            total
        };
        let step: usize = total / count;
        if step < 1 {
            1
        } else {
            step
        }
    }

    /// The analysis of the first rows of a column. For floating-point columns,
    /// how well they are expected to compress is given.
    pub fn analyze_column_array(
        &self,
        col: &ColumnDef,
        column: &Column,
        total_count: usize,
        float_hint: Ratio,
    ) -> (r: EncodingAnalysis)
        requires
            column.wf(),
            total_count <= column@.cells.len(),
            self.sample_size > 0,
        ensures
            analyzes(r, *col, column@, total_count as nat, *self, float_hint),
    {
        if total_count == 0 {
            return EncodingAnalysis {
                col_name: col.name.clone(),
                dtype: col.data_type,
                cardinality: Some(0),
                min_value: None,
                max_value: None,
                null_count: 0,
                is_sorted: true,
                compression_ratio_hint: Ratio { num: 0, den: 1 },
            };
        }
        let (cardinality, null_count) = self.compute_cardinality(column, total_count);
        let min_value = extract_array_min(column);
        let max_value = extract_array_max(column);
        let is_sorted = self.check_monotonicity(column, total_count);
        let compression_ratio_hint = self.compute_compression_hint(
            column,
            total_count,
            float_hint,
        );
        EncodingAnalysis {
            col_name: col.name.clone(),
            dtype: col.data_type,
            cardinality: Some(cardinality),
            min_value,
            max_value,
            null_count,
            is_sorted,
            compression_ratio_hint,
        }
    }

    /// The places of the sampled values that are there.
    fn sample(&self, column: &Column, total_count: usize, step: usize) -> (r: Vec<usize>)
        requires
            0 < total_count <= column@.cells.len(),
            step >= 1,
        ensures
            ({
                let values = present(every(column@.cells.take(total_count as int), step as int));
                &&& r@.len() == values.len()
                &&& forall|k: int|
                    #![trigger r@[k]]
                    0 <= k < r@.len() ==> r@[k] < total_count && column@.cells[r@[k] as int]
                        == Some(values[k])
            }),
    {
        let ghost rows = column@.cells.take(total_count as int);
        let ghost chosen = every(rows, step as int);
        let mut r: Vec<usize> = Vec::new();
        let mut at: usize = 0;
        let ghost mut k: int = 0;
        proof {
            assert(chosen.take(0) =~= Seq::empty());
            lemma_every_len(rows.len() as int, step as int, 0);
        }
        let mut more = true;
        while more
            invariant
                rows == column@.cells.take(total_count as int),
                rows.len() == total_count,
                0 < total_count <= column@.cells.len(),
                column@.cells.len() == column.cells@.len(),
                step >= 1,
                chosen == every(rows, step as int),
                0 <= k <= chosen.len(),
                more ==> at == k * step && at < total_count,
                more == (k < chosen.len()),
                r@.len() == present(chosen.take(k)).len(),
                forall|j: int|
                    #![trigger r@[j]]
                    0 <= j < r@.len() ==> r@[j] < total_count && column@.cells[r@[j] as int] == Some(
                        present(chosen.take(k))[j],
                    ),
            decreases chosen.len() - k,
        {
            proof {
                assert(chosen.take(k + 1).drop_last() =~= chosen.take(k));
                assert(chosen[k] == rows[k * step]);
                assert(rows[at as int] == column@.cells[at as int]);
                assert(column@.cells[at as int] == cell_view(column.cells@[at as int]));
            }
            let ghost was = r@;
            let ghost before = present(chosen.take(k));
            if let Some(_) = &column.cells[at] {
                r.push(at);
                proof {
                    let now = present(chosen.take(k + 1));
                    assert forall|j: int| #![trigger r@[j]] 0 <= j < r@.len() implies r@[j] < total_count
                        && column@.cells[r@[j] as int] == Some(now[j]) by {
                        if j < was.len() {
                            assert(r@[j] == was[j]);
                        }
                    }
                }
            }
            proof {
                k = k + 1;
                lemma_every_len(rows.len() as int, step as int, k);
                assert(k * step == (k - 1) * step + step) by (nonlinear_arith);
            }
            if step < total_count - at {
                at = at + step;
            } else {
                more = false;
            }
        }
        assert(chosen.take(k) =~= chosen);
        r
    }

    /// How many different values the places of a column have.
    fn count_distinct(&self, column: &Column, places: &Vec<usize>, Ghost(values): Ghost<Seq<Seq<u8>>>) -> (n:
        usize)
        requires
            places@.len() == values.len(),
            forall|k: int|
                #![trigger places@[k]]
                0 <= k < places@.len() ==> places@[k] < column@.cells.len() && column@.cells[places@[k] as int]
                    == Some(values[k]),
        ensures
            n == distinct(value_keys(column@.dtype, values)),
    {
        let ghost keys = value_keys(column@.dtype, values);
        let mut seen: OrdMap<Vec<u8>, ()> = OrdMap::new();
        let mut i: usize = 0;
        proof {
            assert(keys.take(0).to_set() =~= Set::empty());
            assert(seen@.dom() =~= Set::empty());
        }
        while i < places.len()
            invariant
                i <= places@.len() == values.len(),
                keys == value_keys(column@.dtype, values),
                forall|k: int|
                    #![trigger places@[k]]
                    0 <= k < places@.len() ==> places@[k] < column@.cells.len()
                        && column@.cells[places@[k] as int] == Some(values[k]),
                seen.wf(),
                seen@.dom() == keys.take(i as int).to_set(),
            decreases places@.len() - i,
        {
            let key = value_as_bytes(column, places[i]);
            proof {
                assert(key@ == keys[i as int]);
                assert(keys.take(i + 1) =~= keys.take(i as int).push(keys[i as int]));
                let now = keys.take(i as int);
                assert(now.push(keys[i as int]).to_set() =~= now.to_set().insert(keys[i as int])) by {
                    lemma_push_set(now, keys[i as int]);
                }
            }
            let ghost dom = seen@.dom();
            let _ = seen.insert(key, ());
            assert(seen@.dom() =~= dom.insert(keys[i as int]));
            i = i + 1;
        }
        proof {
            assert(keys.take(i as int) =~= keys);
            seen.lemma_dom();
        }
        seen.len()
    }

    /// The number of different values, exact or estimated, and the number of
    /// missing ones.
    fn compute_cardinality(&self, column: &Column, total_count: usize) -> (r: (u64, u32))
        requires
            0 < total_count <= column@.cells.len(),
            self.sample_size > 0,
        ensures
            r.0 == cardinality_of(column@, total_count as nat, *self) as u64,
            r.1 == missing(column@.cells) as u32,
    {
        #[verifier::truncate]
        let null_count: u32 = self.count_missing(column) as u32;
        let ghost rows = column@.cells.take(total_count as int);
        if total_count <= self.cardinality_sample_threshold {
            let places = self.sample(column, total_count, 1);
            proof {
                assert(every(rows, 1) =~= rows);
            }
            (self.count_distinct(column, &places, Ghost(present(rows))) as u64, null_count)
        } else {
            let step: usize = self.step(total_count);
            let places = self.sample(column, total_count, step);
            let ghost values = present(every(rows, step as int));
            let different: usize = self.count_distinct(column, &places, Ghost(values));
            let sampled: usize = if places.len() == 0 {
                1
            } else {
                places.len()
            };
            proof {
                lemma_distinct_bound(value_keys(column@.dtype, values));
                assert(different <= sampled);
            }
            let total: u128 = total_count as u128;
            let part: u128 = different as u128;
            assert(total * part <= 0xffff_ffff_ffff_ffff * 0xffff_ffff_ffff_ffff) by (nonlinear_arith)
                requires
                    total <= 0xffff_ffff_ffff_ffff,
                    part <= 0xffff_ffff_ffff_ffff,
            ;
            let product: u128 = total * part;
            let estimated: u128 = product / sampled as u128;
            assert(estimated <= total) by (nonlinear_arith)
                requires
                    product == total * part,
                    estimated == product / (sampled as u128),
                    part <= sampled,
                    sampled > 0,
                    total >= 0,
            ;
            (estimated as u64, null_count)
        }
    }

    fn count_missing(&self, column: &Column) -> (n: usize)
        ensures
            n == missing(column@.cells),
    {
        let ghost all = column@.cells;
        let mut n: usize = 0;
        let mut i: usize = 0;
        assert(all.take(0) =~= Seq::empty());
        while i < column.cells.len()
            invariant
                all == column@.cells,
                i <= column.cells@.len() == all.len(),
                n == missing(all.take(i as int)),
                n <= i,
            decreases column.cells@.len() - i,
        {
            proof {
                assert(all[i as int] == cell_view(column.cells@[i as int]));
                assert(all.take(i + 1).drop_last() =~= all.take(i as int));
            }
            if let None = &column.cells[i] {
                n = n + 1;
            }
            i = i + 1;
        }
        assert(all.take(i as int) =~= all);
        n
    }

    /// Whether the sampled values all rise or all fall.
    fn check_monotonicity(&self, column: &Column, total_count: usize) -> (r: bool)
        requires
            column.wf(),
            0 < total_count <= column@.cells.len(),
            self.sample_size > 0,
        ensures
            r == is_monotonic(column@, total_count as nat, *self),
    {
        let step: usize = self.step(total_count);
        let places = self.sample(column, total_count, step);
        let ghost c = column@;
        let ghost values = present(every(c.cells.take(total_count as int), step as int));
        let mut up = true;
        let mut down = true;
        let mut i: usize = 1;
        while i < places.len()
            invariant
                column.wf(),
                c == column@,
                places@.len() == values.len(),
                1 <= i,
                i <= places@.len() || places@.len() == 0,
                forall|k: int|
                    #![trigger places@[k]]
                    0 <= k < places@.len() ==> places@[k] < c.cells.len() && c.cells[places@[k] as int]
                        == Some(values[k]),
                up == forall|k: int|
                    #![trigger values[k]]
                    0 < k < i && k < values.len() ==> value_before(c.dtype, values[k - 1], values[k]),
                down == forall|k: int|
                    #![trigger values[k]]
                    0 < k < i && k < values.len() ==> value_before(c.dtype, values[k], values[k - 1]),
            decreases places@.len() - i,
        {
            let a: usize = places[i - 1];
            let b: usize = places[i];
            proof {
                assert(c.cells[a as int] == cell_view(column.cells@[a as int]));
                assert(c.cells[b as int] == cell_view(column.cells@[b as int]));
            }
            if let (Some(prev), Some(now)) = (&column.cells[a], &column.cells[b]) {
                assert(fits(c.dtype, prev@) && fits(c.dtype, now@));
                assert(values[i - 1] == prev@ && values[i as int] == now@);
                if !cell_less(column.dtype, prev.as_slice(), now.as_slice()) {
                    up = false;
                }
                if !cell_less(column.dtype, now.as_slice(), prev.as_slice()) {
                    down = false;
                }
            }
            i = i + 1;
        }
        assert(up == rises(c.dtype, values));
        assert(down == falls(c.dtype, values));
        up || down
    }

    /// How well a column is expected to compress.
    fn compute_compression_hint(&self, column: &Column, total_count: usize, float_hint: Ratio) -> (r:
        Ratio)
        requires
            0 < total_count <= column@.cells.len(),
            self.sample_size > 0,
        ensures
            r == hint_of(column@, total_count as nat, *self, float_hint),
    {
        match column.dtype.kind() {
            CellKind::Float { .. } => {
                let step: usize = self.step(total_count);
                let places = self.sample(column, total_count, step);
                if places.len() < 2 {
                    Ratio { num: 1, den: 2 }
                } else {
                    float_hint
                }
            },
            _ => Ratio { num: 3, den: 10 },
        }
    }

    /// The analysis of a column of which only raw bytes are known: its size
    /// stands for the number of different values, and nothing speaks against its
    /// being sorted.
    pub fn analyze_column(&self, col: &ColumnDef, values: &[u8]) -> (r: EncodingAnalysis)
        requires
            self.sample_size > 0,
        ensures
            r.col_name@ == col.name@,
            r.dtype == col.data_type,
            r.cardinality == Some(bytes_sampled(values@.len(), self.sample_size) as u64),
            cell_view(r.min_value) == if values@.len() > 0 {
                Some(Seq::<u8>::empty())
            } else {
                None
            },
            cell_view(r.max_value) == cell_view(r.min_value),
            r.null_count == 0,
            r.is_sorted,
            r.compression_ratio_hint == (Ratio { num: 3, den: 10 }),
    {
        let mut step: usize = values.len() / self.sample_size;
        if step < 1 {
            step = 1;
        }
        let whole: usize = values.len() / step;
        proof {
            lemma_quotient(values@.len() as int, self.sample_size as int);
            lemma_ceiling(values@.len() as int, step as int);
            lemma_sampled_bound(values@.len(), self.sample_size);
        }
        let count: usize = if values.len() % step == 0 {
            whole
        } else {
            whole + 1
        };
        let (min_value, max_value) = if values.len() > 0 {
            let a: Vec<u8> = Vec::new();
            let b: Vec<u8> = Vec::new();
            assert(a@ =~= Seq::empty());
            assert(b@ =~= Seq::empty());
            (Some(a), Some(b))
        } else {
            (None, None)
        };
        EncodingAnalysis {
            col_name: col.name.clone(),
            dtype: col.data_type,
            cardinality: Some(count as u64),
            min_value,
            max_value,
            null_count: 0,
            is_sorted: true,
            compression_ratio_hint: Ratio { num: 3, den: 10 },
        }
    }

    /// Analyses a column of raw bytes and chooses its encoding.
    pub fn analyze_and_recommend(&self, col: &ColumnDef, values: &[u8]) -> (r:
        EncodingRecommendation)
        requires
            self.sample_size > 0,
        ensures
            r.encoding == if bytes_sampled(values@.len(), self.sample_size)
                < self.low_cardinality_threshold {
                EncodingType::Dict
            } else {
                EncodingType::Delta
            },
            r.confidence == if bytes_sampled(values@.len(), self.sample_size)
                < self.low_cardinality_threshold {
                (Ratio { num: 90, den: 100 })
            } else {
                (Ratio { num: 85, den: 100 })
            },
            r.reason@ == if bytes_sampled(values@.len(), self.sample_size)
                < self.low_cardinality_threshold {
                "Low cardinality: "@ + decimal(bytes_sampled(values@.len(), self.sample_size))
                    + " unique values"@
            } else {
                "Monotonically increasing values"@
            },
    {
        let analysis = self.analyze_column(col, values);
        proof {
            lemma_sampled_bound(values@.len(), self.sample_size);
            assert(values@.len() <= usize::MAX) by {
                assert(values@.len() == values.len());
            }
        }
        self.recommend(&analysis)
    }
}

/// How many bytes of raw values are sampled.
pub open spec fn bytes_sampled(len: nat, sample: usize) -> nat {
    let step = if len < sample {
        1
    } else {
        len as int / sample as int
    };
    ((len + step - 1) / step) as nat
}

proof fn lemma_sampled_bound(len: nat, sample: usize)
    requires
        sample > 0,
    ensures
        bytes_sampled(len, sample) <= len,
{
    let step = if len < sample {
        1
    } else {
        len as int / sample as int
    };
    lemma_quotient(len as int, sample as int);
    assert((len + step - 1) / step <= len) by (nonlinear_arith)
        requires
            step >= 1,
            len >= 0,
    ;
}

proof fn lemma_quotient(n: int, d: int)
    requires
        n >= 0,
        d >= 1,
    ensures
        (n / d < 1) == (n < d),
{
    assert((n / d < 1) == (n < d)) by (nonlinear_arith)
        requires
            n >= 0,
            d >= 1,
    ;
}

proof fn lemma_ceiling(n: int, d: int)
    requires
        n >= 0,
        d >= 1,
    ensures
        (n + d - 1) / d == if n % d == 0 {
            n / d
        } else {
            n / d + 1
        },
{
    let q = n / d;
    let r = n % d;
    assert(n == d * q + r && 0 <= r < d) by (nonlinear_arith)
        requires
            q == n / d,
            r == n % d,
            d >= 1,
    ;
    if r == 0 {
        assert((d * q + d - 1) / d == q) by (nonlinear_arith)
            requires
                d >= 1,
        ;
    } else {
        assert((d * q + r + d - 1) / d == q + 1) by (nonlinear_arith)
            requires
                1 <= r < d,
        ;
    }
}

/// Where the sample ends: the item after `k` steps is there exactly when more
/// than `k` items are chosen.
pub proof fn lemma_every_len(n: int, step: int, k: int)
    requires
        n > 0,
        step >= 1,
        k >= 0,
    ensures
        (k < (n + step - 1) / step) == (k * step < n),
{
    let c = (n + step - 1) / step;
    assert((k < c) == (k * step < n)) by (nonlinear_arith)
        requires
            c == (n + step - 1) / step,
            step >= 1,
            n > 0,
            k >= 0,
    ;
}

proof fn lemma_push_set(s: Seq<Seq<u8>>, x: Seq<u8>)
    ensures
        s.push(x).to_set() == s.to_set().insert(x),
{
    let p = s.push(x);
    assert forall|y: Seq<u8>| p.to_set().contains(y) <==> s.to_set().insert(x).contains(y) by {
        if p.contains(y) {
            let i = choose|i: int| 0 <= i < p.len() && p[i] == y;
            if i < s.len() {
                assert(s[i] == y);
            }
        }
        if s.contains(y) {
            let i = choose|i: int| 0 <= i < s.len() && s[i] == y;
            assert(p[i] == y);
        }
        if y == x {
            assert(p[s.len() as int] == y);
        }
    }
    assert(p.to_set() =~= s.to_set().insert(x));
}

proof fn lemma_distinct_bound(keys: Seq<Seq<u8>>)
    ensures
        distinct(keys) <= keys.len(),
{
    keys.lemma_cardinality_of_set();
}

/// The least value of a column does not come after its greatest.
pub proof fn law_least_is_not_above_greatest(c: ColumnView, least: Seq<u8>, greatest: Seq<u8>)
    requires
        is_least(c, Some(least)),
        is_greatest(c, Some(greatest)),
    ensures
        !value_before(c.dtype, greatest, least),
{
    let i = choose|i: int| #![trigger c.cells[i]] ranked(c, i) && c.cells[i]->0 == least;
    assert(ranked(c, i));
}

/// A column with fewer different values than the threshold is encoded as a
/// dictionary, whatever else is known of it.
pub proof fn law_low_cardinality_takes_a_dictionary(a: EncodingAnalysis, threshold: u64)
    requires
        a.cardinality matches Some(n) && n < threshold,
    ensures
        chosen_encoding(a, threshold) == EncodingType::Dict,
{
}

} // verus!
