//! Columns of typed values, each value held as its bytes.
//!
//! Numbers are held in little-endian form, floating-point numbers by their bit
//! patterns, truth values as one byte that is zero or one, texts in UTF-8.
use vstd::prelude::*;
use vstd::utf8::valid_utf8;
use crate::codec::{bytes_before, bytes_copy, bytes_less, get_le, le_value, lemma_le_value_round_trip, lemma_pow256, pow256, signed_value};
use crate::ipc::{cell_view, cells_view};
use crate::text::{is_utf8, text_same};

verus! {

/// Type of the values of a column.
#[derive(Debug, Clone, Copy, PartialEq, Eq, Structural)]
pub enum ColumnType {
    Int8,
    Int16,
    Int32,
    Int64,
    UInt8,
    UInt16,
    UInt32,
    UInt64,
    Float32,
    Float64,
    Boolean,
    Date32,
    Date64,
    TimestampSecond,
    TimestampMillis,
    TimestampMicros,
    TimestampNanos,
    Utf8,
    LargeUtf8,
    Binary,
    LargeBinary,
    /// A type whose values are carried through unread.
    Other,
}

/// How the bytes of a value are read.
#[derive(Debug, Clone, Copy, PartialEq, Eq, Structural)]
pub enum CellKind {
    Signed { width: usize },
    Unsigned { width: usize },
    Float { width: usize },
    Truth,
    Text,
    Bytes,
    Opaque,
}

/// How the bytes of a value of a type are read.
pub open spec fn kind_of(dtype: ColumnType) -> CellKind {
    match dtype {
        ColumnType::Int8 => CellKind::Signed { width: 1 },
        ColumnType::Int16 => CellKind::Signed { width: 2 },
        ColumnType::Int32 => CellKind::Signed { width: 4 },
        ColumnType::Int64 => CellKind::Signed { width: 8 },
        ColumnType::UInt8 => CellKind::Unsigned { width: 1 },
        ColumnType::UInt16 => CellKind::Unsigned { width: 2 },
        ColumnType::UInt32 => CellKind::Unsigned { width: 4 },
        ColumnType::UInt64 => CellKind::Unsigned { width: 8 },
        ColumnType::Float32 => CellKind::Float { width: 4 },
        ColumnType::Float64 => CellKind::Float { width: 8 },
        ColumnType::Boolean => CellKind::Truth,
        ColumnType::Date32 => CellKind::Signed { width: 4 },
        ColumnType::Date64 => CellKind::Signed { width: 8 },
        ColumnType::TimestampSecond | ColumnType::TimestampMillis | ColumnType::TimestampMicros
        | ColumnType::TimestampNanos => CellKind::Signed { width: 8 },
        ColumnType::Utf8 | ColumnType::LargeUtf8 => CellKind::Text,
        ColumnType::Binary | ColumnType::LargeBinary => CellKind::Bytes,
        ColumnType::Other => CellKind::Opaque,
    }
}

impl ColumnType {
    /// How the bytes of a value are read.
    pub fn kind(self) -> (r: CellKind)
        ensures
            r == kind_of(self),
    {
        match self {
            ColumnType::Int8 => CellKind::Signed { width: 1 },
            ColumnType::Int16 => CellKind::Signed { width: 2 },
            ColumnType::Int32 => CellKind::Signed { width: 4 },
            ColumnType::Int64 => CellKind::Signed { width: 8 },
            ColumnType::UInt8 => CellKind::Unsigned { width: 1 },
            ColumnType::UInt16 => CellKind::Unsigned { width: 2 },
            ColumnType::UInt32 => CellKind::Unsigned { width: 4 },
            ColumnType::UInt64 => CellKind::Unsigned { width: 8 },
            ColumnType::Float32 => CellKind::Float { width: 4 },
            ColumnType::Float64 => CellKind::Float { width: 8 },
            ColumnType::Boolean => CellKind::Truth,
            ColumnType::Date32 => CellKind::Signed { width: 4 },
            ColumnType::Date64 => CellKind::Signed { width: 8 },
            ColumnType::TimestampSecond | ColumnType::TimestampMillis
            | ColumnType::TimestampMicros | ColumnType::TimestampNanos => CellKind::Signed { width: 8 },
            ColumnType::Utf8 | ColumnType::LargeUtf8 => CellKind::Text,
            ColumnType::Binary | ColumnType::LargeBinary => CellKind::Bytes,
            ColumnType::Other => CellKind::Opaque,
        }
    }
}

/// The bytes of a number of a type that is counted or measured.
pub open spec fn number_width(dtype: ColumnType) -> Option<int> {
    match dtype {
        ColumnType::Int8 | ColumnType::UInt8 => Some(1),
        ColumnType::Int16 | ColumnType::UInt16 => Some(2),
        ColumnType::Int32 | ColumnType::UInt32 | ColumnType::Float32 => Some(4),
        ColumnType::Int64 | ColumnType::UInt64 | ColumnType::Float64 => Some(8),
        _ => None,
    }
}

/// Whether some bytes are a value of a type.
pub open spec fn fits(dtype: ColumnType, bytes: Seq<u8>) -> bool {
    match kind_of(dtype) {
        CellKind::Signed { width } | CellKind::Unsigned { width } | CellKind::Float { width } =>
            bytes.len() == width,
        CellKind::Truth => bytes.len() == 1 && bytes[0] <= 1,
        CellKind::Text => valid_utf8(bytes),
        CellKind::Bytes | CellKind::Opaque => true,
    }
}

/// Whether some bytes are a value of a type.
pub fn cell_fits(dtype: ColumnType, bytes: &[u8]) -> (r: bool)
    ensures
        r == fits(dtype, bytes@),
{
    match dtype.kind() {
        CellKind::Signed { width } => bytes.len() == width,
        CellKind::Unsigned { width } => bytes.len() == width,
        CellKind::Float { width } => bytes.len() == width,
        CellKind::Truth => bytes.len() == 1 && bytes[0] <= 1,
        CellKind::Text => is_utf8(bytes),
        CellKind::Bytes => true,
        CellKind::Opaque => true,
    }
}

/// The place of a floating-point number among those of its width, from its bit
/// pattern: numbers in ascending order, negative zero before zero.
pub open spec fn float_rank(bits: nat, width: nat) -> int {
    if 2 * bits >= pow256(width) {
        pow256(width) / 2 - 1 - bits
    } else {
        bits as int
    }
}

/// The bit pattern of positive infinity.
pub open spec fn infinity_bits(width: nat) -> nat {
    if width == 4 {
        0x7f80_0000
    } else {
        0x7ff0_0000_0000_0000
    }
}

/// Whether a bit pattern stands for no number.
pub open spec fn is_nan_bits(bits: nat, width: nat) -> bool {
    let half = pow256(width) / 2;
    let magnitude = if bits >= half {
        bits - half
    } else {
        bits as int
    };
    magnitude > infinity_bits(width)
}

/// Whether a value is a floating-point pattern that stands for no number.
pub open spec fn is_nan(dtype: ColumnType, bytes: Seq<u8>) -> bool {
    match kind_of(dtype) {
        CellKind::Float { width } => is_nan_bits(le_value(bytes), width as nat),
        _ => false,
    }
}

/// Whether a value comes before another of its type: numbers by size, texts and
/// bytes in lexicographic order.
pub open spec fn value_before(dtype: ColumnType, a: Seq<u8>, b: Seq<u8>) -> bool {
    match kind_of(dtype) {
        CellKind::Signed { width } => signed_value(le_value(a), width as nat) < signed_value(
            le_value(b),
            width as nat,
        ),
        CellKind::Unsigned { .. } => le_value(a) < le_value(b),
        CellKind::Float { width } => float_rank(le_value(a), width as nat) < float_rank(
            le_value(b),
            width as nat,
        ),
        CellKind::Truth | CellKind::Text | CellKind::Bytes | CellKind::Opaque => bytes_before(a, b),
    }
}

/// Half the number of values of some bytes.
fn half_range(width: usize) -> (r: u64)
    requires
        width == 1 || width == 2 || width == 4 || width == 8,
    ensures
        2 * r == pow256(width as nat),
{
    proof {
        lemma_pow256();
    }
    if width == 1 {
        0x80
    } else if width == 2 {
        0x8000
    } else if width == 4 {
        0x8000_0000
    } else {
        0x8000_0000_0000_0000
    }
}

/// Whether a value comes before another of its type.
pub fn cell_less(dtype: ColumnType, a: &[u8], b: &[u8]) -> (r: bool)
    requires
        fits(dtype, a@),
        fits(dtype, b@),
    ensures
        r == value_before(dtype, a@, b@),
{
    proof {
        assert(a@.subrange(0, a@.len() as int) =~= a@);
        assert(b@.subrange(0, b@.len() as int) =~= b@);
    }
    match dtype.kind() {
        CellKind::Signed { width } => {
            let x: u64 = get_le(a, 0, width);
            let y: u64 = get_le(b, 0, width);
            let half: u64 = half_range(width);
            if (x >= half) != (y >= half) {
                proof {
                    lemma_le_value_round_trip(a@);
                    lemma_le_value_round_trip(b@);
                }
                x >= half
            } else {
                x < y
            }
        },
        CellKind::Unsigned { width } => get_le(a, 0, width) < get_le(b, 0, width),
        CellKind::Float { width } => {
            let x: u64 = get_le(a, 0, width);
            let y: u64 = get_le(b, 0, width);
            let half: u64 = half_range(width);
            if (x >= half) != (y >= half) {
                x >= half
            } else if x >= half {
                x > y
            } else {
                x < y
            }
        },
        CellKind::Truth => bytes_less(a, b),
        CellKind::Text => bytes_less(a, b),
        CellKind::Bytes => bytes_less(a, b),
        CellKind::Opaque => bytes_less(a, b),
    }
}

/// The number that a value of a whole-number type holds.
pub open spec fn whole_number(dtype: ColumnType, bytes: Seq<u8>) -> int {
    match kind_of(dtype) {
        CellKind::Signed { width } => signed_value(le_value(bytes), width as nat),
        _ => le_value(bytes) as int,
    }
}

/// Whether the values of a type are whole numbers.
pub open spec fn is_whole(dtype: ColumnType) -> bool {
    kind_of(dtype) is Signed || kind_of(dtype) is Unsigned
}

/// The number that a value of a whole-number type holds.
pub fn read_whole_number(dtype: ColumnType, bytes: &[u8]) -> (r: i128)
    requires
        fits(dtype, bytes@),
        is_whole(dtype),
    ensures
        r == whole_number(dtype, bytes@),
        i64::MIN <= r <= u64::MAX,
{
    proof {
        assert(bytes@.subrange(0, bytes@.len() as int) =~= bytes@);
        lemma_le_value_round_trip(bytes@);
        lemma_pow256();
    }
    match dtype.kind() {
        CellKind::Signed { width } => {
            let x: u64 = get_le(bytes, 0, width);
            let half: u64 = half_range(width);
            if x >= half {
                x as i128 - 2 * (half as i128)
            } else {
                x as i128
            }
        },
        CellKind::Unsigned { width } => get_le(bytes, 0, width) as i128,
        _ => 0,
    }
}

/// Whether a value is a floating-point pattern that stands for no number.
pub fn cell_is_nan(dtype: ColumnType, bytes: &[u8]) -> (r: bool)
    requires
        fits(dtype, bytes@),
    ensures
        r == is_nan(dtype, bytes@),
{
    match dtype.kind() {
        CellKind::Float { width } => {
            assert(bytes@.subrange(0, bytes@.len() as int) =~= bytes@);
            let bits: u64 = get_le(bytes, 0, width);
            let half: u64 = half_range(width);
            let magnitude: u64 = if bits >= half {
                bits - half
            } else {
                bits
            };
            if width == 4 {
                magnitude > 0x7f80_0000
            } else {
                magnitude > 0x7ff0_0000_0000_0000
            }
        },
        _ => false,
    }
}

/// A column of values of one type, each of which may be missing.
#[derive(Debug)]
pub struct Column {
    pub dtype: ColumnType,
    pub cells: Vec<Option<Vec<u8>>>,
}

/// What a column holds.
#[verifier::ext_equal]
pub struct ColumnView {
    pub dtype: ColumnType,
    pub cells: Seq<Option<Seq<u8>>>,
}

impl View for Column {
    type V = ColumnView;

    open spec fn view(&self) -> ColumnView {
        ColumnView { dtype: self.dtype, cells: cells_view(self.cells@) }
    }
}

/// Whether all values of a column are of its type.
pub open spec fn column_fits(c: ColumnView) -> bool {
    forall|i: int|
        #![trigger c.cells[i]]
        0 <= i < c.cells.len() ==> match c.cells[i] {
            Some(b) => fits(c.dtype, b),
            None => true,
        }
}

/// A copy of a cell.
pub fn copy_cell(cell: &Option<Vec<u8>>) -> (r: Option<Vec<u8>>)
    ensures
        cell_view(r) == cell_view(*cell),
{
    match cell {
        Some(b) => Some(bytes_copy(b.as_slice())),
        None => None,
    }
}

impl Column {
    pub open spec fn wf(&self) -> bool {
        column_fits(self@)
    }

    /// A column of some cells, if all are of the type.
    pub fn new(dtype: ColumnType, cells: Vec<Option<Vec<u8>>>) -> (r: Option<Self>)
        ensures
            match r {
                Some(c) => c.wf() && c@ == (ColumnView { dtype, cells: cells_view(cells@) }),
                None => !column_fits(ColumnView { dtype, cells: cells_view(cells@) }),
            },
    {
        let c = Column { dtype, cells };
        if c.is_fit() {
            Some(c)
        } else {
            None
        }
    }

    /// Whether all values are of the type of the column.
    pub fn is_fit(&self) -> (r: bool)
        ensures
            r == self.wf(),
    {
        let mut i: usize = 0;
        while i < self.cells.len()
            invariant
                i <= self.cells@.len(),
                forall|j: int|
                    #![trigger self@.cells[j]]
                    0 <= j < i ==> match self@.cells[j] {
                        Some(b) => fits(self.dtype, b),
                        None => true,
                    },
            decreases self.cells@.len() - i,
        {
            assert(self@.cells[i as int] == cell_view(self.cells@[i as int]));
            if let Some(b) = &self.cells[i] {
                if !cell_fits(self.dtype, b.as_slice()) {
                    return false;
                }
            }
            i = i + 1;
        }
        true
    }

    /// How many rows there are.
    pub fn len(&self) -> (n: usize)
        ensures
            n == self@.cells.len(),
    {
        self.cells.len()
    }

    /// Whether the value of a row is missing.
    pub fn is_null(&self, row: usize) -> (r: bool)
        requires
            row < self@.cells.len(),
        ensures
            r == (self@.cells[row as int] is None),
    {
        match &self.cells[row] {
            Some(_) => false,
            None => true,
        }
    }

    /// A copy of the value of a row.
    pub fn cell(&self, row: usize) -> (r: Option<Vec<u8>>)
        requires
            row < self@.cells.len(),
        ensures
            cell_view(r) == self@.cells[row as int],
    {
        copy_cell(&self.cells[row])
    }

    /// A copy of the column.
    pub fn copy(&self) -> (r: Self)
        ensures
            r@ == self@,
    {
        let mut cells: Vec<Option<Vec<u8>>> = Vec::new();
        let mut i: usize = 0;
        while i < self.cells.len()
            invariant
                i <= self.cells@.len(),
                cells@.len() == i,
                forall|j: int|
                    #![trigger cells@[j]]
                    0 <= j < i ==> cell_view(cells@[j]) == cell_view(self.cells@[j]),
            decreases self.cells@.len() - i,
        {
            cells.push(copy_cell(&self.cells[i]));
            i = i + 1;
        }
        let r = Column { dtype: self.dtype, cells };
        assert(r@.cells =~= self@.cells);
        r
    }
}

/// Columns of equal length, each with a name of its own.
#[derive(Debug)]
pub struct Batch {
    pub names: Vec<String>,
    pub columns: Vec<Column>,
}

/// What a batch holds.
#[verifier::ext_equal]
pub struct BatchView {
    pub names: Seq<Seq<char>>,
    pub columns: Seq<ColumnView>,
}

impl View for Batch {
    type V = BatchView;

    open spec fn view(&self) -> BatchView {
        BatchView {
            names: self.names@.map_values(|n: String| n@),
            columns: self.columns@.map_values(|c: Column| c@),
        }
    }
}

/// Whether a batch has a name for each column, none of them twice, and columns
/// of one length whose values are of their types.
pub open spec fn batch_fits(b: BatchView) -> bool {
    &&& b.names.len() == b.columns.len()
    &&& b.names.no_duplicates()
    &&& forall|i: int, j: int|
        #![trigger b.columns[i], b.columns[j]]
        0 <= i < b.columns.len() && 0 <= j < b.columns.len() ==> b.columns[i].cells.len()
            == b.columns[j].cells.len()
    &&& forall|i: int| #![trigger b.columns[i]] 0 <= i < b.columns.len() ==> column_fits(b.columns[i])
}

impl Batch {
    pub open spec fn wf(&self) -> bool {
        batch_fits(self@)
    }

    /// A batch of some columns, if each has a name of its own, they are equally
    /// long, and their values are of their types.
    pub fn new(names: Vec<String>, columns: Vec<Column>) -> (r: Option<Self>)
        ensures
            ({
                let view = BatchView {
                    names: names@.map_values(|n: String| n@),
                    columns: columns@.map_values(|c: Column| c@),
                };
                match r {
                    Some(b) => b.wf() && b@ == view,
                    None => !batch_fits(view),
                }
            }),
    {
        let b = Batch { names, columns };
        if b.is_fit() {
            Some(b)
        } else {
            None
        }
    }

    /// Whether each column has a name of its own, they are equally long, and
    /// their values are of their types.
    pub fn is_fit(&self) -> (r: bool)
        ensures
            r == self.wf(),
    {
        let ghost view = self@;
        if self.names.len() != self.columns.len() {
            return false;
        }
        let mut i: usize = 0;
        while i < self.columns.len()
            invariant
                view == self@,
                i <= self.columns@.len() == self.names@.len(),
                forall|x: int, y: int|
                    #![trigger view.names[x], view.names[y]]
                    0 <= x < y < i ==> view.names[x] != view.names[y],
                forall|x: int|
                    #![trigger view.columns[x]]
                    0 <= x < i ==> view.columns[x].cells.len() == view.columns[0].cells.len()
                        && column_fits(view.columns[x]),
            decreases self.columns@.len() - i,
        {
            assert(view.columns[i as int] == self.columns@[i as int]@);
            assert(view.columns[0] == self.columns@[0]@);
            assert(view.names[i as int] == self.names@[i as int]@);
            if self.columns[i].len() != self.columns[0].len() {
                return false;
            }
            if !self.columns[i].is_fit() {
                return false;
            }
            let mut k: usize = 0;
            while k < i
                invariant
                    view == self@,
                    k <= i < self.columns@.len() == self.names@.len(),
                    forall|x: int|
                        #![trigger view.names[x]]
                        0 <= x < k ==> view.names[x] != view.names[i as int],
                decreases i - k,
            {
                assert(view.names[k as int] == self.names@[k as int]@);
                assert(view.names[i as int] == self.names@[i as int]@);
                if text_same(self.names[k].as_str(), self.names[i].as_str()) {
                    return false;
                }
                k = k + 1;
            }
            i = i + 1;
        }
        assert(view.names.no_duplicates()) by {
            assert forall|x: int, y: int|
                0 <= x < view.names.len() && 0 <= y < view.names.len() && x != y implies view.names[x]
                != view.names[y] by {
                if x < y {
                } else {
                    assert(view.names[y] != view.names[x]);
                }
            }
        }
        true
    }

    /// How many columns there are.
    pub fn num_columns(&self) -> (n: usize)
        ensures
            n == self@.columns.len(),
    {
        self.columns.len()
    }

    /// How many rows there are.
    pub fn num_rows(&self) -> (n: usize)
        ensures
            n == batch_rows(self@),
    {
        if self.columns.len() == 0 {
            0
        } else {
            assert(self@.columns[0] == self.columns@[0]@);
            self.columns[0].len()
        }
    }

    /// The place of the column with a name.
    pub fn index_of(&self, name: &str) -> (r: Option<usize>)
        requires
            self.wf(),
        ensures
            match r {
                Some(i) => i < self@.names.len() && self@.names[i as int] == name@,
                None => !self@.names.contains(name@),
            },
    {
        let mut i: usize = 0;
        while i < self.names.len()
            invariant
                i <= self.names@.len(),
                forall|k: int|
                    #![trigger self@.names[k]]
                    0 <= k < i ==> self@.names[k] != name@,
            decreases self.names@.len() - i,
        {
            assert(self@.names[i as int] == self.names@[i as int]@);
            if text_same(self.names[i].as_str(), name) {
                return Some(i);
            }
            i = i + 1;
        }
        None
    }

    /// A copy of the batch.
    pub fn copy(&self) -> (r: Self)
        ensures
            r@ == self@,
    {
        let mut names: Vec<String> = Vec::new();
        let mut columns: Vec<Column> = Vec::new();
        let mut i: usize = 0;
        while i < self.names.len()
            invariant
                i <= self.names@.len(),
                names@.len() == i,
                forall|k: int| #![trigger names@[k]] 0 <= k < i ==> names@[k]@ == self.names@[k]@,
            decreases self.names@.len() - i,
        {
            names.push(self.names[i].clone());
            i = i + 1;
        }
        let mut j: usize = 0;
        while j < self.columns.len()
            invariant
                j <= self.columns@.len(),
                columns@.len() == j,
                forall|k: int| #![trigger columns@[k]] 0 <= k < j ==> columns@[k]@ == self.columns@[k]@,
            decreases self.columns@.len() - j,
        {
            columns.push(self.columns[j].copy());
            j = j + 1;
        }
        let r = Batch { names, columns };
        assert(r@.names =~= self@.names);
        assert(r@.columns =~= self@.columns);
        r
    }
}

/// How many rows a batch has.
pub open spec fn batch_rows(b: BatchView) -> nat {
    if b.columns.len() == 0 {
        0
    } else {
        b.columns[0].cells.len()
    }
}

} // verus!
