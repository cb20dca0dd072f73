//! Columns in Arrow IPC file form.
use vstd::prelude::*;
use crate::codec::{bytes_copy, bytes_range, get_le, le_value};
use crate::column::{cell_fits, fits, kind_of, CellKind, Column, ColumnType, ColumnView};
use crate::error::RockDuckError;
use crate::ipc_layout::{is_well_laid, well_laid};
use crate::text::text_same;
use arrow_array::Array;

verus! {

/// `arrow_schema::ArrowError`.
#[verifier::external_type_specification]
#[verifier::external_body]
pub struct ExArrowError(arrow_schema::ArrowError);

/// The byte strings of a sequence of optional byte vectors.
pub open spec fn cells_view(cells: Seq<Option<Vec<u8>>>) -> Seq<Option<Seq<u8>>> {
    cells.map_values(|c: Option<Vec<u8>>| cell_view(c))
}

/// The byte string of an optional byte vector.
pub open spec fn cell_view(cell: Option<Vec<u8>>) -> Option<Seq<u8>> {
    match cell {
        Some(v) => Some(v@),
        None => None,
    }
}

/// How many bytes the cells hold together.
pub open spec fn cells_size(cells: Seq<Option<Seq<u8>>>) -> nat
    decreases cells.len(),
{
    if cells.len() == 0 {
        0
    } else {
        cells_size(cells.drop_last()) + match cells.last() {
            Some(b) => b.len(),
            None => 0,
        }
    }
}

/// What `arrow_ipc` reads from the bytes of an IPC file: nothing when it
/// refuses them; else, of the first column of the first batch, the name of its
/// type, which of its rows have a value, its buffers, and the place of its first
/// row in them.
pub uninterp spec fn ipc_array(bytes: Seq<u8>) -> Option<
    (Seq<char>, Seq<bool>, Seq<Seq<u8>>, nat),
>;

/// The type that has a name.
pub open spec fn named_type(name: Seq<char>) -> ColumnType {
    if name == "Int8"@ {
        ColumnType::Int8
    } else if name == "Int16"@ {
        ColumnType::Int16
    } else if name == "Int32"@ {
        ColumnType::Int32
    } else if name == "Int64"@ {
        ColumnType::Int64
    } else if name == "UInt8"@ {
        ColumnType::UInt8
    } else if name == "UInt16"@ {
        ColumnType::UInt16
    } else if name == "UInt32"@ {
        ColumnType::UInt32
    } else if name == "UInt64"@ {
        ColumnType::UInt64
    } else if name == "Float32"@ {
        ColumnType::Float32
    } else if name == "Float64"@ {
        ColumnType::Float64
    } else if name == "Boolean"@ {
        ColumnType::Boolean
    } else if name == "Date32"@ {
        ColumnType::Date32
    } else if name == "Date64"@ {
        ColumnType::Date64
    } else if name == "Timestamp(Second, None)"@ {
        ColumnType::TimestampSecond
    } else if name == "Timestamp(Millisecond, None)"@ {
        ColumnType::TimestampMillis
    } else if name == "Timestamp(Microsecond, None)"@ {
        ColumnType::TimestampMicros
    } else if name == "Timestamp(Nanosecond, None)"@ {
        ColumnType::TimestampNanos
    } else if name == "Utf8"@ {
        ColumnType::Utf8
    } else if name == "LargeUtf8"@ {
        ColumnType::LargeUtf8
    } else if name == "Binary"@ {
        ColumnType::Binary
    } else if name == "LargeBinary"@ {
        ColumnType::LargeBinary
    } else {
        ColumnType::Other
    }
}

/// The bytes of the offsets of a type whose values differ in length.
pub open spec fn offset_width(dtype: ColumnType) -> int {
    if dtype == ColumnType::LargeUtf8 || dtype == ColumnType::LargeBinary {
        8
    } else {
        4
    }
}

/// The value at a place in the buffers of a column, if they reach so far:
/// values of one width lie one after the other, truth values bit by bit, and
/// the others between two of the offsets in the first buffer.
pub open spec fn buffer_value(dtype: ColumnType, buffers: Seq<Seq<u8>>, at: int) -> Option<Seq<u8>> {
    match kind_of(dtype) {
        CellKind::Signed { width } | CellKind::Unsigned { width } | CellKind::Float { width } =>
            if buffers.len() >= 1 && (at + 1) * width <= buffers[0].len() {
                Some(buffers[0].subrange(at * width, at * width + width))
            } else {
                None
            },
        CellKind::Truth => if buffers.len() >= 1 && at / 8 < buffers[0].len() {
            Some(seq![(buffers[0][at / 8] >> ((at % 8) as u8)) & 1])
        } else {
            None
        },
        CellKind::Text | CellKind::Bytes => {
            let w = offset_width(dtype);
            if buffers.len() >= 2 && (at + 2) * w <= buffers[0].len() {
                let from = le_value(buffers[0].subrange(at * w, at * w + w)) as int;
                let to = le_value(buffers[0].subrange((at + 1) * w, (at + 1) * w + w)) as int;
                if from <= to <= buffers[1].len() && fits(dtype, buffers[1].subrange(from, to)) {
                    Some(buffers[1].subrange(from, to))
                } else {
                    None
                }
            } else {
                None
            }
        },
        CellKind::Opaque => None,
    }
}

/// Whether the buffers of a column reach over all rows that have a value.
pub open spec fn reaches(dtype: ColumnType, valid: Seq<bool>, buffers: Seq<Seq<u8>>, offset: nat) -> bool {
    forall|i: int|
        #![trigger valid[i]]
        0 <= i < valid.len() && valid[i] ==> buffer_value(dtype, buffers, offset + i) is Some
}

/// The cells of a column in its buffers.
pub open spec fn buffer_cells(
    dtype: ColumnType,
    valid: Seq<bool>,
    buffers: Seq<Seq<u8>>,
    offset: nat,
) -> Seq<Option<Seq<u8>>> {
    Seq::new(
        valid.len(),
        |i: int|
            if valid[i] {
                buffer_value(dtype, buffers, offset + i)
            } else {
                None
            },
    )
}

/// What is read from the bytes of an IPC file, if they are well laid out.
pub open spec fn laid_array(bytes: Seq<u8>) -> Option<(Seq<char>, Seq<bool>, Seq<Seq<u8>>, nat)> {
    if well_laid(bytes) {
        ipc_array(bytes)
    } else {
        None
    }
}

/// The column that an IPC file holds, or why there is none.
pub open spec fn column_in(bytes: Seq<u8>) -> Result<ColumnView, RockDuckError> {
    match laid_array(bytes) {
        None => Err(RockDuckError::Arrow),
        Some((name, valid, buffers, offset)) => {
            let dtype = named_type(name);
            if dtype == ColumnType::Other || !reaches(dtype, valid, buffers, offset) {
                Err(RockDuckError::Unimplemented)
            } else {
                Ok(ColumnView { dtype, cells: buffer_cells(dtype, valid, buffers, offset) })
            }
        },
    }
}

/// The number of rows of the column in an IPC file, and its cells when it is of
/// type binary.
pub open spec fn ipc_column(bytes: Seq<u8>) -> Option<(nat, Option<Seq<Option<Seq<u8>>>>)> {
    match laid_array(bytes) {
        None => None,
        Some((_, valid, _, _)) => Some(
            (
                valid.len(),
                match column_in(bytes) {
                    Ok(c) => if c.dtype == ColumnType::Binary {
                        Some(c.cells)
                    } else {
                        None
                    },
                    Err(_) => None,
                },
            ),
        ),
    }
}

/// The binary cells that a decoded column holds.
pub open spec fn binary_view(binary: Option<Vec<Option<Vec<u8>>>>) -> Option<
    Seq<Option<Seq<u8>>>,
> {
    match binary {
        Some(cells) => Some(cells_view(cells@)),
        None => None,
    }
}

/// `arrow_ipc::writer::FileWriter` on a batch of one nullable binary column:
/// the bytes of a well laid out IPC file from which the same cells are read back.
/// Writing to memory does not fail.
#[verifier::external_body]
fn ipc_write(cells: &Vec<Option<Vec<u8>>>) -> (r: Result<Vec<u8>, arrow_schema::ArrowError>)
    requires
        cells_size(cells_view(cells@)) <= i32::MAX,
    ensures
        r is Ok,
        r matches Ok(bytes) ==> ipc_column(bytes@) == Some(
            (cells@.len(), Some(cells_view(cells@))),
        ),
{
    let array = arrow_array::BinaryArray::from_iter(cells.iter().map(|c| c.as_deref()));
    let field = arrow_schema::Field::new("value", arrow_schema::DataType::Binary, true);
    let schema = std::sync::Arc::new(arrow_schema::Schema::new(vec![field]));
    let batch = arrow_array::RecordBatch::try_new(schema, vec![std::sync::Arc::new(array)])?;
    let mut bytes = Vec::new();
    let mut writer = arrow_ipc::writer::FileWriter::try_new(&mut bytes, &batch.schema())?;
    writer.write(&batch)?;
    writer.finish()?;
    drop(writer);
    Ok(bytes)
}

/// The byte strings of some buffers.
pub open spec fn buffers_view(buffers: Seq<Vec<u8>>) -> Seq<Seq<u8>> {
    buffers.map_values(|b: Vec<u8>| b@)
}

/// `arrow_ipc::reader::FileReader`: the type, the validity and the buffers of
/// the first column of the first batch. The reader takes the places that a file
/// names in itself at their word, so the file has to be well laid out.
#[verifier::external_body]
fn ipc_read(bytes: &[u8]) -> (r: Result<
    (String, Vec<bool>, Vec<Vec<u8>>, usize),
    arrow_schema::ArrowError,
>)
    requires
        well_laid(bytes@),
    ensures
        match r {
            Ok((name, valid, buffers, offset)) => ipc_array(bytes@) == Some(
                (name@, valid@, buffers_view(buffers@), offset as nat),
            ),
            Err(_) => ipc_array(bytes@) is None,
        },
{
    let mut reader = arrow_ipc::reader::FileReader::try_new(std::io::Cursor::new(bytes), None)?;
    let missing = || arrow_schema::ArrowError::IpcError(String::from("no column"));
    let batch = reader.next().ok_or_else(missing)??;
    let column = batch.columns().first().ok_or_else(missing)?;
    let data = column.to_data();
    let valid = (0..column.len()).map(|i| column.is_valid(i)).collect();
    let buffers = data.buffers().iter().map(|b| b.to_vec()).collect();
    Ok((format!("{:?}", column.data_type()), valid, buffers, data.offset()))
}

/// The type that has a name.
fn type_named(name: &String) -> (r: ColumnType)
    ensures
        r == named_type(name@),
{
    let name: &str = name.as_str();
    if text_same(name, "Int8") {
        ColumnType::Int8
    } else if text_same(name, "Int16") {
        ColumnType::Int16
    } else if text_same(name, "Int32") {
        ColumnType::Int32
    } else if text_same(name, "Int64") {
        ColumnType::Int64
    } else if text_same(name, "UInt8") {
        ColumnType::UInt8
    } else if text_same(name, "UInt16") {
        ColumnType::UInt16
    } else if text_same(name, "UInt32") {
        ColumnType::UInt32
    } else if text_same(name, "UInt64") {
        ColumnType::UInt64
    } else if text_same(name, "Float32") {
        ColumnType::Float32
    } else if text_same(name, "Float64") {
        ColumnType::Float64
    } else if text_same(name, "Boolean") {
        ColumnType::Boolean
    } else if text_same(name, "Date32") {
        ColumnType::Date32
    } else if text_same(name, "Date64") {
        ColumnType::Date64
    } else if text_same(name, "Timestamp(Second, None)") {
        ColumnType::TimestampSecond
    } else if text_same(name, "Timestamp(Millisecond, None)") {
        ColumnType::TimestampMillis
    } else if text_same(name, "Timestamp(Microsecond, None)") {
        ColumnType::TimestampMicros
    } else if text_same(name, "Timestamp(Nanosecond, None)") {
        ColumnType::TimestampNanos
    } else if text_same(name, "Utf8") {
        ColumnType::Utf8
    } else if text_same(name, "LargeUtf8") {
        ColumnType::LargeUtf8
    } else if text_same(name, "Binary") {
        ColumnType::Binary
    } else if text_same(name, "LargeBinary") {
        ColumnType::LargeBinary
    } else {
        ColumnType::Other
    }
}

/// Where in a buffer the item at a place starts, if the buffer holds it and the
/// items that follow, `count` in all.
fn buffer_items(buffer: &Vec<u8>, at: u128, count: u128, width: usize) -> (r: Option<usize>)
    requires
        at <= 0x2_0000_0000_0000_0000,
        1 <= count <= 2,
        1 <= width <= 8,
    ensures
        match r {
            Some(from) => from == at * width && (at + count) * width <= buffer@.len() && buffer@.len()
                <= usize::MAX,
            None => (at + count) * width > buffer@.len(),
        },
{
    assert(0 <= (at + count) * width <= 0x2_0000_0000_0000_0002 * 8) by (nonlinear_arith)
        requires
            0 <= at <= 0x2_0000_0000_0000_0000,
            1 <= count <= 2,
            1 <= width <= 8,
    ;
    let end: u128 = (at + count) * (width as u128);
    if end > buffer.len() as u128 {
        return None;
    }
    assert(0 <= at * width <= (at + count) * width) by (nonlinear_arith)
        requires
            count >= 1,
            width >= 1,
            at >= 0,
    ;
    Some((at * (width as u128)) as usize)
}

/// Reads the value at a place in the buffers of a column.
fn read_value(dtype: ColumnType, buffers: &Vec<Vec<u8>>, at: u128) -> (r: Option<Vec<u8>>)
    requires
        at <= 0x2_0000_0000_0000_0000,
    ensures
        cell_view(r) == buffer_value(dtype, buffers_view(buffers@), at as int),
{
    let ghost views = buffers_view(buffers@);
    let width: usize = match dtype.kind() {
        CellKind::Signed { width } => width,
        CellKind::Unsigned { width } => width,
        CellKind::Float { width } => width,
        CellKind::Truth => {
            if buffers.len() == 0 || at / 8 >= buffers[0].len() as u128 {
                return None;
            }
            let bit: u8 = (buffers[0][(at / 8) as usize] >> ((at % 8) as u8)) & 1;
            let mut r: Vec<u8> = Vec::new();
            r.push(bit);
            assert(views[0] == buffers@[0]@);
            assert(r@ =~= seq![bit]);
            return Some(r);
        },
        CellKind::Text => return read_text(dtype, buffers, at),
        CellKind::Bytes => return read_text(dtype, buffers, at),
        CellKind::Opaque => return None,
    };
    if buffers.len() == 0 {
        return None;
    }
    assert(views[0] == buffers@[0]@);
    match buffer_items(&buffers[0], at, 1, width) {
        None => None,
        Some(from) => {
            assert((at + 1) * width == at * width + width) by (nonlinear_arith);
            Some(bytes_range(buffers[0].as_slice(), from, from + width))
        },
    }
}

/// Reads the value between two offsets.
fn read_text(dtype: ColumnType, buffers: &Vec<Vec<u8>>, at: u128) -> (r: Option<Vec<u8>>)
    requires
        at <= 0x2_0000_0000_0000_0000,
        kind_of(dtype) is Text || kind_of(dtype) is Bytes,
    ensures
        cell_view(r) == buffer_value(dtype, buffers_view(buffers@), at as int),
{
    let ghost views = buffers_view(buffers@);
    if buffers.len() < 2 {
        return None;
    }
    assert(views[0] == buffers@[0]@);
    assert(views[1] == buffers@[1]@);
    let width: usize = match dtype {
        ColumnType::LargeUtf8 => 8,
        ColumnType::LargeBinary => 8,
        _ => 4,
    };
    assert(width == offset_width(dtype));
    let start: usize = match buffer_items(&buffers[0], at, 2, width) {
        None => return None,
        Some(s) => s,
    };
    proof {
        assert((at + 2) * width == at * width + width + width) by (nonlinear_arith);
        assert((at + 1) * width == at * width + width) by (nonlinear_arith);
    }
    let from: u64 = get_le(buffers[0].as_slice(), start, width);
    let to: u64 = get_le(buffers[0].as_slice(), start + width, width);
    if from > to || to > buffers[1].len() as u64 {
        return None;
    }
    let value = bytes_range(buffers[1].as_slice(), from as usize, to as usize);
    if !cell_fits(dtype, value.as_slice()) {
        return None;
    }
    Some(value)
}

/// Reads the column of an IPC file.
pub fn decode_ipc_column(bytes: &[u8]) -> (r: Result<Column, RockDuckError>)
    ensures
        match r {
            Ok(c) => c.wf() && column_in(bytes@) == Ok::<ColumnView, RockDuckError>(c@),
            Err(e) => column_in(bytes@) == Err::<ColumnView, RockDuckError>(e),
        },
{
    if !is_well_laid(bytes) {
        return Err(RockDuckError::Arrow);
    }
    let (name, valid, buffers, offset) = match ipc_read(bytes) {
        Ok(parts) => parts,
        Err(_) => return Err(RockDuckError::Arrow),
    };
    match read_column(&name, &valid, &buffers, offset) {
        Some(c) => Ok(c),
        None => Err(RockDuckError::Unimplemented),
    }
}

/// Reads a column out of its buffers.
pub fn read_column(name: &String, valid: &Vec<bool>, buffers: &Vec<Vec<u8>>, offset: usize) -> (r:
    Option<Column>)
    ensures
        ({
            let dtype = named_type(name@);
            let views = buffers_view(buffers@);
            match r {
                Some(c) => c.wf() && dtype != ColumnType::Other && reaches(
                    dtype,
                    valid@,
                    views,
                    offset as nat,
                ) && c@ == (ColumnView {
                    dtype,
                    cells: buffer_cells(dtype, valid@, views, offset as nat),
                }),
                None => dtype == ColumnType::Other || !reaches(dtype, valid@, views, offset as nat),
            }
        }),
{
    let dtype = type_named(name);
    if dtype == ColumnType::Other {
        return None;
    }
    let ghost views = buffers_view(buffers@);
    let mut cells: Vec<Option<Vec<u8>>> = Vec::new();
    let mut i: usize = 0;
    while i < valid.len()
        invariant
            i <= valid@.len(),
            cells@.len() == i,
            dtype == named_type(name@),
            views == buffers_view(buffers@),
            forall|j: int|
                #![trigger cells@[j]]
                0 <= j < i ==> cell_view(cells@[j]) == if valid@[j] {
                    buffer_value(dtype, views, offset + j)
                } else {
                    None
                },
            forall|j: int|
                #![trigger valid@[j]]
                0 <= j < i && valid@[j] ==> buffer_value(dtype, views, offset + j) is Some,
        decreases valid@.len() - i,
    {
        let cell = if valid[i] {
            match read_value(dtype, buffers, offset as u128 + i as u128) {
                None => return None,
                Some(v) => Some(v),
            }
        } else {
            None
        };
        cells.push(cell);
        i = i + 1;
    }
    let c = Column { dtype, cells };
    proof {
        assert(c@.cells =~= buffer_cells(dtype, valid@, views, offset as nat));
        assert forall|j: int| #![trigger c@.cells[j]] 0 <= j < c@.cells.len() implies match c@.cells[j] {
            Some(b) => fits(dtype, b),
            None => true,
        } by {
            lemma_buffer_value_fits(dtype, views, offset + j);
        }
    }
    Some(c)
}

/// A value read out of a buffer is of its type.
proof fn lemma_buffer_value_fits(dtype: ColumnType, buffers: Seq<Seq<u8>>, at: int)
    requires
        at >= 0,
    ensures
        buffer_value(dtype, buffers, at) matches Some(b) ==> fits(dtype, b),
{
    match kind_of(dtype) {
        CellKind::Signed { width } | CellKind::Unsigned { width } | CellKind::Float { width } => {
            assert((at + 1) * width == at * width + width) by (nonlinear_arith);
            assert(at * width >= 0) by (nonlinear_arith)
                requires
                    at >= 0,
                    width >= 0,
            ;
        },
        CellKind::Truth => {
            if buffers.len() >= 1 && at / 8 < buffers[0].len() {
                let b = buffers[0][at / 8];
                let k = (at % 8) as u8;
                assert((b >> k) & 1 <= 1) by (bit_vector);
            }
        },
        _ => {},
    }
}

/// A decoded column: its number of rows, and its cells when it is binary.
pub struct IpcColumn {
    pub rows: usize,
    pub binary: Option<Vec<Option<Vec<u8>>>>,
}

impl IpcColumn {
    /// A copy of the cell at an index: `None` past the end, at a null, and in a
    /// column that is not binary.
    pub fn cell(&self, index: usize) -> (r: Option<Vec<u8>>)
        requires
            self.binary matches Some(cells) ==> cells@.len() == self.rows,
        ensures
            cell_view(r) == match self.binary {
                Some(cells) => if index < self.rows {
                    cell_view(cells@[index as int])
                } else {
                    None
                },
                None => None,
            },
    {
        match &self.binary {
            Some(cells) => if index < self.rows {
                match &cells[index] {
                    Some(bytes) => Some(bytes_copy(bytes.as_slice())),
                    None => None,
                }
            } else {
                None
            },
            None => None,
        }
    }
}

pub proof fn lemma_cells_size_mono(cells: Seq<Option<Seq<u8>>>, n: int)
    requires
        0 <= n <= cells.len(),
    ensures
        cells_size(cells.take(n)) <= cells_size(cells),
    decreases cells.len(),
{
    if n == cells.len() {
        assert(cells.take(n) =~= cells);
    } else {
        lemma_cells_size_mono(cells.drop_last(), n);
        assert(cells.drop_last().take(n) =~= cells.take(n));
    }
}

/// Whether Arrow can address the bytes of all cells in one binary column.
pub fn cells_fit(cells: &Vec<Option<Vec<u8>>>) -> (r: bool)
    ensures
        r == (cells_size(cells_view(cells@)) <= i32::MAX),
{
    let ghost views = cells_view(cells@);
    let mut total: u64 = 0;
    let mut i: usize = 0;
    assert(views.take(0) =~= Seq::empty());
    while i < cells.len()
        invariant
            i <= cells@.len(),
            views == cells_view(cells@),
            total == cells_size(views.take(i as int)),
            total <= i32::MAX,
        decreases cells@.len() - i,
    {
        let size: u64 = match &cells[i] {
            Some(b) => b.len() as u64,
            None => 0,
        };
        proof {
            assert(views.take(i + 1).drop_last() =~= views.take(i as int));
            lemma_cells_size_mono(views, i + 1);
        }
        if size > 0x7fff_ffff - total {
            return false;
        }
        total = total + size;
        i = i + 1;
    }
    assert(views.take(i as int) =~= views);
    true
}

/// The bytes of an IPC file that holds one binary column.
pub fn encode_arrow_array(cells: &Vec<Option<Vec<u8>>>) -> (r: Result<Vec<u8>, RockDuckError>)
    ensures
        match r {
            Ok(bytes) => ipc_column(bytes@) == Some((cells@.len(), Some(cells_view(cells@))))
                && cells_size(cells_view(cells@)) <= i32::MAX,
            Err(e) => cells_size(cells_view(cells@)) > i32::MAX && e == RockDuckError::TooLarge,
        },
{
    if !cells_fit(cells) {
        return Err(RockDuckError::TooLarge);
    }
    match ipc_write(cells) {
        Ok(bytes) => Ok(bytes),
        Err(_) => Err(RockDuckError::Arrow),
    }
}

/// Reads the first column of an IPC file.
pub fn decode_arrow_array(bytes: &[u8]) -> (r: Result<IpcColumn, RockDuckError>)
    ensures
        match r {
            Ok(c) => ipc_column(bytes@) == Some((c.rows as nat, binary_view(c.binary)))
                && (c.binary matches Some(cells) ==> cells@.len() == c.rows),
            Err(e) => ipc_column(bytes@) is None && e == RockDuckError::Arrow,
        },
{
    if !is_well_laid(bytes) {
        return Err(RockDuckError::Arrow);
    }
    match ipc_read(bytes) {
        Ok((name, valid, buffers, offset)) => {
            let rows: usize = valid.len();
            match read_column(&name, &valid, &buffers, offset) {
                Some(c) => if c.dtype == ColumnType::Binary {
                    assert(c@.cells.len() == rows);
                    Ok(IpcColumn { rows, binary: Some(c.cells) })
                } else {
                    Ok(IpcColumn { rows, binary: None })
                },
                None => Ok(IpcColumn { rows, binary: None }),
            }
        },
        Err(_) => Err(RockDuckError::Arrow),
    }
}

} // verus!
