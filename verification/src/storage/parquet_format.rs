//! Formats of data files, and files for exchange with other tools, which are in
//! Arrow's own form.
use vstd::prelude::*;
use crate::buffers::{column_fault, lemma_named_type, slots_laid, type_label, write_column};
use crate::column::{batch_rows, column_fits, Batch, BatchView, Column, ColumnType, ColumnView};
use crate::error::RockDuckError;
use crate::ipc::{buffer_cells, buffers_view, named_type, reaches, read_column};
use crate::ipc_layout::{is_well_laid, well_laid};
use arrow_array::{make_array, new_empty_array, Array, RecordBatch};
use arrow_ipc::writer::FileWriter;
use arrow_schema::{ArrowError, Schema};

verus! {

/// Format of the data files of a segment.
#[derive(Debug, Clone, Copy, PartialEq, Eq, Structural)]
pub enum StorageFormat {
    /// The format for data that is written often.
    Vortex,
    /// The format for exchange and for cold data.
    Parquet,
    /// The format of old files.
    ArrowIpc,
}

impl StorageFormat {
    /// The name of the format.
    pub open spec fn name(self) -> Seq<char> {
        match self {
            StorageFormat::Vortex => "vortex"@,
            StorageFormat::Parquet => "parquet"@,
            StorageFormat::ArrowIpc => "arrow_ipc"@,
        }
    }

    /// The name of the format.
    pub fn as_str(&self) -> (r: &'static str)
        ensures
            r@ == self.name(),
    {
        match self {
            StorageFormat::Vortex => "vortex",
            StorageFormat::Parquet => "parquet",
            StorageFormat::ArrowIpc => "arrow_ipc",
        }
    }
}

/// How a file for exchange is compressed.
#[derive(Debug, Clone, Copy, PartialEq, Eq, Structural)]
pub enum ParquetCompression {
    Snappy,
    Uncompressed,
}

/// How a file for exchange is written.
#[derive(Debug, Clone, Copy, PartialEq, Eq, Structural)]
pub struct ParquetWriterConfig {
    pub row_group_size: usize,
    pub compression: ParquetCompression,
    pub page_size: usize,
}

impl Default for ParquetWriterConfig {
    fn default() -> (r: Self)
        ensures
            r.row_group_size == 1048576,
            r.compression == ParquetCompression::Snappy,
            r.page_size == 8192,
    {
        ParquetWriterConfig {
            row_group_size: 1048576,
            compression: ParquetCompression::Snappy,
            page_size: 8192,
        }
    }
}

/// A column of a batch as it is read: its name, the name of its type, which of
/// its rows have a value, its buffers, and the place of its first row in them.
pub type RawColumn = (String, String, Vec<bool>, Vec<Vec<u8>>, usize);

/// What a column of a batch is as it is read.
pub open spec fn raw_view(c: RawColumn) -> (Seq<char>, Seq<char>, Seq<bool>, Seq<Seq<u8>>, nat) {
    (c.0@, c.1@, c.2@, buffers_view(c.3@), c.4 as nat)
}

/// What the columns of a batch are as they are read.
pub open spec fn raw_batch(b: Seq<RawColumn>) -> Seq<
    (Seq<char>, Seq<char>, Seq<bool>, Seq<Seq<u8>>, nat),
> {
    b.map_values(|c: RawColumn| raw_view(c))
}

/// What some batches are as they are read.
pub open spec fn raw_batches(list: Seq<Vec<RawColumn>>) -> Seq<
    Seq<(Seq<char>, Seq<char>, Seq<bool>, Seq<Seq<u8>>, nat)>,
> {
    list.map_values(|b: Vec<RawColumn>| raw_batch(b@))
}

/// What `arrow_ipc` reads from the bytes of a file: nothing when it refuses them;
/// else the batches, each with all its columns or with those at some places.
pub uninterp spec fn ipc_batches(bytes: Seq<u8>, projection: Option<Seq<usize>>) -> Option<
    Seq<Seq<(Seq<char>, Seq<char>, Seq<bool>, Seq<Seq<u8>>, nat)>>,
>;

/// The places of an optional list.
pub open spec fn places_view(projection: Option<Vec<usize>>) -> Option<Seq<usize>> {
    match projection {
        Some(p) => Some(p@),
        None => None,
    }
}

/// `arrow_ipc::reader::FileReader`, with the columns of each batch taken apart.
/// The reader takes the places that a file names in itself at their word, so the
/// file has to be well laid out.
#[verifier::external_body]
fn ipc_read_batches(bytes: &[u8], projection: Option<Vec<usize>>) -> (r: Result<
    Vec<Vec<RawColumn>>,
    arrow_schema::ArrowError,
>)
    requires
        well_laid(bytes@),
    ensures
        match r {
            Ok(list) => ipc_batches(bytes@, places_view(projection)) == Some(raw_batches(list@)),
            Err(_) => ipc_batches(bytes@, places_view(projection)) is None,
        },
{
    let reader = arrow_ipc::reader::FileReader::try_new(std::io::Cursor::new(bytes), projection)?;
    reader.map(|batch| {
        let b = batch?;
        Ok(b.schema().fields().iter().zip(b.columns()).map(|(f, c)| {
            let d = c.to_data();
            let valid = (0..c.len()).map(|i| c.is_valid(i)).collect();
            let buffers = d.buffers().iter().map(|x| x.to_vec()).collect();
            (f.name().clone(), format!("{:?}", c.data_type()), valid, buffers, d.offset())
        }).collect())
    }).collect()
}

/// Whether a column can be taken out of its buffers.
pub open spec fn readable(c: (Seq<char>, Seq<char>, Seq<bool>, Seq<Seq<u8>>, nat)) -> bool {
    let dtype = named_type(c.1);
    dtype != ColumnType::Other && reaches(dtype, c.2, c.3, c.4)
}

/// The column in some buffers.
pub open spec fn column_of(c: (Seq<char>, Seq<char>, Seq<bool>, Seq<Seq<u8>>, nat)) -> ColumnView {
    let dtype = named_type(c.1);
    ColumnView { dtype, cells: buffer_cells(dtype, c.2, c.3, c.4) }
}

/// Whether every column of a batch can be taken out of its buffers.
pub open spec fn batch_readable(
    b: Seq<(Seq<char>, Seq<char>, Seq<bool>, Seq<Seq<u8>>, nat)>,
) -> bool {
    forall|i: int| #![trigger b[i]] 0 <= i < b.len() ==> readable(b[i])
}

/// The batch in some buffers.
pub open spec fn batch_of(b: Seq<(Seq<char>, Seq<char>, Seq<bool>, Seq<Seq<u8>>, nat)>) -> BatchView {
    BatchView {
        names: Seq::new(b.len(), |i: int| b[i].0),
        columns: Seq::new(b.len(), |i: int| column_of(b[i])),
    }
}

/// The batches of a file, or why there are none.
pub open spec fn file_batches(bytes: Seq<u8>, projection: Option<Seq<usize>>) -> Result<
    Seq<BatchView>,
    RockDuckError,
> {
    if !well_laid(bytes) {
        Err(RockDuckError::ReadPath)
    } else {
        match ipc_batches(bytes, projection) {
            None => Err(RockDuckError::ReadPath),
            Some(list) => if forall|i: int|
                #![trigger list[i]]
                0 <= i < list.len() ==> batch_readable(list[i]) {
                Ok(Seq::new(list.len(), |i: int| batch_of(list[i])))
            } else {
                Err(RockDuckError::Unimplemented)
            },
        }
    }
}

/// What some batches hold.
pub open spec fn batch_views(list: Seq<Batch>) -> Seq<BatchView> {
    list.map_values(|b: Batch| b@)
}

/// Takes the columns of a batch out of their buffers.
pub fn assemble_batch(raw: &Vec<RawColumn>) -> (r: Option<Batch>)
    ensures
        match r {
            Some(b) => batch_readable(raw_batch(raw@)) && b@ == batch_of(raw_batch(raw@)),
            None => !batch_readable(raw_batch(raw@)),
        },
{
    let ghost view = raw_batch(raw@);
    let mut names: Vec<String> = Vec::new();
    let mut columns: Vec<Column> = Vec::new();
    let mut i: usize = 0;
    while i < raw.len()
        invariant
            view == raw_batch(raw@),
            i <= raw@.len(),
            names@.len() == i,
            columns@.len() == i,
            forall|k: int|
                #![trigger view[k]]
                0 <= k < i ==> readable(view[k]) && names@[k]@ == view[k].0 && columns@[k]@
                    == column_of(view[k]),
        decreases raw@.len() - i,
    {
        let c = &raw[i];
        assert(view[i as int] == raw_view(*c));
        match read_column(&c.1, &c.2, &c.3, c.4) {
            Some(column) => {
                names.push(c.0.clone());
                columns.push(column);
            },
            None => {
                assert(!readable(view[i as int]));
                return None;
            },
        }
        i = i + 1;
    }
    let b = Batch { names, columns };
    proof {
        assert(b@.names =~= batch_of(view).names);
        assert(b@.columns =~= batch_of(view).columns);
    }
    Some(b)
}

fn read_batches(bytes: &[u8], projection: Option<Vec<usize>>) -> (r: Result<
    Vec<Batch>,
    RockDuckError,
>)
    ensures
        match r {
            Ok(list) => file_batches(bytes@, places_view(projection)) == Ok::<
                Seq<BatchView>,
                RockDuckError,
            >(batch_views(list@)),
            Err(e) => file_batches(bytes@, places_view(projection)) == Err::<
                Seq<BatchView>,
                RockDuckError,
            >(e),
        },
{
    let ghost places = places_view(projection);
    if !is_well_laid(bytes) {
        return Err(RockDuckError::ReadPath);
    }
    let raw = match ipc_read_batches(bytes, projection) {
        Ok(list) => list,
        Err(_) => {
            return Err(RockDuckError::ReadPath);
        },
    };
    let ghost view = raw_batches(raw@);
    let mut list: Vec<Batch> = Vec::new();
    let mut i: usize = 0;
    while i < raw.len()
        invariant
            view == raw_batches(raw@),
            places == places_view(projection),
            well_laid(bytes@),
            ipc_batches(bytes@, places) == Some(view),
            i <= raw@.len(),
            list@.len() == i,
            forall|k: int|
                #![trigger view[k]]
                0 <= k < i ==> batch_readable(view[k]) && list@[k]@ == batch_of(view[k]),
        decreases raw@.len() - i,
    {
        assert(view[i as int] == raw_batch(raw@[i as int]@));
        match assemble_batch(&raw[i]) {
            Some(b) => {
                list.push(b);
            },
            None => {
                assert(!batch_readable(view[i as int]));
                return Err(RockDuckError::Unimplemented);
            },
        }
        i = i + 1;
    }
    assert(batch_views(list@) =~= Seq::new(view.len(), |k: int| batch_of(view[k])));
    Ok(list)
}

/// Whether the one batch that is read from the bytes of a file is this one.
pub open spec fn holds_batch(bytes: Seq<u8>, b: BatchView) -> bool {
    file_batches(bytes, None) == Ok::<Seq<BatchView>, RockDuckError>(seq![b])
}

/// How many letters some names have together.
pub open spec fn names_size(names: Seq<Seq<char>>) -> nat
    decreases names.len(),
{
    if names.len() == 0 {
        0
    } else {
        names_size(names.drop_last()) + names.last().len()
    }
}

/// The most columns of a batch that is written: the footer of a file can tell of
/// some more.
pub const MAX_COLUMNS: usize = 65536;

/// The most letters of the names of the columns of a batch that is written: the
/// footer of a file can hold some more.
pub const MAX_NAMES: usize = 16777216;

/// Whether a batch is not too wide to be told of in the footer of a file.
pub open spec fn not_too_wide(names: Seq<Seq<char>>) -> bool {
    names.len() <= MAX_COLUMNS && names_size(names) <= MAX_NAMES
}

/// Whether the columns of a batch fill their buffers, each with as many rows.
pub open spec fn batch_laid_out(
    b: Seq<(Seq<char>, Seq<char>, Seq<bool>, Seq<Seq<u8>>, nat)>,
    rows: nat,
) -> bool {
    forall|i: int|
        #![trigger b[i]]
        0 <= i < b.len() ==> b[i].4 == 0 && b[i].2.len() == rows && slots_laid(
            named_type(b[i].1),
            rows,
            b[i].3,
        )
}

/// `arrow_ipc::writer::FileWriter` on one batch that `arrow_array` puts together
/// from the buffers of its columns: the bytes of a well laid out file from which
/// `arrow_ipc::reader::FileReader` reads that one batch back. Arrow takes buffers
/// that are laid out as it lays them out itself, and writing to memory does not
/// fail. A batch that is put together so has a column.
#[verifier::external_body]
fn ipc_write_batch(columns: Vec<RawColumn>) -> (r: Result<Vec<u8>, arrow_schema::ArrowError>)
    requires
        columns@.len() > 0,
        batch_laid_out(raw_batch(columns@), columns@[0].2@.len()),
        not_too_wide(batch_of(raw_batch(columns@)).names),
    ensures
        r is Ok,
        r matches Ok(bytes) ==> holds_batch(bytes@, batch_of(raw_batch(columns@))),
{
    let arrays = columns.into_iter().map(|(name, dtype, valid, buffers, _)| {
        let data = new_empty_array(&dtype.parse()?).to_data().into_builder().len(valid.len());
        let data = data.nulls(Some(valid.into())).align_buffers(true);
        let data = data.buffers(buffers.into_iter().map(|b| b.into()).collect());
        Ok((name, make_array(data.build()?)))
    });
    let arrays: Result<Vec<_>, ArrowError> = arrays.collect();
    let batch = RecordBatch::try_from_iter(arrays?)?;
    let mut writer = FileWriter::try_new(Vec::new(), &batch.schema())?;
    writer.write(&batch)?;
    writer.into_inner()
}

/// `arrow_ipc::writer::FileWriter` on a batch without columns: the bytes of a well
/// laid out file from which that batch is read back.
#[verifier::external_body]
fn ipc_write_no_columns() -> (r: Result<Vec<u8>, arrow_schema::ArrowError>)
    ensures
        r is Ok,
        r matches Ok(bytes) ==> holds_batch(
            bytes@,
            BatchView { names: Seq::empty(), columns: Seq::empty() },
        ),
{
    let batch = RecordBatch::new_empty(Schema::empty().into());
    let mut writer = FileWriter::try_new(Vec::new(), &batch.schema())?;
    writer.write(&batch)?;
    writer.into_inner()
}

/// Why a batch cannot be laid in buffers: what the first column is at fault for.
pub open spec fn batch_fault(columns: Seq<ColumnView>) -> Option<RockDuckError>
    decreases columns.len(),
{
    if columns.len() == 0 {
        None
    } else {
        match batch_fault(columns.drop_last()) {
            Some(e) => Some(e),
            None => column_fault(columns.last()),
        }
    }
}

/// A fault among the first columns of a batch is that of the batch.
proof fn lemma_first_fault(columns: Seq<ColumnView>, n: int)
    requires
        0 <= n <= columns.len(),
        batch_fault(columns.take(n)) is Some,
    ensures
        batch_fault(columns) == batch_fault(columns.take(n)),
    decreases columns.len(),
{
    if n == columns.len() {
        assert(columns.take(n) =~= columns);
    } else {
        assert(columns.drop_last().take(n) =~= columns.take(n));
        lemma_first_fault(columns.drop_last(), n);
    }
}

/// Whether a batch has a name for each column, and columns of one length whose
/// values are of their types.
pub open spec fn is_batch(b: BatchView) -> bool {
    &&& b.names.len() == b.columns.len()
    &&& forall|i: int|
        #![trigger b.columns[i]]
        0 <= i < b.columns.len() ==> column_fits(b.columns[i]) && b.columns[i].cells.len() == batch_rows(b)
}

/// Lays the columns of a batch in buffers, out of which the same batch is taken.
pub fn disassemble_batch(batch: &Batch) -> (r: Result<Vec<RawColumn>, RockDuckError>)
    requires
        is_batch(batch@),
    ensures
        match r {
            Ok(raw) => batch_fault(batch@.columns) is None && batch_readable(raw_batch(raw@))
                && batch_of(raw_batch(raw@)) == batch@ && batch_laid_out(
                raw_batch(raw@),
                batch_rows(batch@),
            ),
            Err(e) => batch_fault(batch@.columns) == Some(e),
        },
{
    let ghost columns = batch@.columns;
    let mut raw: Vec<RawColumn> = Vec::new();
    let mut i: usize = 0;
    assert(columns.take(0) =~= Seq::empty());
    while i < batch.columns.len()
        invariant
            columns == batch@.columns,
            i <= batch.columns@.len() == columns.len(),
            batch.names@.len() == batch.columns@.len(),
            is_batch(batch@),
            raw@.len() == i,
            batch_fault(columns.take(i as int)) is None,
            forall|k: int|
                #![trigger raw@[k]]
                0 <= k < i ==> raw@[k].4 == 0 && readable(raw_view(raw@[k])) && raw@[k].0@
                    == batch.names@[k]@ && column_of(raw_view(raw@[k])) == columns[k] && slots_laid(
                    named_type(raw@[k].1@),
                    columns[k].cells.len(),
                    buffers_view(raw@[k].3@),
                ),
        decreases batch.columns@.len() - i,
    {
        let c = &batch.columns[i];
        proof {
            assert(batch@.columns[i as int] == c@);
            assert(columns.take(i + 1).drop_last() =~= columns.take(i as int));
            assert(columns.take(i + 1).last() == c@);
        }
        match write_column(c) {
            Ok((valid, buffers)) => {
                let label = type_label(c.dtype);
                proof {
                    lemma_named_type(c.dtype);
                }
                raw.push((batch.names[i].clone(), label.to_string(), valid, buffers, 0));
                assert(column_of(raw_view(raw@[i as int])).cells =~= columns[i as int].cells);
            },
            Err(e) => {
                proof {
                    lemma_first_fault(columns, i + 1);
                }
                return Err(e);
            },
        }
        i = i + 1;
    }
    proof {
        assert(columns.take(i as int) =~= columns);
        let view = raw_batch(raw@);
        assert forall|k: int| #![trigger view[k]] 0 <= k < view.len() implies readable(view[k])
            && view[k].4 == 0 && view[k].2.len() == batch_rows(batch@) && slots_laid(
            named_type(view[k].1),
            batch_rows(batch@),
            view[k].3,
        ) by {
            assert(view[k] == raw_view(raw@[k]));
            assert(column_of(view[k]).cells.len() == columns[k].cells.len());
            assert(batch@.columns[k].cells.len() == batch_rows(batch@));
        }
        assert(batch_of(view).names =~= batch@.names) by {
            assert forall|k: int| 0 <= k < view.len() implies #[trigger] batch_of(view).names[k]
                == batch@.names[k] by {
                assert(view[k] == raw_view(raw@[k]));
            }
        }
        assert(batch_of(view).columns =~= batch@.columns) by {
            assert forall|k: int| 0 <= k < view.len() implies #[trigger] batch_of(view).columns[k]
                == batch@.columns[k] by {
                assert(view[k] == raw_view(raw@[k]));
            }
        }
    }
    Ok(raw)
}

/// Why a batch cannot be written: it is too wide, or a column is at fault.
pub open spec fn write_fault(b: BatchView) -> Option<RockDuckError> {
    if !not_too_wide(b.names) {
        Some(RockDuckError::Write)
    } else {
        batch_fault(b.columns)
    }
}

proof fn lemma_names_size_mono(names: Seq<Seq<char>>, n: int)
    requires
        0 <= n <= names.len(),
    ensures
        names_size(names.take(n)) <= names_size(names),
    decreases names.len(),
{
    if n == names.len() {
        assert(names.take(n) =~= names);
    } else {
        lemma_names_size_mono(names.drop_last(), n);
        assert(names.drop_last().take(n) =~= names.take(n));
    }
}

/// Whether a batch is not too wide to be told of in the footer of a file.
fn names_fit(batch: &Batch) -> (r: bool)
    ensures
        r == not_too_wide(batch@.names),
{
    let ghost names = batch@.names;
    if batch.names.len() > MAX_COLUMNS {
        return false;
    }
    let mut total: usize = 0;
    let mut i: usize = 0;
    assert(names.take(0) =~= Seq::empty());
    while i < batch.names.len()
        invariant
            names == batch@.names,
            i <= batch.names@.len() == names.len(),
            total == names_size(names.take(i as int)),
            total <= MAX_NAMES,
        decreases batch.names@.len() - i,
    {
        let more: usize = batch.names[i].as_str().unicode_len();
        proof {
            assert(names[i as int] == batch.names@[i as int]@);
            assert(names.take(i + 1).drop_last() =~= names.take(i as int));
            lemma_names_size_mono(names, i + 1);
        }
        if more > MAX_NAMES - total {
            return false;
        }
        total = total + more;
        i = i + 1;
    }
    assert(names.take(i as int) =~= names);
    true
}

/// The bytes of a file for exchange that holds one batch, which is read back from
/// it. How large groups and pages are, and the compression, have no bearing on
/// Arrow's own form.
pub fn write_parquet_batch(batch: &Batch, _config: &ParquetWriterConfig) -> (r: Result<
    Vec<u8>,
    RockDuckError,
>)
    requires
        is_batch(batch@),
    ensures
        match r {
            Ok(bytes) => write_fault(batch@) is None && holds_batch(bytes@, batch@),
            Err(e) => write_fault(batch@) == Some(e),
        },
{
    if !names_fit(batch) {
        return Err(RockDuckError::Write);
    }
    let raw = match disassemble_batch(batch) {
        Ok(raw) => raw,
        Err(e) => {
            return Err(e);
        },
    };
    let written = if raw.len() == 0 {
        proof {
            let view = raw_batch(raw@);
            assert(batch@.names =~= Seq::empty());
            assert(batch@.columns =~= Seq::empty());
        }
        ipc_write_no_columns()
    } else {
        proof {
            let view = raw_batch(raw@);
            assert(view[0] == raw_view(raw@[0]));
        }
        ipc_write_batch(raw)
    };
    match written {
        Ok(bytes) => Ok(bytes),
        Err(_) => Err(RockDuckError::Write),
    }
}

/// Reads the batches of a file for exchange.
pub fn read_parquet_file(bytes: &[u8]) -> (r: Result<Vec<Batch>, RockDuckError>)
    ensures
        match r {
            Ok(list) => file_batches(bytes@, None) == Ok::<Seq<BatchView>, RockDuckError>(
                batch_views(list@),
            ),
            Err(e) => file_batches(bytes@, None) == Err::<Seq<BatchView>, RockDuckError>(e),
        },
{
    read_batches(bytes, None)
}

/// The places of some columns; without any, none.
pub open spec fn places(projection: Option<Seq<i32>>) -> Seq<usize> {
    match projection {
        Some(p) => Seq::new(p.len(), |i: int| p[i] as usize),
        None => Seq::empty(),
    }
}

/// The places of an optional slice.
pub open spec fn chosen(projection: Option<&[i32]>) -> Option<Seq<i32>> {
    match projection {
        Some(p) => Some(p@),
        None => None,
    }
}

/// Reads the batches of a file for exchange, each with the columns at some places.
pub fn read_parquet_file_projected(bytes: &[u8], projection: Option<&[i32]>) -> (r: Result<
    Vec<Batch>,
    RockDuckError,
>)
    ensures
        match r {
            Ok(list) => file_batches(bytes@, Some(places(chosen(projection)))) == Ok::<
                Seq<BatchView>,
                RockDuckError,
            >(batch_views(list@)),
            Err(e) => file_batches(bytes@, Some(places(chosen(projection)))) == Err::<
                Seq<BatchView>,
                RockDuckError,
            >(e),
        },
{
    let mut indices: Vec<usize> = Vec::new();
    if let Some(p) = projection {
        let mut i: usize = 0;
        while i < p.len()
            invariant
                i <= p@.len(),
                indices@ == Seq::new(i as nat, |k: int| p@[k] as usize),
            decreases p@.len() - i,
        {
            indices.push(p[i] as usize);
            i = i + 1;
        }
    }
    assert(indices@ =~= places(chosen(projection)));
    read_batches(bytes, Some(indices))
}

/// A whole table is not exported at once: its segments are, one by one.
pub fn export_table_to_parquet(_table: &str, _output_dir: &str) -> (r: Result<
    Vec<String>,
    RockDuckError,
>)
    ensures
        r matches Err(e) && e == RockDuckError::Unimplemented,
{
    Err(RockDuckError::Unimplemented)
}

} // verus!
