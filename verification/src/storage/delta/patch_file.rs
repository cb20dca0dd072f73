//! Patch files: a header of 64 bytes, then records.
//!
//! ```text
//! header:  magic u32, 60 zero bytes
//! record:  patch_id u64, txn_start u64, txn_end u64, format u8,
//!          affected u32, payload_len u32, payload
//! ```
use vstd::prelude::*;
use std::sync::Arc;
use crate::bitmap::{bitmap_contains, bitmap_deserialize, bitmap_list, lemma_listing, listing, portable_rows};
use crate::codec::{bytes_append, bytes_range, get_le, le_bytes, lemma_le_len, lemma_le_round_trip, lemma_pow256, put_le};
use crate::error::{DeltaFault, RockDuckError};
use crate::ipc::{binary_view, cell_view, cells_view, decode_arrow_array, ipc_column, IpcColumn};
use crate::storage::delta::mem_store::select;
use crate::storage::delta::sparsity::value_at;
use crate::storage::delta::types::{cell_views, le_u32_at, le_u64_at, parse_payload, CellView, DeltaCell, DeltaPatchFormat, FormatView};

verus! {

/// Magic number at the start of every patch file.
pub const DELTA_FILE_MAGIC: u32 = 0x44504C54;

/// Largest plausible payload: 256 MB.
pub const MAX_PAYLOAD_SIZE: u64 = 268_435_456;

/// The header of a patch file.
pub open spec fn file_header() -> Seq<u8> {
    le_bytes(DELTA_FILE_MAGIC as nat, 4) + Seq::new(60, |i: int| 0u8)
}

/// A record of a patch file.
pub open spec fn record_bytes(
    patch_id: u64,
    txn_range: (u64, u64),
    flag: u8,
    affected: nat,
    payload: Seq<u8>,
) -> Seq<u8> {
    le_bytes(patch_id as nat, 8) + le_bytes(txn_range.0 as nat, 8) + le_bytes(
        txn_range.1 as nat,
        8,
    ) + seq![flag] + le_bytes(affected, 4) + le_bytes(payload.len(), 4) + payload
}

/// Whether a file is long enough for a header and starts with another number.
pub open spec fn bad_magic(file: Seq<u8>) -> bool {
    file.len() >= 64 && le_u32_at(file, 0) != DELTA_FILE_MAGIC
}

/// What a record holds.
#[verifier::ext_equal]
pub struct RecordView {
    pub offset: nat,
    pub patch_id: u64,
    pub txn_start: u64,
    pub txn_end: u64,
    pub payload: Seq<u8>,
}

impl RecordView {
    /// Where the next record starts.
    pub open spec fn end(self) -> nat {
        self.offset + 33 + self.payload.len()
    }
}

/// The record at an offset: `None` at the end of the file or where a record
/// header is cut short, a fault where the payload length is implausible.
pub open spec fn record_at(file: Seq<u8>, offset: nat) -> Option<Result<RecordView, DeltaFault>> {
    if file.len() < offset + 33 {
        None
    } else {
        let size = le_u32_at(file, offset as int + 29);
        let remaining = (file.len() - offset - 33) as nat;
        if size > MAX_PAYLOAD_SIZE {
            Some(
                Err(DeltaFault::ImplausiblePayload { offset: offset as u64, size: size as u64 }),
            )
        } else if size > remaining {
            Some(
                Err(
                    DeltaFault::PayloadOverrun {
                        offset: offset as u64,
                        size: size as u64,
                        remaining: remaining as u64,
                    },
                ),
            )
        } else {
            Some(
                Ok(
                    RecordView {
                        offset,
                        patch_id: le_u64_at(file, offset as int) as u64,
                        txn_start: le_u64_at(file, offset as int + 8) as u64,
                        txn_end: le_u64_at(file, offset as int + 16) as u64,
                        payload: file.subrange(offset as int + 33, offset + 33 + size as int),
                    },
                ),
            )
        }
    }
}

/// A record located in a file.
pub(crate) struct Record {
    pub(crate) patch_id: u64,
    pub(crate) txn_start: u64,
    pub(crate) txn_end: u64,
    pub(crate) payload: Vec<u8>,
}

impl Record {
    pub(crate) open spec fn is(&self, v: RecordView) -> bool {
        &&& self.patch_id == v.patch_id
        &&& self.txn_start == v.txn_start
        &&& self.txn_end == v.txn_end
        &&& self.payload@ == v.payload
    }
}

/// Reads the record at an offset.
pub(crate) fn read_record(file: &[u8], offset: usize) -> (r: Option<Result<Record, DeltaFault>>)
    ensures
        match r {
            None => record_at(file@, offset as nat) is None,
            Some(Err(f)) => record_at(file@, offset as nat) == Some(
                Err::<RecordView, DeltaFault>(f),
            ),
            Some(Ok(rec)) => record_at(file@, offset as nat) matches Some(Ok(v)) && rec.is(v)
                && v.end() <= file@.len() && v.offset == offset,
        },
{
    let len: usize = file.len();
    if len < 33 || len - 33 < offset {
        return None;
    }
    proof {
        lemma_pow256();
    }
    let size: u64 = get_le(file, offset + 29, 4);
    let remaining: usize = len - offset - 33;
    if size > MAX_PAYLOAD_SIZE {
        return Some(Err(DeltaFault::ImplausiblePayload { offset: offset as u64, size }));
    }
    if size > remaining as u64 {
        return Some(
            Err(
                DeltaFault::PayloadOverrun {
                    offset: offset as u64,
                    size,
                    remaining: remaining as u64,
                },
            ),
        );
    }
    let patch_id: u64 = get_le(file, offset, 8);
    let txn_start: u64 = get_le(file, offset + 8, 8);
    let txn_end: u64 = get_le(file, offset + 16, 8);
    let from: usize = offset + 33;
    let payload = bytes_range(file, from, from + size as usize);
    Some(Ok(Record { patch_id, txn_start, txn_end, payload }))
}

/// Whether a file is long enough for a header and starts with another number;
/// gives back that number.
pub(crate) fn check_magic(file: &[u8]) -> (r: Result<(), DeltaFault>)
    ensures
        match r {
            Ok(_) => !bad_magic(file@),
            Err(f) => bad_magic(file@) && f == DeltaFault::BadMagic(le_u32_at(file@, 0) as u32),
        },
{
    if file.len() < 64 {
        return Ok(());
    }
    proof {
        lemma_pow256();
    }
    let magic: u64 = get_le(file, 0, 4);
    if magic != DELTA_FILE_MAGIC as u64 {
        Err(DeltaFault::BadMagic(magic as u32))
    } else {
        Ok(())
    }
}

/// The header of a new patch file.
pub(crate) fn new_file() -> (r: Vec<u8>)
    ensures
        r@ == file_header(),
{
    let mut buf: Vec<u8> = Vec::new();
    put_le(&mut buf, DELTA_FILE_MAGIC as u64, 4);
    let ghost magic = le_bytes(DELTA_FILE_MAGIC as nat, 4);
    assert(buf@ =~= magic);
    let mut i: usize = 0;
    while i < 60
        invariant
            i <= 60,
            buf@ =~= magic + Seq::new(i as nat, |k: int| 0u8),
        decreases 60 - i,
    {
        buf.push(0u8);
        i = i + 1;
    }
    buf
}

/// Appends a record to a file.
pub(crate) fn append_record(
    file: &mut Vec<u8>,
    patch_id: u64,
    txn_range: (u64, u64),
    flag: u8,
    affected: u64,
    payload: &[u8],
)
    ensures
        final(file)@ == old(file)@ + record_bytes(
            patch_id,
            txn_range,
            flag,
            affected as nat,
            payload@,
        ),
{
    let ghost start = file@;
    put_le(file, patch_id, 8);
    put_le(file, txn_range.0, 8);
    put_le(file, txn_range.1, 8);
    file.push(flag);
    put_le(file, affected, 4);
    put_le(file, payload.len() as u64, 4);
    bytes_append(file, payload);
    assert(file@ =~= start + record_bytes(
        patch_id,
        txn_range,
        flag,
        affected as nat,
        payload@,
    ));
}

/// A record that was appended is read back at the old end of the file, and
/// every record before it reads as before.
pub proof fn law_appended_record_reads_back(
    file: Seq<u8>,
    patch_id: u64,
    txn_range: (u64, u64),
    flag: u8,
    affected: nat,
    payload: Seq<u8>,
    offset: nat,
)
    requires
        payload.len() <= MAX_PAYLOAD_SIZE,
        offset <= file.len(),
    ensures
        ({
            let grown = file + record_bytes(patch_id, txn_range, flag, affected, payload);
            &&& record_at(grown, file.len()) == Some(
                Ok::<RecordView, DeltaFault>(
                    RecordView {
                        offset: file.len(),
                        patch_id,
                        txn_start: txn_range.0,
                        txn_end: txn_range.1,
                        payload,
                    },
                ),
            )
            &&& record_at(file, offset) matches Some(Ok(_)) ==> record_at(grown, offset)
                == record_at(file, offset)
        }),
{
    let rec = record_bytes(patch_id, txn_range, flag, affected, payload);
    let grown = file + rec;
    let n = file.len() as int;
    lemma_pow256();
    lemma_le_round_trip(patch_id as nat, 8);
    lemma_le_round_trip(txn_range.0 as nat, 8);
    lemma_le_round_trip(txn_range.1 as nat, 8);
    lemma_le_len(affected, 4);
    lemma_le_round_trip(payload.len(), 4);
    assert(grown.subrange(n, n + 8) =~= le_bytes(patch_id as nat, 8));
    assert(grown.subrange(n + 8, n + 16) =~= le_bytes(txn_range.0 as nat, 8));
    assert(grown.subrange(n + 16, n + 24) =~= le_bytes(txn_range.1 as nat, 8));
    assert(grown.subrange(n + 29, n + 33) =~= le_bytes(payload.len(), 4));
    assert(grown.subrange(n + 33, n + 33 + payload.len()) =~= payload);
    if record_at(file, offset) matches Some(Ok(v)) {
        let o = offset as int;
        assert(grown.subrange(o, o + 8) =~= file.subrange(o, o + 8));
        assert(grown.subrange(o + 8, o + 16) =~= file.subrange(o + 8, o + 16));
        assert(grown.subrange(o + 16, o + 24) =~= file.subrange(o + 16, o + 24));
        assert(grown.subrange(o + 29, o + 33) =~= file.subrange(o + 29, o + 33));
        let size = le_u32_at(file, o + 29) as int;
        assert(grown.subrange(o + 33, o + 33 + size) =~= file.subrange(o + 33, o + 33 + size));
    }
}

/// The cell that a patch gives for one row.
pub open spec fn patch_cell(row: u64, txn_id: u64, after: Option<Seq<u8>>) -> CellView {
    CellView {
        seg_id: Seq::empty(),
        row_offset: row,
        column: Seq::empty(),
        txn_id,
        before: None,
        after,
        committed: true,
        ts: 0,
    }
}

/// The cells of a patch: for a sparse patch one for each row of its bitmap, for
/// a dense patch one for each row of the segment or of the values, whichever
/// are more.
pub open spec fn patch_cells(f: FormatView) -> Result<Seq<CellView>, RockDuckError> {
    match f {
        FormatView::Sparse { positions, values, .. } => {
            let rows = listing(portable_rows(positions));
            match ipc_column(values) {
                None => Err(RockDuckError::Arrow),
                Some((_, None)) => Err(RockDuckError::Delta(DeltaFault::NotBinary)),
                Some((n, Some(cells))) => if rows.len() > n {
                    Err(RockDuckError::Delta(DeltaFault::ValueCount))
                } else {
                    Ok(Seq::new(rows.len(), |i: int| patch_cell(rows[i] as u64, 0, cells[i])))
                },
            }
        },
        FormatView::Dense { values, total_rows, txn_id } => match ipc_column(values) {
            None => Err(RockDuckError::Arrow),
            Some((n, _)) => {
                let rows = if n > total_rows {
                    n
                } else {
                    total_rows as nat
                };
                Ok(Seq::new(rows, |i: int| patch_cell(i as u64, txn_id, value_at(values, i))))
            },
        },
    }
}

fn make_cell(row: u64, txn_id: u64, after: Option<Vec<u8>>) -> (c: DeltaCell)
    ensures
        c@ == patch_cell(row, txn_id, cell_view(after)),
{
    let shared = match after {
        Some(b) => Some(Arc::new(b)),
        None => None,
    };
    DeltaCell {
        seg_id: String::new(),
        row_offset: row,
        column: String::new(),
        txn_id,
        before: None,
        after: shared,
        committed: true,
        ts: 0,
    }
}

/// Turns a patch into cells, which name neither segment nor column.
pub fn patch_to_deltas(format: &DeltaPatchFormat) -> (r: Result<Vec<DeltaCell>, RockDuckError>)
    ensures
        match r {
            Ok(cells) => patch_cells(format@) == Ok::<Seq<CellView>, RockDuckError>(
                cell_views(cells@),
            ),
            Err(e) => patch_cells(format@) == Err::<Seq<CellView>, RockDuckError>(e),
        },
{
    match format {
        DeltaPatchFormat::Sparse { positions, values, .. } => {
            let rows = bitmap_list(&bitmap_deserialize(positions.as_slice()));
            proof {
                lemma_listing(rows@, portable_rows(positions@));
            }
            let column = match decode_arrow_array(values.as_slice()) {
                Ok(c) => c,
                Err(e) => return Err(e),
            };
            if column.binary.is_none() {
                return Err(RockDuckError::Delta(DeltaFault::NotBinary));
            }
            if rows.len() > column.rows {
                return Err(RockDuckError::Delta(DeltaFault::ValueCount));
            }
            let mut cells: Vec<DeltaCell> = Vec::new();
            let mut i: usize = 0;
            let ghost want = patch_cells(format@)->Ok_0;
            while i < rows.len()
                invariant
                    i <= rows@.len() <= column.rows,
                    column.binary matches Some(b) && b@.len() == column.rows,
                    ipc_column(values@) == Some((column.rows as nat, binary_view(column.binary))),
                    want == Seq::new(
                        rows@.len(),
                        |k: int|
                            patch_cell(rows@[k] as u64, 0, cells_view(column.binary->0@)[k]),
                    ),
                    cell_views(cells@) == want.take(i as int),
                decreases rows@.len() - i,
            {
                let after = column.cell(i);
                let c = make_cell(rows[i] as u64, 0, after);
                proof {
                    assert(c@ == want[i as int]);
                    assert(cell_views(cells@.push(c)) =~= cell_views(cells@).push(c@));
                    assert(want.take(i + 1) =~= want.take(i as int).push(want[i as int]));
                }
                cells.push(c);
                i = i + 1;
            }
            assert(want.take(i as int) =~= want);
            Ok(cells)
        },
        DeltaPatchFormat::Dense { values, total_rows, txn_id } => {
            let column = match decode_arrow_array(values.as_slice()) {
                Ok(c) => c,
                Err(e) => return Err(e),
            };
            let encoded: u64 = column.rows as u64;
            let count: u64 = if encoded > *total_rows {
                encoded
            } else {
                *total_rows
            };
            let mut cells: Vec<DeltaCell> = Vec::new();
            let mut row: u64 = 0;
            let ghost want = patch_cells(format@)->Ok_0;
            while row < count
                invariant
                    row <= count,
                    encoded == column.rows,
                    column.binary matches Some(b) ==> b@.len() == column.rows,
                    ipc_column(values@) == Some((column.rows as nat, binary_view(column.binary))),
                    want == Seq::new(
                        count as nat,
                        |k: int| patch_cell(k as u64, *txn_id, value_at(values@, k)),
                    ),
                    cell_views(cells@) == want.take(row as int),
                decreases count - row,
            {
                let after = if row < encoded {
                    column.cell(row as usize)
                } else {
                    None
                };
                assert(cell_view(after) == value_at(values@, row as int));
                let c = make_cell(row, *txn_id, after);
                proof {
                    assert(c@ == want[row as int]);
                    assert(cell_views(cells@.push(c)) =~= cell_views(cells@).push(c@));
                    assert(want.take(row + 1) =~= want.take(row as int).push(want[row as int]));
                }
                cells.push(c);
                row = row + 1;
            }
            assert(want.take(row as int) =~= want);
            Ok(cells)
        },
    }
}

/// Whether a patch has a value for a row: a dense patch has none where there is a null.
/// Of a dense patch that cannot be read, every row counts.
pub open spec fn covers(f: FormatView, row: u64) -> bool {
    match f {
        FormatView::Sparse { positions, .. } => row <= u32::MAX && portable_rows(
            positions,
        ).contains(row as u32),
        FormatView::Dense { values, total_rows, .. } => if ipc_column(values) is Some {
            value_at(values, row as int) is Some
        } else {
            row < total_rows
        },
    }
}

/// The rows of a patch, in ascending order.
pub fn patch_row_positions(format: &DeltaPatchFormat) -> (rows: Vec<u64>)
    ensures
        forall|i: int, j: int| #![auto] 0 <= i < j < rows@.len() ==> rows@[i] < rows@[j],
        forall|row: u64| #[trigger] rows@.contains(row) <==> covers(format@, row),
{
    match format {
        DeltaPatchFormat::Sparse { positions, .. } => {
            let list = bitmap_list(&bitmap_deserialize(positions.as_slice()));
            let mut rows: Vec<u64> = Vec::new();
            let mut i: usize = 0;
            while i < list.len()
                invariant
                    i <= list@.len(),
                    rows@.len() == i,
                    forall|k: int| #![auto] 0 <= k < i ==> rows@[k] == list@[k],
                decreases list@.len() - i,
            {
                rows.push(list[i] as u64);
                i = i + 1;
            }
            proof {
                assert forall|row: u64| #[trigger] rows@.contains(row) <==> covers(
                    format@,
                    row,
                ) by {
                    if rows@.contains(row) {
                        let k = rows@.index_of(row);
                        assert(list@[k] == row as u32);
                        assert(list@.contains(row as u32));
                    }
                    if covers(format@, row) {
                        assert(list@.contains(row as u32));
                        let k = list@.index_of(row as u32);
                        assert(rows@[k] == row);
                    }
                }
            }
            rows
        },
        DeltaPatchFormat::Dense { values, total_rows, .. } => {
            let column = match decode_arrow_array(values.as_slice()) {
                Ok(c) => Some(c),
                Err(_) => None,
            };
            let count: u64 = match &column {
                Some(c) => c.rows as u64,
                None => *total_rows,
            };
            let mut rows: Vec<u64> = Vec::new();
            let mut row: u64 = 0;
            while row < count
                invariant
                    row <= count,
                    format@ == (FormatView::Dense {
                        values: values@,
                        total_rows: *total_rows,
                        txn_id: format@->txn_id,
                    }),
                    match column {
                        Some(c) => count == c.rows && ipc_column(values@) == Some(
                            (c.rows as nat, binary_view(c.binary)),
                        ) && (c.binary matches Some(b) ==> b@.len() == c.rows),
                        None => count == *total_rows && ipc_column(values@) is None,
                    },
                    forall|i: int, j: int| #![auto] 0 <= i < j < rows@.len() ==> rows@[i] < rows@[j],
                    forall|i: int| #![trigger rows@[i]] 0 <= i < rows@.len() ==> rows@[i] < row,
                    forall|x: u64| #[trigger] rows@.contains(x) <==> x < row && covers(format@, x),
                decreases count - row,
            {
                let has = match &column {
                    Some(c) => c.cell(row as usize).is_some(),
                    None => true,
                };
                assert(has == covers(format@, row));
                let ghost before = rows@;
                if has {
                    rows.push(row);
                }
                proof {
                    assert forall|x: u64| #[trigger] rows@.contains(x) <==> x < row + 1 && covers(
                        format@,
                        x,
                    ) by {
                        if before.contains(x) {
                            assert(rows@[before.index_of(x)] == x);
                        }
                        if x == row && has {
                            assert(rows@[before.len() as int] == x);
                        }
                        if rows@.contains(x) {
                            let k = rows@.index_of(x);
                            if k < before.len() {
                                assert(before[k] == x);
                            }
                        }
                    }
                }
                row = row + 1;
            }
            rows
        },
    }
}

/// The cell of a column as bytes, a null as no bytes: `None` past the end and in
/// a column that is not binary.
pub open spec fn raw_value(values: Seq<u8>, index: int) -> Option<Seq<u8>> {
    match ipc_column(values) {
        Some((rows, Some(cells))) => if 0 <= index < rows {
            Some(
                match cells[index] {
                    Some(b) => b,
                    None => Seq::empty(),
                },
            )
        } else {
            None
        },
        _ => None,
    }
}

/// The value that a patch has for a row.
pub open spec fn patch_value(f: FormatView, row: u64) -> Result<Option<Seq<u8>>, RockDuckError> {
    match f {
        FormatView::Sparse { positions, values, .. } => if !covers(f, row) {
            Ok(None)
        } else if ipc_column(values) is None {
            Err(RockDuckError::Arrow)
        } else {
            Ok(raw_value(values, listing(portable_rows(positions)).index_of(row as u32)))
        },
        FormatView::Dense { values, total_rows, .. } => if !covers(f, row) {
            Ok(None)
        } else if ipc_column(values) is None {
            Err(RockDuckError::Arrow)
        } else {
            Ok(value_at(values, row as int))
        },
    }
}

/// The encoded values of a patch.
pub open spec fn format_values(f: FormatView) -> Seq<u8> {
    match f {
        FormatView::Sparse { values, .. } => values,
        FormatView::Dense { values, .. } => values,
    }
}

/// A cached column is the one that the values decode to.
pub open spec fn cache_fits(slot: Option<IpcColumn>, f: FormatView) -> bool {
    slot matches Some(c) ==> ipc_column(format_values(f)) == Some(
        (c.rows as nat, binary_view(c.binary)),
    ) && (c.binary matches Some(b) ==> b@.len() == c.rows)
}

fn cached_value(column: &IpcColumn, index: usize) -> (r: Option<Vec<u8>>)
    requires
        column.binary matches Some(b) ==> b@.len() == column.rows,
    ensures
        forall|values: Seq<u8>|
            ipc_column(values) == Some((column.rows as nat, binary_view(column.binary)))
                ==> cell_view(r) == #[trigger] raw_value(values, index as int),
{
    if column.binary.is_none() || index >= column.rows {
        return None;
    }
    match column.cell(index) {
        Some(b) => Some(b),
        None => Some(Vec::new()),
    }
}

/// The value of a row of a dense patch: a null is none.
fn dense_value(column: &IpcColumn, row: u64) -> (r: Option<Vec<u8>>)
    requires
        column.binary matches Some(b) ==> b@.len() == column.rows,
    ensures
        forall|values: Seq<u8>|
            ipc_column(values) == Some((column.rows as nat, binary_view(column.binary)))
                ==> cell_view(r) == #[trigger] value_at(values, row as int),
{
    if row < column.rows as u64 {
        column.cell(row as usize)
    } else {
        None
    }
}

/// Reads the value that a patch has for a row; the decoded values are kept in
/// `slot` for the next call.
pub fn read_patch_value_cached(
    format: &DeltaPatchFormat,
    row: u64,
    slot: &mut Option<IpcColumn>,
) -> (r: Result<Option<Vec<u8>>, RockDuckError>)
    requires
        cache_fits(*old(slot), format@),
    ensures
        cache_fits(*final(slot), format@),
        match r {
            Ok(v) => patch_value(format@, row) == Ok::<Option<Seq<u8>>, RockDuckError>(
                cell_view(v),
            ),
            Err(e) => patch_value(format@, row) == Err::<Option<Seq<u8>>, RockDuckError>(e),
        },
{
    let (index, values) = match format {
        DeltaPatchFormat::Sparse { positions, values, .. } => {
            let bitmap = bitmap_deserialize(positions.as_slice());
            if row > 0xffff_ffff || !bitmap_contains(&bitmap, row as u32) {
                return Ok(None);
            }
            let rows = bitmap_list(&bitmap);
            let target: u32 = row as u32;
            let count: usize = rows.len();
            proof {
                lemma_listing(rows@, portable_rows(positions@));
                assert(rows@.contains(target));
            }
            let ghost found = rows@.index_of(target);
            assert(0 <= found < count && rows@[found] == target);
            let mut i: usize = 0;
            while rows[i] != target
                invariant
                    i <= found < count,
                    count == rows@.len(),
                    rows@[found] == target,
                decreases count - i,
            {
                i = i + 1;
            }
            proof {
                if i < found {
                    assert(rows@[i as int] < rows@[found]);
                }
            }
            (i, values)
        },
        DeltaPatchFormat::Dense { values, total_rows, .. } => {
            match slot {
                Some(column) => return Ok(dense_value(column, row)),
                None => match decode_arrow_array(values.as_slice()) {
                    Ok(column) => {
                        let v = dense_value(&column, row);
                        *slot = Some(column);
                        return Ok(v);
                    },
                    Err(e) => return if row < *total_rows {
                        Err(e)
                    } else {
                        Ok(None)
                    },
                },
            }
        },
    };
    match slot {
        Some(column) => Ok(cached_value(column, index)),
        None => match decode_arrow_array(values.as_slice()) {
            Ok(column) => {
                let v = cached_value(&column, index);
                *slot = Some(column);
                Ok(v)
            },
            Err(e) => Err(e),
        },
    }
}

/// Cells under one transaction.
pub open spec fn dated(cells: Seq<CellView>, txn_id: u64) -> Seq<CellView> {
    cells.map_values(|c: CellView| CellView { txn_id, ..c })
}

/// The cells that have an after-image.
pub open spec fn has_image() -> spec_fn(CellView) -> bool {
    |c: CellView| c.after is Some
}

/// The cells of a column with one value for each row: a row without a value has none.
pub open spec fn dense_cells(values: Seq<u8>, rows: nat, txn_id: u64) -> Seq<CellView> {
    select(Seq::new(rows, |i: int| patch_cell(i as u64, txn_id, value_at(values, i))), has_image())
}

/// The cells of a record. A sparse patch has no transaction of its own, so its cells
/// are those of the last transaction of the record. Of a dense patch, the rows that it
/// leaves unchanged have no cell.
pub open spec fn record_cells(f: FormatView, txn_end: u64) -> Result<Seq<CellView>, RockDuckError> {
    match f {
        FormatView::Sparse { .. } => match patch_cells(f) {
            Err(e) => Err(e),
            Ok(cells) => Ok(dated(cells, txn_end)),
        },
        FormatView::Dense { values, txn_id, .. } => match ipc_column(values) {
            None => Err(RockDuckError::Arrow),
            Some((n, _)) => Ok(dense_cells(values, n, txn_id)),
        },
    }
}

/// Reads the cells of a column with one value for each row.
fn dense_to_deltas(column: &IpcColumn, txn_id: u64, Ghost(values): Ghost<Seq<u8>>) -> (r: Vec<
    DeltaCell,
>)
    requires
        ipc_column(values) == Some((column.rows as nat, binary_view(column.binary))),
        column.binary matches Some(b) ==> b@.len() == column.rows,
    ensures
        cell_views(r@) == dense_cells(values, column.rows as nat, txn_id),
{
    let mut cells: Vec<DeltaCell> = Vec::new();
    let ghost all = Seq::new(
        column.rows as nat,
        |i: int| patch_cell(i as u64, txn_id, value_at(values, i)),
    );
    let mut row: usize = 0;
    assert(cell_views(cells@) =~= select(all.take(0), has_image()));
    while row < column.rows
        invariant
            row <= column.rows == all.len(),
            column.binary matches Some(b) ==> b@.len() == column.rows,
            ipc_column(values) == Some((column.rows as nat, binary_view(column.binary))),
            all == Seq::new(
                column.rows as nat,
                |i: int| patch_cell(i as u64, txn_id, value_at(values, i)),
            ),
            cell_views(cells@) == select(all.take(row as int), has_image()),
        decreases column.rows - row,
    {
        let after = column.cell(row);
        assert(cell_view(after) == value_at(values, row as int));
        assert(all.take(row + 1).drop_last() =~= all.take(row as int));
        assert(all.take(row + 1).last() == all[row as int]);
        if after.is_some() {
            let c = make_cell(row as u64, txn_id, after);
            assert(cell_views(cells@.push(c)) =~= cell_views(cells@).push(c@));
            cells.push(c);
        }
        row = row + 1;
    }
    assert(all.take(row as int) =~= all);
    cells
}

fn date_cells(cells: &mut Vec<DeltaCell>, txn_id: u64)
    ensures
        cell_views(final(cells)@) == dated(cell_views(old(cells)@), txn_id),
{
    let ghost start = cells@;
    let mut i: usize = 0;
    while i < cells.len()
        invariant
            i <= cells@.len() == start.len(),
            forall|j: int|
                #![trigger cells@[j]]
                0 <= j < i ==> cells@[j]@ == (CellView { txn_id, ..start[j]@ }),
            forall|j: int| #![trigger cells@[j]] i <= j < start.len() ==> cells@[j] == start[j],
        decreases start.len() - i,
    {
        cells[i].txn_id = txn_id;
        i = i + 1;
    }
    assert(cell_views(cells@) =~= dated(cell_views(start), txn_id));
}

/// Cells under a segment and a column.
pub open spec fn placed(seg_id: Seq<char>, column: Seq<char>, cells: Seq<CellView>) -> Seq<CellView> {
    cells.map_values(|c: CellView| CellView { seg_id, column, ..c })
}

/// Puts cells under a segment and a column.
pub(crate) fn place_cells(cells: &mut Vec<DeltaCell>, seg_id: &String, column: &String)
    ensures
        cell_views(final(cells)@) == placed(seg_id@, column@, cell_views(old(cells)@)),
{
    let ghost start = cells@;
    let mut i: usize = 0;
    while i < cells.len()
        invariant
            i <= cells@.len() == start.len(),
            forall|j: int|
                #![trigger cells@[j]]
                0 <= j < i ==> cells@[j]@ == (CellView {
                    seg_id: seg_id@,
                    column: column@,
                    ..start[j]@
                }),
            forall|j: int| #![trigger cells@[j]] i <= j < start.len() ==> cells@[j] == start[j],
        decreases start.len() - i,
    {
        cells[i].seg_id = seg_id.clone();
        cells[i].column = column.clone();
        i = i + 1;
    }
    assert(cell_views(cells@) =~= placed(seg_id@, column@, cell_views(start)));
}

/// Reads the cells of a record.
pub(crate) fn record_to_deltas(format: &DeltaPatchFormat, txn_end: u64) -> (r: Result<Vec<DeltaCell>, RockDuckError>)
    ensures
        match r {
            Ok(cells) => record_cells(format@, txn_end) == Ok::<Seq<CellView>, RockDuckError>(
                cell_views(cells@),
            ),
            Err(e) => record_cells(format@, txn_end) == Err::<Seq<CellView>, RockDuckError>(e),
        },
{
    match format {
        DeltaPatchFormat::Sparse { .. } => match patch_to_deltas(format) {
            Ok(mut cells) => {
                date_cells(&mut cells, txn_end);
                Ok(cells)
            },
            Err(e) => Err(e),
        },
        DeltaPatchFormat::Dense { values, txn_id, .. } => match decode_arrow_array(values.as_slice()) {
            Ok(column) => Ok(dense_to_deltas(&column, *txn_id, Ghost(values@))),
            Err(e) => Err(e),
        },
    }
}

/// The cells of the records from an offset on that a snapshot sees: the error of
/// the first damaged record, if there is one.
pub open spec fn load_from(file: Seq<u8>, offset: nat, snapshot: u64) -> Result<
    Seq<CellView>,
    RockDuckError,
>
    decreases file.len() - offset,
{
    match record_at(file, offset) {
        None => Ok(Seq::empty()),
        Some(Err(f)) => Err(RockDuckError::Delta(f)),
        Some(Ok(rec)) => {
            if rec.end() > file.len() {
                Ok(Seq::empty())
            } else if rec.txn_end > snapshot {
                load_from(file, rec.end(), snapshot)
            } else {
                match parse_payload(rec.payload) {
                    None => Err(RockDuckError::Delta(DeltaFault::BadPatch { offset: offset as u64 })),
                    Some(f) => match record_cells(f, rec.txn_end) {
                        Err(e) => Err(e),
                        Ok(cells) => prepend(cells, load_from(file, rec.end(), snapshot)),
                    },
                }
            }
        },
    }
}

/// Cells in front of those of a result.
pub open spec fn prepend(cells: Seq<CellView>, rest: Result<Seq<CellView>, RockDuckError>) -> Result<
    Seq<CellView>,
    RockDuckError,
> {
    match rest {
        Ok(more) => Ok(cells + more),
        Err(e) => Err(e),
    }
}

/// The cells of a patch file that a snapshot sees.
pub open spec fn load_file(file: Seq<u8>, snapshot: u64) -> Result<Seq<CellView>, RockDuckError> {
    if bad_magic(file) {
        Err(RockDuckError::Delta(DeltaFault::BadMagic(le_u32_at(file, 0) as u32)))
    } else {
        load_from(file, 64, snapshot)
    }
}

/// Reads the cells of a patch file that a snapshot sees.
pub fn load_patches(file: &[u8], snapshot_txn: u64) -> (r: Result<Vec<DeltaCell>, RockDuckError>)
    ensures
        match r {
            Ok(cells) => load_file(file@, snapshot_txn) == Ok::<Seq<CellView>, RockDuckError>(
                cell_views(cells@),
            ),
            Err(e) => load_file(file@, snapshot_txn) == Err::<Seq<CellView>, RockDuckError>(e),
        },
{
    match check_magic(file) {
        Ok(_) => {},
        Err(f) => return Err(RockDuckError::Delta(f)),
    }
    let mut cells: Vec<DeltaCell> = Vec::new();
    let mut offset: usize = 64;
    let len: usize = file.len();
    let ghost whole = load_file(file@, snapshot_txn);
    proof {
        assert(cell_views(cells@) =~= Seq::empty());
        if whole is Ok {
            assert(cell_views(cells@) + whole->Ok_0 =~= whole->Ok_0);
        }
    }
    loop
        invariant
            len == file@.len(),
            whole == prepend(cell_views(cells@), load_from(file@, offset as nat, snapshot_txn)),
            whole == load_file(file@, snapshot_txn),
        ensures
            whole == Ok::<Seq<CellView>, RockDuckError>(cell_views(cells@)),
        decreases usize::MAX - offset,
    {
        let next = read_record(file, offset);
        match next {
            None => {
                assert(cell_views(cells@) + Seq::<CellView>::empty() =~= cell_views(cells@));
                break;
            },
            Some(Err(f)) => return Err(RockDuckError::Delta(f)),
            Some(Ok(rec)) => {
                let end: usize = offset + 33 + rec.payload.len();
                if rec.txn_end <= snapshot_txn {
                    let format = match DeltaPatchFormat::from_bytes(rec.payload.as_slice()) {
                        Some(f) => f,
                        None => return Err(
                            RockDuckError::Delta(DeltaFault::BadPatch { offset: offset as u64 }),
                        ),
                    };
                    let mut more = match record_to_deltas(&format, rec.txn_end) {
                        Ok(c) => c,
                        Err(e) => return Err(e),
                    };
                    proof {
                        let a = cell_views(cells@);
                        let b = cell_views(more@);
                        assert(cell_views(cells@ + more@) =~= a + b);
                        let rest = load_from(file@, end as nat, snapshot_txn);
                        if rest is Ok {
                            assert(a + (b + rest->Ok_0) =~= a + b + rest->Ok_0);
                        }
                    }
                    cells.append(&mut more);
                }
                offset = end;
            },
        }
    }
    Ok(cells)
}

/// The records from an offset on follow each other up to the very end of the
/// file.
pub open spec fn whole_from(file: Seq<u8>, offset: nat) -> bool
    decreases file.len() - offset,
{
    offset == file.len() || (record_at(file, offset) matches Some(Ok(rec)) && rec.end()
        <= file.len() && whole_from(file, rec.end()))
}

/// A file with a header and only whole records.
pub open spec fn whole_file(file: Seq<u8>) -> bool {
    file.len() >= 64 && !bad_magic(file) && whole_from(file, 64)
}

/// A new file is whole.
pub proof fn law_new_file_is_whole()
    ensures
        whole_file(file_header()),
{
    lemma_pow256();
    lemma_le_round_trip(DELTA_FILE_MAGIC as nat, 4);
    assert(file_header().subrange(0, 4) =~= le_bytes(DELTA_FILE_MAGIC as nat, 4));
}

proof fn lemma_grown(
    file: Seq<u8>,
    patch_id: u64,
    txn_range: (u64, u64),
    flag: u8,
    affected: nat,
    payload: Seq<u8>,
    offset: nat,
    snapshot: u64,
)
    requires
        payload.len() <= MAX_PAYLOAD_SIZE,
        whole_from(file, offset),
    ensures
        ({
            let grown = file + record_bytes(patch_id, txn_range, flag, affected, payload);
            &&& whole_from(grown, offset)
            &&& load_from(grown, offset, snapshot) == match load_from(file, offset, snapshot) {
                Err(e) => Err::<Seq<CellView>, RockDuckError>(e),
                Ok(cells) => prepend(cells, load_from(grown, file.len(), snapshot)),
            }
        }),
    decreases file.len() - offset,
{
    let grown = file + record_bytes(patch_id, txn_range, flag, affected, payload);
    law_appended_record_reads_back(file, patch_id, txn_range, flag, affected, payload, offset);
    lemma_le_len(patch_id as nat, 8);
    lemma_le_len(txn_range.0 as nat, 8);
    lemma_le_len(txn_range.1 as nat, 8);
    lemma_le_len(affected, 4);
    lemma_le_len(payload.len(), 4);
    if offset == file.len() {
        let rec = record_at(grown, file.len())->0->Ok_0;
        assert(rec.end() == grown.len());
        assert(whole_from(grown, grown.len()));
        assert(record_at(file, offset) is None);
        let last = load_from(grown, file.len(), snapshot);
        if last is Ok {
            assert(Seq::<CellView>::empty() + last->Ok_0 =~= last->Ok_0);
        }
    } else {
        let rec = record_at(file, offset)->0->Ok_0;
        lemma_grown(file, patch_id, txn_range, flag, affected, payload, rec.end(), snapshot);
        let rest = load_from(file, rec.end(), snapshot);
        let last = load_from(grown, file.len(), snapshot);
        if rec.txn_end <= snapshot && parse_payload(rec.payload) is Some && record_cells(
            parse_payload(rec.payload)->0,
            rec.txn_end,
        ) is Ok && rest is Ok && last is Ok {
            let cells = record_cells(parse_payload(rec.payload)->0, rec.txn_end)->Ok_0;
            assert(cells + (rest->Ok_0 + last->Ok_0) =~= cells + rest->Ok_0 + last->Ok_0);
        }
    }
}

/// Appending a patch to a whole file keeps it whole, keeps what every snapshot
/// saw in it, and shows the new cells, after the old ones, to exactly the
/// snapshots that are not older than the patch.
pub proof fn law_append_is_read_back(
    file: Seq<u8>,
    patch_id: u64,
    txn_range: (u64, u64),
    flag: u8,
    affected: nat,
    payload: Seq<u8>,
    snapshot: u64,
)
    requires
        whole_file(file),
        payload.len() <= MAX_PAYLOAD_SIZE,
        parse_payload(payload) is Some,
        patch_cells(parse_payload(payload)->0) is Ok,
    ensures
        ({
            let grown = file + record_bytes(patch_id, txn_range, flag, affected, payload);
            let cells = record_cells(parse_payload(payload)->0, txn_range.1)->Ok_0;
            &&& whole_file(grown)
            &&& load_file(grown, snapshot) == match load_file(file, snapshot) {
                Err(e) => Err::<Seq<CellView>, RockDuckError>(e),
                Ok(old) => Ok(
                    if txn_range.1 <= snapshot {
                        old + cells
                    } else {
                        old
                    },
                ),
            }
        }),
{
    let rec = record_bytes(patch_id, txn_range, flag, affected, payload);
    let grown = file + rec;
    assert(grown.subrange(0, 4) =~= file.subrange(0, 4));
    lemma_grown(file, patch_id, txn_range, flag, affected, payload, 64, snapshot);
    law_appended_record_reads_back(file, patch_id, txn_range, flag, affected, payload, 64);
    lemma_le_len(patch_id as nat, 8);
    lemma_le_len(txn_range.0 as nat, 8);
    lemma_le_len(txn_range.1 as nat, 8);
    lemma_le_len(affected, 4);
    lemma_le_len(payload.len(), 4);
    let cells = record_cells(parse_payload(payload)->0, txn_range.1)->Ok_0;
    let after = record_at(grown, file.len())->0->Ok_0;
    assert(after.end() == grown.len());
    assert(record_at(grown, grown.len()) is None);
    assert(load_from(grown, grown.len(), snapshot) == Ok::<Seq<CellView>, RockDuckError>(
        Seq::empty(),
    ));
    assert(cells + Seq::<CellView>::empty() =~= cells);
    if load_file(file, snapshot) is Ok {
        let old = load_file(file, snapshot)->Ok_0;
        assert(old + Seq::<CellView>::empty() =~= old);
    }
}

} // verus!
