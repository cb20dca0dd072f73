//! Operations of the write-ahead log.
use vstd::prelude::*;
use std::sync::Arc;
use crate::codec::{bytes_copy, le_bytes, put_le};
use crate::segment::meta::GranuleId;
use crate::storage::delta::types::{image_view, CellView, DeltaCell};

verus! {

/// Kind of a logged operation.
#[derive(Debug, Clone, Copy, PartialEq, Eq, Structural)]
pub enum OpType {
    Insert,
    Update,
    Delete,
}

/// What a logged operation carries.
#[derive(Debug)]
pub enum OpPayload {
    Insert {
        table: String,
        pk: Vec<u8>,
        columns: Vec<String>,
        wal_batch: Arc<Vec<u8>>,
        schema_bytes: Vec<u8>,
        seg_id: String,
        granule_id: GranuleId,
        offset: u64,
    },
    Update {
        table: String,
        pk: Vec<u8>,
        columns: Vec<String>,
        wal_batch: Arc<Vec<u8>>,
        schema_bytes: Vec<u8>,
        old_columns: Vec<(String, Vec<u8>)>,
        old_seg_id: String,
        old_granule_id: GranuleId,
        old_offset: u64,
        new_seg_id: String,
        new_granule_id: GranuleId,
        offset: u64,
    },
    Delete {
        table: String,
        pk: Vec<u8>,
        before_row: Vec<(String, Vec<u8>)>,
        seg_id: String,
        granule_id: GranuleId,
        offset: u64,
    },
    /// An operation that touches no cell.
    Control,
}

/// A logged operation.
#[derive(Debug)]
pub struct WalOp {
    pub txn_id: u64,
    pub payload: OpPayload,
}

/// An operation to be appended to the log.
#[derive(Debug)]
pub struct WalAppend {
    pub op_type: OpType,
    pub txn_id: u64,
    pub payload: OpPayload,
    /// Whether the append is to be flushed to stable storage before it counts.
    pub durable: bool,
}

/// The kind of a cell: both images make an update, an after-image alone an
/// insert, anything else a delete.
pub open spec fn cell_op(c: CellView) -> OpType {
    if c.before is Some && c.after is Some {
        OpType::Update
    } else if c.before is None && c.after is Some {
        OpType::Insert
    } else {
        OpType::Delete
    }
}

/// The bytes of an optional image, none for a missing one.
pub open spec fn image_bytes(image: Option<Seq<u8>>) -> Seq<u8> {
    match image {
        Some(b) => b,
        None => Seq::empty(),
    }
}

/// `names` is the one column of a cell.
pub open spec fn one_column(names: Seq<String>, column: Seq<char>) -> bool {
    names.len() == 1 && names[0]@ == column
}

/// `row` is one column with its bytes.
pub open spec fn one_value(row: Seq<(String, Vec<u8>)>, column: Seq<char>, bytes: Seq<u8>) -> bool {
    row.len() == 1 && row[0].0@ == column && row[0].1@ == bytes
}

/// `payload` logs a cell as an operation of a kind.
pub open spec fn logs_cell(payload: OpPayload, c: CellView, op: OpType) -> bool {
    let key = le_bytes(c.row_offset as nat, 8);
    match payload {
        OpPayload::Insert {
            table,
            pk,
            columns,
            wal_batch,
            schema_bytes,
            seg_id,
            granule_id,
            offset,
        } => {
            &&& op == OpType::Insert
            &&& table@ == Seq::<char>::empty()
            &&& pk@ == key
            &&& one_column(columns@, c.column)
            &&& wal_batch@ == image_bytes(c.after)
            &&& schema_bytes@ == Seq::<u8>::empty()
            &&& seg_id@ == c.seg_id
            &&& granule_id == GranuleId(0)
            &&& offset == c.row_offset
        },
        OpPayload::Update {
            table,
            pk,
            columns,
            wal_batch,
            schema_bytes,
            old_columns,
            old_seg_id,
            old_granule_id,
            old_offset,
            new_seg_id,
            new_granule_id,
            offset,
        } => {
            &&& op == OpType::Update
            &&& table@ == Seq::<char>::empty()
            &&& pk@ == key
            &&& one_column(columns@, c.column)
            &&& wal_batch@ == image_bytes(c.after)
            &&& schema_bytes@ == Seq::<u8>::empty()
            &&& one_value(old_columns@, c.column, image_bytes(c.before))
            &&& old_seg_id@ == c.seg_id
            &&& old_granule_id == GranuleId(0)
            &&& old_offset == c.row_offset
            &&& new_seg_id@ == c.seg_id
            &&& new_granule_id == GranuleId(0)
            &&& offset == c.row_offset
        },
        OpPayload::Delete { table, pk, before_row, seg_id, granule_id, offset } => {
            &&& op == OpType::Delete
            &&& table@ == Seq::<char>::empty()
            &&& pk@ == key
            &&& one_value(before_row@, c.column, image_bytes(c.before))
            &&& seg_id@ == c.seg_id
            &&& granule_id == GranuleId(0)
            &&& offset == c.row_offset
        },
        OpPayload::Control => false,
    }
}

fn image_copy(image: &Option<Arc<Vec<u8>>>) -> (r: Vec<u8>)
    ensures
        r@ == image_bytes(image_view(*image)),
{
    match image {
        Some(b) => bytes_copy(b.as_slice()),
        None => {
            let none: Vec<u8> = Vec::new();
            assert(none@ =~= Seq::empty());
            none
        },
    }
}

/// The kind of a cell.
pub fn op_type_of(delta: &DeltaCell) -> (r: OpType)
    ensures
        r == cell_op(delta@),
{
    if delta.is_update() {
        OpType::Update
    } else if delta.is_insert() {
        OpType::Insert
    } else {
        OpType::Delete
    }
}

/// The payload that logs a cell as an operation of a kind.
pub fn payload_of(delta: &DeltaCell, op: OpType) -> (r: OpPayload)
    ensures
        logs_cell(r, delta@, op),
{
    let mut pk: Vec<u8> = Vec::new();
    put_le(&mut pk, delta.row_offset, 8);
    assert(pk@ =~= le_bytes(delta.row_offset as nat, 8));
    let schema_bytes: Vec<u8> = Vec::new();
    assert(schema_bytes@ =~= Seq::<u8>::empty());
    match op {
        OpType::Insert => {
            let mut columns: Vec<String> = Vec::new();
            columns.push(delta.column.clone());
            OpPayload::Insert {
                table: String::new(),
                pk,
                columns,
                wal_batch: Arc::new(image_copy(&delta.after)),
                schema_bytes,
                seg_id: delta.seg_id.clone(),
                granule_id: GranuleId::zero(),
                offset: delta.row_offset,
            }
        },
        OpType::Update => {
            let mut columns: Vec<String> = Vec::new();
            columns.push(delta.column.clone());
            let mut old_columns: Vec<(String, Vec<u8>)> = Vec::new();
            old_columns.push((delta.column.clone(), image_copy(&delta.before)));
            OpPayload::Update {
                table: String::new(),
                pk,
                columns,
                wal_batch: Arc::new(image_copy(&delta.after)),
                schema_bytes,
                old_columns,
                old_seg_id: delta.seg_id.clone(),
                old_granule_id: GranuleId::zero(),
                old_offset: delta.row_offset,
                new_seg_id: delta.seg_id.clone(),
                new_granule_id: GranuleId::zero(),
                offset: delta.row_offset,
            }
        },
        OpType::Delete => {
            let mut before_row: Vec<(String, Vec<u8>)> = Vec::new();
            before_row.push((delta.column.clone(), image_copy(&delta.before)));
            OpPayload::Delete {
                table: String::new(),
                pk,
                before_row,
                seg_id: delta.seg_id.clone(),
                granule_id: GranuleId::zero(),
                offset: delta.row_offset,
            }
        },
    }
}

/// The after-image in a logged operation: its bytes, if they are not described by
/// a schema as a batch of more than one value.
pub open spec fn logged_image(wal_batch: Seq<u8>, schema_bytes: Seq<u8>) -> Option<Seq<u8>> {
    if schema_bytes.len() == 0 {
        Some(wal_batch)
    } else {
        None
    }
}

/// The bytes of the first of some values, if there is one.
pub open spec fn first_row_value(row: Seq<(String, Vec<u8>)>) -> Option<Seq<u8>> {
    if row.len() > 0 {
        Some(row[0].1@)
    } else {
        None
    }
}

/// The cell that replaying a logged operation gives back, if it touches one: its
/// place and its images.
pub open spec fn replayed(op: WalOp) -> Option<CellView> {
    match op.payload {
        OpPayload::Insert { seg_id, offset, columns, wal_batch, schema_bytes, .. } => Some(
            replayed_view(
                op.txn_id,
                seg_id@,
                offset,
                first_name(columns@),
                None,
                logged_image(wal_batch@, schema_bytes@),
            ),
        ),
        OpPayload::Update { new_seg_id, offset, columns, wal_batch, schema_bytes, old_columns, .. } => Some(
            replayed_view(
                op.txn_id,
                new_seg_id@,
                offset,
                first_name(columns@),
                first_row_value(old_columns@),
                logged_image(wal_batch@, schema_bytes@),
            ),
        ),
        OpPayload::Delete { seg_id, offset, before_row, .. } => Some(
            replayed_view(
                op.txn_id,
                seg_id@,
                offset,
                first_row_name(before_row@),
                first_row_value(before_row@),
                None,
            ),
        ),
        OpPayload::Control => None,
    }
}

/// A committed cell of no time.
pub open spec fn replayed_view(
    txn_id: u64,
    seg_id: Seq<char>,
    row_offset: u64,
    column: Seq<char>,
    before: Option<Seq<u8>>,
    after: Option<Seq<u8>>,
) -> CellView {
    CellView { seg_id, row_offset, column, txn_id, before, after, committed: true, ts: 0 }
}

/// The first of some names, no text without any.
pub open spec fn first_name(names: Seq<String>) -> Seq<char> {
    if names.len() > 0 {
        names[0]@
    } else {
        Seq::empty()
    }
}

/// The name of the first of some values, no text without any.
pub open spec fn first_row_name(row: Seq<(String, Vec<u8>)>) -> Seq<char> {
    if row.len() > 0 {
        row[0].0@
    } else {
        Seq::empty()
    }
}

fn first_of(names: &Vec<String>) -> (r: String)
    ensures
        r@ == first_name(names@),
{
    if names.len() > 0 {
        names[0].clone()
    } else {
        String::new()
    }
}

fn first_value(row: &Vec<(String, Vec<u8>)>) -> (r: Option<Arc<Vec<u8>>>)
    ensures
        image_view(r) == first_row_value(row@),
{
    if row.len() > 0 {
        Some(Arc::new(bytes_copy(row[0].1.as_slice())))
    } else {
        None
    }
}

fn image_of(wal_batch: &Arc<Vec<u8>>, schema_bytes: &Vec<u8>) -> (r: Option<Arc<Vec<u8>>>)
    ensures
        image_view(r) == logged_image(wal_batch@, schema_bytes@),
{
    if schema_bytes.len() == 0 {
        Some(Arc::new(bytes_copy(wal_batch.as_slice())))
    } else {
        None
    }
}

/// The cell that replaying a logged operation gives back.
pub fn replayed_cell(op: &WalOp) -> (r: Option<DeltaCell>)
    ensures
        match r {
            Some(c) => replayed(*op) == Some(c@),
            None => replayed(*op) is None,
        },
{
    let (seg_id, row_offset, column, before, after) = match &op.payload {
        OpPayload::Insert { seg_id, offset, columns, wal_batch, schema_bytes, .. } => (
            seg_id.clone(),
            *offset,
            first_of(columns),
            None,
            image_of(wal_batch, schema_bytes),
        ),
        OpPayload::Update { new_seg_id, offset, columns, wal_batch, schema_bytes, old_columns, .. } => (
            new_seg_id.clone(),
            *offset,
            first_of(columns),
            first_value(old_columns),
            image_of(wal_batch, schema_bytes),
        ),
        OpPayload::Delete { seg_id, offset, before_row, .. } => {
            let name = if before_row.len() > 0 {
                before_row[0].0.clone()
            } else {
                String::new()
            };
            (seg_id.clone(), *offset, name, first_value(before_row), None)
        },
        OpPayload::Control => return None,
    };
    Some(
        DeltaCell {
            seg_id,
            row_offset,
            column,
            txn_id: op.txn_id,
            before,
            after,
            committed: true,
            ts: 0,
        },
    )
}

/// Replaying a cell that was logged as what it is gives back its place, its
/// transaction and its images; where a deleted cell had no before-image, an empty
/// one.
pub proof fn law_replay_restores_the_cell(payload: OpPayload, c: CellView)
    requires
        logs_cell(payload, c, cell_op(c)),
    ensures
        replayed(WalOp { txn_id: c.txn_id, payload }) matches Some(r) && r.seg_id == c.seg_id
            && r.row_offset == c.row_offset && r.column == c.column && r.txn_id == c.txn_id && r.after
            == c.after && (c.after is Some || c.before is Some ==> r.before == c.before),
{
}

/// A replayed operation is a committed cell at the place of the operation: an insertion has an
/// image after it and none before, a deletion one before it and none after, and a control
/// record is no cell. The image after it is known where no schema stands beside it.
pub proof fn law_replayed_cell_stands_at_its_place(op: &WalOp, r: Option<DeltaCell>)
    requires
        call_ensures(replayed_cell, (op,), r),
    ensures
        r is None <==> op.payload is Control,
        r matches Some(c) ==> c@.txn_id == op.txn_id && c@.committed && c@.ts == 0,
        op.payload matches OpPayload::Insert { seg_id, offset, columns, wal_batch, schema_bytes, .. } ==> (r matches Some(
            c,
        ) && c@.seg_id == seg_id@ && c@.row_offset == offset && c@.before is None && (columns@.len() > 0
            ==> c@.column == columns@[0]@) && (schema_bytes@.len() == 0 ==> c@.after == Some(wal_batch@)) && (
        schema_bytes@.len() > 0 ==> c@.after is None)),
        op.payload matches OpPayload::Update {
            new_seg_id,
            offset,
            columns,
            wal_batch,
            schema_bytes,
            old_columns,
            ..
        } ==> (r matches Some(c) && c@.seg_id == new_seg_id@ && c@.row_offset == offset && (columns@.len() > 0
            ==> c@.column == columns@[0]@) && (old_columns@.len() > 0 ==> c@.before == Some(old_columns@[0].1@)) && (
        old_columns@.len() == 0 ==> c@.before is None) && (schema_bytes@.len() == 0 ==> c@.after == Some(
            wal_batch@,
        )) && (schema_bytes@.len() > 0 ==> c@.after is None)),
        op.payload matches OpPayload::Delete { seg_id, offset, before_row, .. } ==> (r matches Some(c) && c@.seg_id
            == seg_id@ && c@.row_offset == offset && c@.after is None && (before_row@.len() > 0 ==> c@.column
            == before_row@[0].0@ && c@.before == Some(before_row@[0].1@)) && (before_row@.len() == 0 ==> c@.before is None)),
{
}

} // verus!
