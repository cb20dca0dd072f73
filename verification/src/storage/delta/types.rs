//! Cells, patches and patch formats of the delta layers.
//!
//! A patch payload starts with the six magic bytes `RDELTA` and a version byte
//! of zero, and goes on with a format byte:
//! - `0`, sparse: `u32` length and bytes of the row bitmap, `u32` length and
//!   bytes of the values;
//! - `1`, dense: `u64` transaction, `u64` row count, `u32` length and bytes of
//!   the values.
//!
//! Payloads without the magic prefix start directly with the format byte.
use vstd::prelude::*;
use std::collections::{HashMap, HashSet};
use std::sync::Arc;
use crate::bitmap::{bitmap_cardinality, bitmap_deserialize, bitmap_rows, bitmap_serialize, portable_rows};
use crate::codec::{bytes_append, bytes_range, get_le, le_bytes, le_value, lemma_le_round_trip, lemma_le_value_round_trip, lemma_pow256, put_le};

verus! {

broadcast use vstd::std_specs::hash::group_hash_axioms;

/// `Arc::clone`: another handle on the same value.
#[verifier::external_body]
pub(crate) fn share<T>(value: &Arc<T>) -> (r: Arc<T>)
    ensures
        r == *value,
{
    Arc::clone(value)
}

/// Another handle on optional bytes.
pub(crate) fn share_option(bytes: &Option<Arc<Vec<u8>>>) -> (r: Option<Arc<Vec<u8>>>)
    ensures
        r == *bytes,
{
    match bytes {
        Some(b) => Some(share(b)),
        None => None,
    }
}

/// The atomic unit of incremental update: one cell of one segment, written by
/// one transaction.
#[derive(Debug)]
pub struct DeltaCell {
    /// Segment ID.
    pub seg_id: String,
    /// Row offset within the segment.
    pub row_offset: u64,
    /// Column name.
    pub column: String,
    /// Transaction ID.
    pub txn_id: u64,
    /// Before-image, `None` for inserts.
    pub before: Option<Arc<Vec<u8>>>,
    /// After-image, `None` for deletes.
    pub after: Option<Arc<Vec<u8>>>,
    /// Whether this delta was marked committed.
    pub committed: bool,
    /// Wall-clock timestamp.
    pub ts: i64,
}

impl Clone for DeltaCell {
    fn clone(&self) -> (r: Self)
        ensures
            r == *self,
    {
        DeltaCell {
            seg_id: self.seg_id.clone(),
            row_offset: self.row_offset,
            column: self.column.clone(),
            txn_id: self.txn_id,
            before: share_option(&self.before),
            after: share_option(&self.after),
            committed: self.committed,
            ts: self.ts,
        }
    }
}

/// What a delta cell holds.
#[verifier::ext_equal]
pub struct CellView {
    pub seg_id: Seq<char>,
    pub row_offset: u64,
    pub column: Seq<char>,
    pub txn_id: u64,
    pub before: Option<Seq<u8>>,
    pub after: Option<Seq<u8>>,
    pub committed: bool,
    pub ts: i64,
}

/// What optional shared bytes hold.
pub open spec fn image_view(image: Option<Arc<Vec<u8>>>) -> Option<Seq<u8>> {
    match image {
        Some(b) => Some(b@),
        None => None,
    }
}

impl View for DeltaCell {
    type V = CellView;

    open spec fn view(&self) -> CellView {
        CellView {
            seg_id: self.seg_id@,
            row_offset: self.row_offset,
            column: self.column@,
            txn_id: self.txn_id,
            before: image_view(self.before),
            after: image_view(self.after),
            committed: self.committed,
            ts: self.ts,
        }
    }
}

/// What a sequence of delta cells holds.
pub open spec fn cell_views(cells: Seq<DeltaCell>) -> Seq<CellView> {
    cells.map_values(|c: DeltaCell| c@)
}

/// A transaction is visible to a snapshot when it is not newer than the
/// snapshot, not active, and committed at or before it.
pub open spec fn txn_visible(
    txn: u64,
    snapshot: u64,
    commits: Map<u64, u64>,
    active: Set<u64>,
) -> bool {
    &&& txn <= snapshot
    &&& !active.contains(txn)
    &&& commits.dom().contains(txn)
    &&& commits[txn] <= snapshot
}

impl DeltaCell {
    /// Whether this delta is visible to a snapshot by the commit history; a
    /// transaction without a commit timestamp is invisible.
    pub fn is_visible_at_commit(
        &self,
        snapshot_txn: u64,
        commit_ts_by_txn: &HashMap<u64, u64>,
        active_txns: &HashSet<u64>,
    ) -> (r: bool)
        ensures
            r == txn_visible(self.txn_id, snapshot_txn, commit_ts_by_txn@, active_txns@),
    {
        if self.txn_id > snapshot_txn {
            return false;
        }
        if active_txns.contains(&self.txn_id) {
            return false;
        }
        match commit_ts_by_txn.get(&self.txn_id) {
            Some(commit_ts) => *commit_ts <= snapshot_txn,
            None => false,
        }
    }

    /// The committed flag, which plays no part in visibility.
    pub fn legacy_committed_flag(&self) -> (r: bool)
        ensures
            r == self.committed,
    {
        self.committed
    }

    /// Whether this is an insert: an after-image alone.
    pub fn is_insert(&self) -> (r: bool)
        ensures
            r == (self.before is None && self.after is Some),
    {
        self.before.is_none() && self.after.is_some()
    }

    /// Whether this is a delete: a before-image alone.
    pub fn is_delete(&self) -> (r: bool)
        ensures
            r == (self.before is Some && self.after is None),
    {
        self.before.is_some() && self.after.is_none()
    }

    /// Whether this is an update: both images.
    pub fn is_update(&self) -> (r: bool)
        ensures
            r == (self.before is Some && self.after is Some),
    {
        self.before.is_some() && self.after.is_some()
    }
}

/// An active transaction is visible to no snapshot, whatever the commit history.
pub proof fn law_active_txn_is_never_visible(
    txn: u64,
    snapshot: u64,
    commits: Map<u64, u64>,
    active: Set<u64>,
)
    requires
        active.contains(txn),
    ensures
        !txn_visible(txn, snapshot, commits, active),
{
}

/// What a snapshot sees, every later snapshot sees, as long as no transaction
/// becomes active again.
pub proof fn law_visibility_grows_with_the_snapshot(
    txn: u64,
    earlier: u64,
    later: u64,
    commits: Map<u64, u64>,
    active: Set<u64>,
)
    requires
        earlier <= later,
        txn_visible(txn, earlier, commits, active),
    ensures
        txn_visible(txn, later, commits, active),
{
}

/// Statistics of a patch.
#[derive(Debug)]
pub struct ZoneMap {
    /// Minimum transaction ID in this patch.
    pub min_txn: u64,
    /// Maximum transaction ID in this patch.
    pub max_txn: u64,
    /// Number of rows affected by this patch.
    pub affected_rows: u64,
    /// Least value, if known.
    pub min_value: Option<Vec<u8>>,
    /// Greatest value, if known.
    pub max_value: Option<Vec<u8>>,
}

impl Default for ZoneMap {
    fn default() -> (r: Self)
        ensures
            r == (ZoneMap {
                min_txn: 0,
                max_txn: 0,
                affected_rows: 0,
                min_value: None,
                max_value: None,
            }),
    {
        ZoneMap { min_txn: 0, max_txn: 0, affected_rows: 0, min_value: None, max_value: None }
    }
}

/// The format of a patch: the touched rows alone, or a value for every row.
#[derive(Debug)]
pub enum DeltaPatchFormat {
    /// Only touched rows are stored.
    Sparse {
        /// Row bitmap in portable form.
        positions: Arc<Vec<u8>>,
        /// Values in Arrow IPC form, one for each row of the bitmap.
        values: Arc<Vec<u8>>,
        /// How many rows the bitmap holds.
        affected_count: u64,
    },
    /// Every row has a value.
    Dense {
        /// Values in Arrow IPC form, one for each row of the segment.
        values: Arc<Vec<u8>>,
        /// How many rows the segment has.
        total_rows: u64,
        /// The highest transaction among the cells of the patch.
        txn_id: u64,
    },
}

impl Clone for DeltaPatchFormat {
    fn clone(&self) -> (r: Self)
        ensures
            r == *self,
    {
        match self {
            DeltaPatchFormat::Sparse { positions, values, affected_count } => {
                DeltaPatchFormat::Sparse {
                    positions: share(positions),
                    values: share(values),
                    affected_count: *affected_count,
                }
            },
            DeltaPatchFormat::Dense { values, total_rows, txn_id } => {
                DeltaPatchFormat::Dense {
                    values: share(values),
                    total_rows: *total_rows,
                    txn_id: *txn_id,
                }
            },
        }
    }
}

/// What a patch format holds.
#[verifier::ext_equal]
pub enum FormatView {
    Sparse { positions: Seq<u8>, values: Seq<u8>, affected_count: nat },
    Dense { values: Seq<u8>, total_rows: u64, txn_id: u64 },
}

impl View for DeltaPatchFormat {
    type V = FormatView;

    open spec fn view(&self) -> FormatView {
        match self {
            DeltaPatchFormat::Sparse { positions, values, affected_count } => FormatView::Sparse {
                positions: positions@,
                values: values@,
                affected_count: *affected_count as nat,
            },
            DeltaPatchFormat::Dense { values, total_rows, txn_id } => FormatView::Dense {
                values: values@,
                total_rows: *total_rows,
                txn_id: *txn_id,
            },
        }
    }
}

/// The magic bytes and the version byte.
pub open spec fn patch_prefix() -> Seq<u8> {
    seq![82u8, 68u8, 69u8, 76u8, 84u8, 65u8, 0u8]
}

/// The payload of a patch without its magic prefix.
pub open spec fn patch_body(f: FormatView) -> Seq<u8> {
    match f {
        FormatView::Sparse { positions, values, .. } => seq![0u8] + le_bytes(positions.len(), 4)
            + positions + le_bytes(values.len(), 4) + values,
        FormatView::Dense { values, total_rows, txn_id } => seq![1u8] + le_bytes(txn_id as nat, 8)
            + le_bytes(total_rows as nat, 8) + le_bytes(values.len(), 4) + values,
    }
}

/// The payload of a patch.
pub open spec fn patch_payload(f: FormatView) -> Seq<u8> {
    patch_prefix() + patch_body(f)
}

/// The number in the four bytes from `at` on.
pub open spec fn le_u32_at(s: Seq<u8>, at: int) -> nat {
    le_value(s.subrange(at, at + 4))
}

/// The number in the eight bytes from `at` on.
pub open spec fn le_u64_at(s: Seq<u8>, at: int) -> nat {
    le_value(s.subrange(at, at + 8))
}

/// The patch in a payload without its magic prefix.
pub open spec fn parse_body(s: Seq<u8>) -> Option<FormatView> {
    if s.len() >= 9 && s[0] == 0 {
        let pos_len = le_u32_at(s, 1) as int;
        if s.len() < 5 + pos_len + 4 {
            None
        } else {
            let val_len = le_u32_at(s, 5 + pos_len) as int;
            if s.len() < 9 + pos_len + val_len {
                None
            } else {
                let positions = s.subrange(5, 5 + pos_len);
                Some(
                    FormatView::Sparse {
                        positions,
                        values: s.subrange(9 + pos_len, 9 + pos_len + val_len),
                        affected_count: portable_rows(positions).len(),
                    },
                )
            }
        }
    } else if s.len() >= 21 && s[0] == 1 {
        let val_len = le_u32_at(s, 17) as int;
        if s.len() < 21 + val_len {
            None
        } else {
            Some(
                FormatView::Dense {
                    values: s.subrange(21, 21 + val_len),
                    total_rows: le_u64_at(s, 9) as u64,
                    txn_id: le_u64_at(s, 1) as u64,
                },
            )
        }
    } else {
        None
    }
}

/// Whether a payload starts with the magic bytes and has room for the version.
pub open spec fn has_prefix(s: Seq<u8>) -> bool {
    s.len() >= 7 && s.subrange(0, 6) == patch_prefix().subrange(0, 6)
}

/// The patch in a payload, with or without the magic prefix.
pub open spec fn parse_payload(s: Seq<u8>) -> Option<FormatView> {
    if has_prefix(s) {
        parse_body(s.skip(7))
    } else {
        parse_body(s)
    }
}

fn put_prefix(buf: &mut Vec<u8>)
    ensures
        final(buf)@ == old(buf)@ + patch_prefix(),
{
    buf.push(82u8);
    buf.push(68u8);
    buf.push(69u8);
    buf.push(76u8);
    buf.push(84u8);
    buf.push(65u8);
    buf.push(0u8);
    assert(buf@ =~= old(buf)@ + patch_prefix());
}

fn starts_with_magic(bytes: &[u8]) -> (r: bool)
    ensures
        r == has_prefix(bytes@),
{
    let r = bytes.len() >= 7 && bytes[0] == 82 && bytes[1] == 68 && bytes[2] == 69 && bytes[3]
        == 76 && bytes[4] == 84 && bytes[5] == 65;
    proof {
        let p = patch_prefix().subrange(0, 6);
        if r {
            assert(bytes@.subrange(0, 6) =~= p);
        } else if has_prefix(bytes@) {
            let s = bytes@.subrange(0, 6);
            assert(s[0] == 82 && s[1] == 68 && s[2] == 69 && s[3] == 76 && s[4] == 84 && s[5]
                == 65);
        }
    }
    r
}

impl DeltaPatchFormat {
    /// A sparse format of rows and their values.
    pub fn sparse(positions: croaring::Bitmap, values: Vec<u8>) -> (r: Self)
        ensures
            r@ matches FormatView::Sparse { positions: p, values: v, affected_count } && v
                == values@ && portable_rows(p) == bitmap_rows(positions) && affected_count
                == bitmap_rows(positions).len(),
    {
        let affected_count: u64 = bitmap_cardinality(&positions);
        DeltaPatchFormat::Sparse {
            positions: Arc::new(bitmap_serialize(&positions)),
            values: Arc::new(values),
            affected_count,
        }
    }

    /// A dense format of one value for each row.
    pub fn dense(values: Vec<u8>, total_rows: u64, txn_id: u64) -> (r: Self)
        ensures
            r@ == (FormatView::Dense { values: values@, total_rows, txn_id }),
    {
        DeltaPatchFormat::Dense { values: Arc::new(values), total_rows, txn_id }
    }

    /// How many rows the patch affects.
    pub fn affected_count(&self) -> (n: u64)
        ensures
            n as nat == match self@ {
                FormatView::Sparse { affected_count, .. } => affected_count,
                FormatView::Dense { total_rows, .. } => total_rows as nat,
            },
    {
        match self {
            DeltaPatchFormat::Sparse { affected_count, .. } => *affected_count,
            DeltaPatchFormat::Dense { total_rows, .. } => *total_rows,
        }
    }

    /// Whether this is a sparse patch.
    pub fn is_sparse(&self) -> (r: bool)
        ensures
            r == (self@ is Sparse),
    {
        match self {
            DeltaPatchFormat::Sparse { .. } => true,
            DeltaPatchFormat::Dense { .. } => false,
        }
    }

    /// Whether this is a dense patch.
    pub fn is_dense(&self) -> (r: bool)
        ensures
            r == (self@ is Dense),
    {
        match self {
            DeltaPatchFormat::Sparse { .. } => false,
            DeltaPatchFormat::Dense { .. } => true,
        }
    }

    /// Writes the payload.
    pub fn to_bytes(&self) -> (r: Vec<u8>)
        ensures
            r@ == patch_payload(self@),
    {
        let mut buf: Vec<u8> = Vec::new();
        put_prefix(&mut buf);
        match self {
            DeltaPatchFormat::Sparse { positions, values, .. } => {
                buf.push(0u8);
                put_le(&mut buf, positions.len() as u64, 4);
                bytes_append(&mut buf, positions.as_slice());
                put_le(&mut buf, values.len() as u64, 4);
                bytes_append(&mut buf, values.as_slice());
            },
            DeltaPatchFormat::Dense { values, total_rows, txn_id } => {
                buf.push(1u8);
                put_le(&mut buf, *txn_id, 8);
                put_le(&mut buf, *total_rows, 8);
                put_le(&mut buf, values.len() as u64, 4);
                bytes_append(&mut buf, values.as_slice());
            },
        }
        assert(buf@ =~= patch_payload(self@));
        buf
    }

    /// Reads a payload, with or without the magic prefix; `None` when it is cut
    /// short or has an unknown format byte.
    pub fn from_bytes(bytes: &[u8]) -> (r: Option<Self>)
        ensures
            match r {
                Some(f) => parse_payload(bytes@) == Some(f@),
                None => parse_payload(bytes@) is None,
            },
    {
        let start: usize = if starts_with_magic(bytes) {
            7
        } else {
            0
        };
        let ghost s = if has_prefix(bytes@) {
            bytes@.skip(7)
        } else {
            bytes@
        };
        assert(s =~= bytes@.skip(start as int));
        proof {
            lemma_pow256();
        }
        let len: usize = bytes.len() - start;
        if len >= 9 && bytes[start] == 0 {
            assert(bytes@.subrange(start + 1, start + 5) =~= s.subrange(1, 5));
            let pos_len: usize = get_le(bytes, start + 1, 4) as usize;
            if len - 9 < pos_len {
                return None;
            }
            assert(bytes@.subrange(start + 5 + pos_len, start + 9 + pos_len) =~= s.subrange(
                5 + pos_len as int,
                9 + pos_len as int,
            ));
            let val_len: usize = get_le(bytes, start + 5 + pos_len, 4) as usize;
            if len - 9 - pos_len < val_len {
                return None;
            }
            let positions = bytes_range(bytes, start + 5, start + 5 + pos_len);
            let from: usize = start + 9 + pos_len;
            let values = bytes_range(bytes, from, from + val_len);
            assert(positions@ =~= s.subrange(5, 5 + pos_len as int));
            assert(values@ =~= s.subrange(9 + pos_len as int, 9 + pos_len + val_len as int));
            let affected_count: u64 = bitmap_cardinality(&bitmap_deserialize(positions.as_slice()));
            Some(
                DeltaPatchFormat::Sparse {
                    positions: Arc::new(positions),
                    values: Arc::new(values),
                    affected_count,
                },
            )
        } else if len >= 21 && bytes[start] == 1 {
            assert(bytes@.subrange(start + 1, start + 9) =~= s.subrange(1, 9));
            assert(bytes@.subrange(start + 9, start + 17) =~= s.subrange(9, 17));
            assert(bytes@.subrange(start + 17, start + 21) =~= s.subrange(17, 21));
            let txn_id: u64 = get_le(bytes, start + 1, 8);
            let total_rows: u64 = get_le(bytes, start + 9, 8);
            let val_len: usize = get_le(bytes, start + 17, 4) as usize;
            if len - 21 < val_len {
                return None;
            }
            let values = bytes_range(bytes, start + 21, start + 21 + val_len);
            assert(values@ =~= s.subrange(21, 21 + val_len as int));
            Some(DeltaPatchFormat::Dense { values: Arc::new(values), total_rows, txn_id })
        } else {
            None
        }
    }
}

proof fn lemma_parse_body_round_trip(f: FormatView)
    requires
        match f {
            FormatView::Sparse { positions, values, affected_count } => positions.len()
                <= u32::MAX && values.len() <= u32::MAX && affected_count == portable_rows(
                positions,
            ).len(),
            FormatView::Dense { values, .. } => values.len() <= u32::MAX,
        },
    ensures
        parse_body(patch_body(f)) == Some(f),
{
    let s = patch_body(f);
    lemma_pow256();
    match f {
        FormatView::Sparse { positions, values, affected_count } => {
            let p = positions.len();
            lemma_le_round_trip(p, 4);
            lemma_le_round_trip(values.len(), 4);
            assert(s.subrange(1, 5) =~= le_bytes(p, 4));
            assert(s.subrange(5 + p as int, 9 + p as int) =~= le_bytes(values.len(), 4));
            assert(s.subrange(5, 5 + p as int) =~= positions);
            assert(s.subrange(9 + p as int, (9 + p + values.len()) as int) =~= values);
        },
        FormatView::Dense { values, total_rows, txn_id } => {
            lemma_le_round_trip(txn_id as nat, 8);
            lemma_le_round_trip(total_rows as nat, 8);
            lemma_le_round_trip(values.len(), 4);
            assert(s.subrange(1, 9) =~= le_bytes(txn_id as nat, 8));
            assert(s.subrange(9, 17) =~= le_bytes(total_rows as nat, 8));
            assert(s.subrange(17, 21) =~= le_bytes(values.len(), 4));
            assert(s.subrange(21, 21 + values.len() as int) =~= values);
        },
    }
}

/// A payload reads back as the patch that was written, as long as its parts fit
/// their length fields and the row count of a sparse patch is that of its bitmap.
pub proof fn law_patch_round_trip(f: FormatView)
    requires
        match f {
            FormatView::Sparse { positions, values, affected_count } => positions.len()
                <= u32::MAX && values.len() <= u32::MAX && affected_count == portable_rows(
                positions,
            ).len(),
            FormatView::Dense { values, .. } => values.len() <= u32::MAX,
        },
    ensures
        parse_payload(patch_payload(f)) == Some(f),
{
    let s = patch_payload(f);
    assert(s.subrange(0, 6) =~= patch_prefix().subrange(0, 6));
    assert(s.skip(7) =~= patch_body(f));
    lemma_parse_body_round_trip(f);
}

/// A patch that was read from bytes is read back from those that it is written as.
pub proof fn law_parsed_patch_round_trip(s: Seq<u8>, f: FormatView)
    requires
        parse_payload(s) == Some(f),
    ensures
        parse_payload(patch_payload(f)) == Some(f),
{
    let body = if has_prefix(s) {
        s.skip(7)
    } else {
        s
    };
    lemma_pow256();
    match f {
        FormatView::Sparse { positions, .. } => {
            lemma_le_value_round_trip(body.subrange(1, 5));
            let p = positions.len() as int;
            lemma_le_value_round_trip(body.subrange(5 + p, 9 + p));
        },
        FormatView::Dense { .. } => {
            lemma_le_value_round_trip(body.subrange(17, 21));
        },
    }
    law_patch_round_trip(f);
}

/// A payload without the magic prefix reads back as the same patch.
pub proof fn law_patch_without_prefix(f: FormatView)
    requires
        match f {
            FormatView::Sparse { positions, values, affected_count } => positions.len()
                <= u32::MAX && values.len() <= u32::MAX && affected_count == portable_rows(
                positions,
            ).len(),
            FormatView::Dense { values, .. } => values.len() <= u32::MAX,
        },
    ensures
        parse_payload(patch_body(f)) == Some(f),
{
    let s = patch_body(f);
    if has_prefix(s) {
        assert(s.subrange(0, 6)[0] == s[0]);
        assert(patch_prefix().subrange(0, 6)[0] == 82);
    }
    lemma_parse_body_round_trip(f);
}

/// A persistent patch, the unit stored in L2 and L3.
#[derive(Debug)]
pub struct DeltaPatch {
    /// Segment ID.
    pub seg_id: String,
    /// Column name.
    pub column: String,
    /// Patch number.
    pub patch_id: u64,
    /// First and last transaction covered by this patch.
    pub txn_range: (u64, u64),
    /// The payload.
    pub format: DeltaPatchFormat,
    /// Statistics of this patch.
    pub zone_map: ZoneMap,
}

/// Checkpoint of the delta layers.
#[derive(Debug, Clone, Copy, PartialEq, Eq, Structural)]
pub struct DeltaCheckpointState {
    pub committed_txn: u64,
    pub l1_entry_count: usize,
    pub l1_size_bytes: u64,
    pub l2_patch_counts: u64,
    pub l3_patch_counts: u64,
}

} // verus!
