//! L1: deltas in memory.
//!
//! Writes go to the hot buffer. A flush swaps the hot and the cold buffer and
//! drains the cold one; what was swapped stays readable until the next swap.
use vstd::prelude::*;
use std::sync::Arc;
use vstd::utf8::encode_utf8;
use crate::ordmap::OrdMap;
use crate::storage::delta::config::SyncLevel;
use crate::storage::delta::heat::{class_of, policy_of, windowed, ColumnClass, ColumnHeatTracker, FlushPolicy};
use crate::storage::delta::types::{cell_views, share, CellView, DeltaCell};
use crate::text::{add_text, lists_text, text_copy, text_same};
use crate::write::{cell_op, logs_cell, op_type_of, payload_of, OpType, WalAppend};

verus! {

/// Segment, row, column and transaction of a cell.
type DeltaKey = ((String, u64), (String, u64));

/// Segment, row, column and transaction of a cell.
pub open spec fn mem_key(c: CellView) -> ((Seq<char>, u64), (Seq<char>, u64)) {
    ((c.seg_id, c.row_offset), (c.column, c.txn_id))
}

fn delta_key(delta: &DeltaCell) -> (r: DeltaKey)
    ensures
        r@ == mem_key(delta@),
{
    ((delta.seg_id.clone(), delta.row_offset), (delta.column.clone(), delta.txn_id))
}

/// The cells for which `keep` holds, in order.
pub open spec fn select(cells: Seq<CellView>, keep: spec_fn(CellView) -> bool) -> Seq<CellView>
    decreases cells.len(),
{
    if cells.len() == 0 {
        Seq::empty()
    } else {
        let front = select(cells.drop_last(), keep);
        if keep(cells.last()) {
            front.push(cells.last())
        } else {
            front
        }
    }
}

/// A selection holds exactly the cells for which `keep` holds.
pub proof fn lemma_select_contains(
    cells: Seq<CellView>,
    keep: spec_fn(CellView) -> bool,
    c: CellView,
)
    ensures
        select(cells, keep).contains(c) <==> cells.contains(c) && keep(c),
    decreases cells.len(),
{
    if cells.len() > 0 {
        let front = cells.drop_last();
        lemma_select_contains(front, keep, c);
        let s = select(front, keep);
        if front.contains(c) {
            assert(cells[front.index_of(c)] == c);
        }
        if cells.contains(c) && !front.contains(c) {
            let i = cells.index_of(c);
            if i < front.len() {
                assert(front[i] == c);
            }
            assert(c == cells.last());
        }
        if keep(cells.last()) {
            let t = s.push(cells.last());
            if s.contains(c) {
                assert(t[s.index_of(c)] == c);
            }
            if c == cells.last() {
                assert(t[s.len() as int] == c);
                assert(cells[front.len() as int] == c);
            }
            if t.contains(c) {
                let i = t.index_of(c);
                if i < s.len() {
                    assert(s[i] == c);
                }
            }
        }
    }
}

/// The cells of a segment that are marked committed and not newer than a
/// snapshot.
pub open spec fn seen_in(seg_id: Seq<char>, snapshot: u64) -> spec_fn(CellView) -> bool {
    |c: CellView| c.seg_id == seg_id && c.txn_id <= snapshot && c.committed
}

/// A buffer of cells, by segment, row, column and transaction.
#[derive(Debug)]
pub(crate) struct Buffer {
    map: OrdMap<DeltaKey, DeltaCell>,
}

impl Buffer {
    /// The cells, in the order of their keys.
    pub(crate) closed spec fn cells(&self) -> Seq<CellView> {
        Seq::new(self.map.keys().len(), |i: int| self.map.value_of(i)@)
    }

    /// The cells by their keys.
    pub(crate) closed spec fn by_key(&self) -> Map<((Seq<char>, u64), (Seq<char>, u64)), CellView> {
        self.map@.map_values(|c: DeltaCell| c@)
    }

    pub(crate) closed spec fn wf(&self) -> bool {
        &&& self.map.wf()
        &&& forall|k: ((Seq<char>, u64), (Seq<char>, u64))| #[trigger]
            self.map@.dom().contains(k) ==> mem_key(self.map@[k]@) == k
    }

    /// The list and the map hold the same cells.
    pub(crate) proof fn lemma_cells(&self)
        requires
            self.wf(),
        ensures
            forall|c: CellView| #[trigger]
                self.cells().contains(c) <==> self.by_key().dom().contains(mem_key(c))
                    && self.by_key()[mem_key(c)] == c,
    {
        assert forall|c: CellView| #[trigger]
            self.cells().contains(c) <==> self.by_key().dom().contains(mem_key(c))
                && self.by_key()[mem_key(c)] == c by {
            if self.cells().contains(c) {
                let i = self.cells().index_of(c);
                self.map.lemma_index(i);
            }
            if self.by_key().dom().contains(mem_key(c)) && self.by_key()[mem_key(c)] == c {
                let i = self.map.lemma_key(mem_key(c));
                assert(self.cells()[i] == c);
            }
        }
    }

    pub(crate) fn new() -> (r: Self)
        ensures
            r.wf(),
            r.cells() == Seq::<CellView>::empty(),
            r.by_key() == Map::<((Seq<char>, u64), (Seq<char>, u64)), CellView>::empty(),
    {
        let r = Buffer { map: OrdMap::new() };
        assert(r.cells() =~= Seq::empty());
        assert(r.by_key() =~= Map::empty());
        r
    }

    pub(crate) fn len(&self) -> (n: usize)
        ensures
            n == self.cells().len(),
    {
        self.map.len()
    }

    pub(crate) fn put(&mut self, delta: DeltaCell)
        requires
            old(self).wf(),
        ensures
            final(self).wf(),
            final(self).by_key() == old(self).by_key().insert(mem_key(delta@), delta@),
    {
        let key = delta_key(&delta);
        let ghost c = delta@;
        let _ = self.map.insert(key, delta);
        assert(self.by_key() =~= old(self).by_key().insert(mem_key(c), c));
    }

    /// A copy of the buffer.
    pub(crate) fn copy(&self) -> (r: Self)
        requires
            self.wf(),
        ensures
            r.wf(),
            r.cells() == self.cells(),
            r.by_key() == self.by_key(),
    {
        let map = self.map.clone_with();
        let r = Buffer { map };
        assert(r.cells() =~= self.cells());
        assert(r.by_key() =~= self.by_key());
        r
    }

    /// Appends the cells for which a segment and snapshot ask.
    pub(crate) fn collect(&self, seg_id: &str, snapshot: u64, out: &mut Vec<DeltaCell>)
        ensures
            cell_views(final(out)@) == cell_views(old(out)@) + select(
                self.cells(),
                seen_in(seg_id@, snapshot),
            ),
    {
        let ghost start = cell_views(out@);
        let ghost cells = self.cells();
        let ghost keep = seen_in(seg_id@, snapshot);
        let mut i: usize = 0;
        assert(cells.take(0) =~= Seq::empty());
        assert(start + Seq::<CellView>::empty() =~= start);
        while i < self.map.len()
            invariant
                i <= cells.len() == self.map.keys().len(),
                cells == self.cells(),
                keep == seen_in(seg_id@, snapshot),
                cell_views(out@) == start + select(cells.take(i as int), keep),
            decreases cells.len() - i,
        {
            let c = self.map.value_at(i);
            proof {
                assert(cells[i as int] == c@);
                assert(cells.take(i + 1).drop_last() =~= cells.take(i as int));
                let s = select(cells.take(i as int), keep);
                assert(cell_views(out@.push(*c)) =~= cell_views(out@).push(c@));
                assert((start + s).push(c@) =~= start + s.push(c@));
            }
            if text_same(c.seg_id.as_str(), seg_id) && c.txn_id <= snapshot && c.committed {
                out.push(c.clone());
            }
            i = i + 1;
        }
        assert(cells.take(i as int) =~= cells);
    }

    /// A copy of every cell, in order.
    pub(crate) fn list(&self) -> (r: Vec<DeltaCell>)
        ensures
            cell_views(r@) == self.cells(),
    {
        let mut r: Vec<DeltaCell> = Vec::new();
        let ghost cells = self.cells();
        let mut i: usize = 0;
        assert(cell_views(r@) =~= cells.take(0));
        while i < self.map.len()
            invariant
                i <= cells.len() == self.map.keys().len(),
                cells == self.cells(),
                cell_views(r@) == cells.take(i as int),
            decreases cells.len() - i,
        {
            let c = self.map.value_at(i);
            proof {
                assert(cells[i as int] == c@);
                assert(cell_views(r@.push(*c)) =~= cell_views(r@).push(c@));
                assert(cells.take(i + 1) =~= cells.take(i as int).push(c@));
            }
            r.push(c.clone());
            i = i + 1;
        }
        assert(cells.take(i as int) =~= cells);
        r
    }

    /// Adds the segments of the buffer to a list of segments without repetition.
    pub(crate) fn add_segments(&self, out: &mut Vec<String>)
        requires
            forall|i: int, j: int| 0 <= i < j < old(out)@.len() ==> old(out)@[i]@ != old(out)@[j]@,
        ensures
            forall|i: int, j: int|
                0 <= i < j < final(out)@.len() ==> final(out)@[i]@ != final(out)@[j]@,
            forall|s: Seq<char>| #[trigger]
                lists_text(final(out)@, s) <==> lists_text(old(out)@, s) || has_cell_of(
                    self.cells(),
                    s,
                ),
    {
        let ghost start = out@;
        let ghost cells = self.cells();
        let mut i: usize = 0;
        while i < self.map.len()
            invariant
                i <= cells.len() == self.map.keys().len(),
                cells == self.cells(),
                forall|a: int, b: int| 0 <= a < b < out@.len() ==> out@[a]@ != out@[b]@,
                forall|s: Seq<char>| #[trigger]
                    lists_text(out@, s) <==> lists_text(start, s) || has_cell_of(
                        cells.take(i as int),
                        s,
                    ),
            decreases cells.len() - i,
        {
            let c = self.map.value_at(i);
            assert(cells[i as int] == c@);
            let ghost before = out@;
            add_text(out, &c.seg_id);
            proof {
                let now = cells.take(i as int);
                let next = cells.take(i + 1);
                assert forall|s: Seq<char>| #[trigger] lists_text(out@, s) <==> lists_text(start, s)
                    || has_cell_of(next, s) by {
                    if has_cell_of(now, s) {
                        let k = choose|k: int| 0 <= k < now.len() && (#[trigger] now[k]).seg_id == s;
                        assert(next[k].seg_id == s);
                    }
                    if c@.seg_id == s {
                        assert(next[i as int].seg_id == s);
                    }
                    if has_cell_of(next, s) {
                        let k = choose|k: int|
                            0 <= k < next.len() && (#[trigger] next[k]).seg_id == s;
                        if k < i {
                            assert(now[k].seg_id == s);
                        }
                    }
                    assert(lists_text(before, s) <==> lists_text(start, s) || has_cell_of(now, s));
                }
            }
            i = i + 1;
        }
        assert(cells.take(i as int) =~= cells);
    }
}

/// Whether one of the cells is of a segment.
pub open spec fn has_cell_of(cells: Seq<CellView>, seg_id: Seq<char>) -> bool {
    exists|i: int| 0 <= i < cells.len() && (#[trigger] cells[i]).seg_id == seg_id
}

/// What L1 holds.
#[verifier::ext_equal]
pub struct MemView {
    /// The hot buffer, by key and in key order.
    pub hot: Map<((Seq<char>, u64), (Seq<char>, u64)), CellView>,
    pub hot_cells: Seq<CellView>,
    /// The cold buffer, by key and in key order.
    pub cold: Map<((Seq<char>, u64), (Seq<char>, u64)), CellView>,
    pub cold_cells: Seq<CellView>,
    /// What the last swap took out of the hot buffer, in key order.
    pub swapped: Seq<CellView>,
    /// Cells that are still to be logged.
    pub pending: Seq<CellView>,
    /// Estimated bytes in the hot buffer.
    pub size: u64,
}

/// The cells that a snapshot of a segment sees in L1: those of the hot buffer,
/// of the cold buffer, and of the last swap.
pub open spec fn visible_now(m: MemView, seg_id: Seq<char>, snapshot: u64) -> Seq<CellView> {
    let keep = seen_in(seg_id, snapshot);
    select(m.hot_cells, keep) + select(m.cold_cells, keep) + select(m.swapped, keep)
}

/// Estimated bytes of a cell: its texts, its images, and 32 more.
pub open spec fn cell_bytes(c: CellView) -> nat {
    let image = |i: Option<Seq<u8>>|
        match i {
            Some(b) => b.len(),
            None => 0,
        };
    let total = encode_utf8(c.column).len() + image(c.before) + image(c.after)
        + encode_utf8(c.seg_id).len() + 32;
    if total > u64::MAX {
        u64::MAX as nat
    } else {
        total
    }
}

/// Estimated bytes of a cell.
pub open spec fn cell_size(c: DeltaCell) -> nat {
    cell_bytes(c@)
}

fn image_len(image: &Option<Arc<Vec<u8>>>) -> (n: u64)
    ensures
        n as nat == match *image {
            Some(b) => b@.len(),
            None => 0,
        },
{
    match image {
        Some(b) => b.len() as u64,
        None => 0,
    }
}

/// Estimated bytes of a cell.
pub fn estimate_size(delta: &DeltaCell) -> (n: u64)
    ensures
        n as nat == cell_size(*delta),
{
    let col: u64 = delta.column.as_str().as_bytes().len() as u64;
    let seg: u64 = delta.seg_id.as_str().as_bytes().len() as u64;
    col.saturating_add(image_len(&delta.before)).saturating_add(
        image_len(&delta.after),
    ).saturating_add(seg).saturating_add(32)
}

/// A cached answer.
#[derive(Debug)]
struct CachedAnswer {
    seg_id: String,
    snapshot: u64,
    cells: Arc<Vec<DeltaCell>>,
}

/// L1 store.
#[derive(Debug)]
pub struct DeltaMemStore {
    hot: Buffer,
    cold: Buffer,
    snapshot: Buffer,
    hot_size_bytes: u64,
    flush_threshold: usize,
    hot_flush_threshold: usize,
    cold_flush_threshold: usize,
    sync_level: SyncLevel,
    wal_buffer: Vec<DeltaCell>,
    batch_ms: u64,
    batch_max_pending: usize,
    column_heat: ColumnHeatTracker,
    shutdown: bool,
    has_wal: bool,
    visible_cache: Vec<CachedAnswer>,
}

impl View for DeltaMemStore {
    type V = MemView;

    closed spec fn view(&self) -> MemView {
        MemView {
            hot: self.hot.by_key(),
            hot_cells: self.hot.cells(),
            cold: self.cold.by_key(),
            cold_cells: self.cold.cells(),
            swapped: self.snapshot.cells(),
            pending: cell_views(self.wal_buffer@),
            size: self.hot_size_bytes,
        }
    }
}

/// What of the configuration decides about the log and the flush.
#[verifier::ext_equal]
pub struct MemConfig {
    pub flush_threshold: usize,
    pub hot_flush_threshold: usize,
    pub cold_flush_threshold: usize,
    pub sync_level: SyncLevel,
    pub batch_ms: u64,
    pub batch_max_pending: usize,
    pub has_wal: bool,
    pub stopped: bool,
}

/// The append that logs a write before it counts, if the log is written at once:
/// durable for immediate logging, not for asynchronous. A cell without images
/// is not logged.
pub open spec fn write_ahead(config: MemConfig, c: CellView, r: Option<WalAppend>) -> bool {
    let logged = !config.stopped && config.has_wal && !(config.sync_level is Batch) && (
    c.before is Some || c.after is Some);
    match r {
        None => !logged,
        Some(a) => logged && a.op_type == OpType::Insert && a.txn_id == c.txn_id && logs_cell(
            a.payload,
            c,
            cell_op(c),
        ) && a.durable == (config.sync_level is Immediate),
    }
}

/// `appends` log `cells` durably, in order.
pub open spec fn logs_all(appends: Seq<WalAppend>, cells: Seq<CellView>) -> bool {
    &&& appends.len() == cells.len()
    &&& forall|i: int|
        #![trigger appends[i]]
        0 <= i < appends.len() ==> {
            &&& appends[i].op_type == cell_op(cells[i])
            &&& appends[i].txn_id == cells[i].txn_id
            &&& logs_cell(appends[i].payload, cells[i], cell_op(cells[i]))
            &&& appends[i].durable
        }
}

/// Whether the pending cells are to be logged now.
pub open spec fn batch_due(config: MemConfig, pending: nat, elapsed_ms: u64) -> bool {
    config.sync_level is Batch && pending > 0 && (pending >= config.batch_max_pending
        || elapsed_ms > config.batch_ms)
}

fn log_all(deltas: &Vec<DeltaCell>) -> (r: Vec<WalAppend>)
    ensures
        logs_all(r@, cell_views(deltas@)),
{
    let mut r: Vec<WalAppend> = Vec::new();
    let ghost cells = cell_views(deltas@);
    let mut i: usize = 0;
    while i < deltas.len()
        invariant
            i <= deltas@.len(),
            cells == cell_views(deltas@),
            logs_all(r@, cells.take(i as int)),
        decreases deltas@.len() - i,
    {
        let delta: &DeltaCell = &deltas[i];
        assert(cells[i as int] == delta@);
        let op_type = op_type_of(delta);
        let payload = payload_of(delta, op_type);
        let ghost prev = r@;
        r.push(WalAppend { op_type, txn_id: delta.txn_id, payload, durable: true });
        i = i + 1;
        proof {
            let want = cells.take(i as int);
            assert forall|k: int| #![trigger r@[k]] 0 <= k < r@.len() implies {
                &&& r@[k].op_type == cell_op(want[k])
                &&& r@[k].txn_id == want[k].txn_id
                &&& logs_cell(r@[k].payload, want[k], cell_op(want[k]))
                &&& r@[k].durable
            } by {
                if k < prev.len() {
                    assert(r@[k] == prev[k]);
                    assert(cells.take(i - 1)[k] == want[k]);
                }
            }
        }
    }
    assert(cells.take(i as int) =~= cells);
    r
}

impl DeltaMemStore {
    pub closed spec fn config(&self) -> MemConfig {
        MemConfig {
            flush_threshold: self.flush_threshold,
            hot_flush_threshold: self.hot_flush_threshold,
            cold_flush_threshold: self.cold_flush_threshold,
            sync_level: self.sync_level,
            batch_ms: self.batch_ms,
            batch_max_pending: self.batch_max_pending,
            has_wal: self.has_wal,
            stopped: self.shutdown,
        }
    }

    /// The write counts of the columns.
    pub closed spec fn heat(&self) -> ColumnHeatTracker {
        self.column_heat
    }

    /// Every cached answer is what the buffers give now.
    pub closed spec fn wf(&self) -> bool {
        &&& self.hot.wf()
        &&& self.cold.wf()
        &&& self.snapshot.wf()
        &&& self.column_heat.wf()
        &&& forall|i: int|
            #![trigger self.visible_cache@[i]]
            0 <= i < self.visible_cache@.len() ==> {
                let e = self.visible_cache@[i];
                cell_views(e.cells@) == visible_now(self@, e.seg_id@, e.snapshot)
            }
    }

    /// The buffers list what they hold.
    pub proof fn lemma_lists(&self)
        requires
            self.wf(),
        ensures
            forall|c: CellView| #[trigger]
                self@.hot_cells.contains(c) <==> self@.hot.dom().contains(mem_key(c))
                    && self@.hot[mem_key(c)] == c,
            forall|c: CellView| #[trigger]
                self@.cold_cells.contains(c) <==> self@.cold.dom().contains(mem_key(c))
                    && self@.cold[mem_key(c)] == c,
    {
        self.hot.lemma_cells();
        self.cold.lemma_cells();
    }

    /// An empty store without a log.
    pub fn new(flush_threshold: usize, sync_level: SyncLevel) -> (r: Self)
        ensures
            r.wf(),
            is_empty_mem(r@),
            is_mem_config(r.config(), flush_threshold, sync_level, false),
            r.heat().txns() == Map::<Seq<char>, Seq<u64>>::empty(),
            r.heat().window() == 256,
    {
        Self::with_wal(flush_threshold, sync_level, false)
    }

    /// An empty store, with or without a log.
    pub fn with_wal(flush_threshold: usize, sync_level: SyncLevel, has_wal: bool) -> (r: Self)
        ensures
            r.wf(),
            is_empty_mem(r@),
            is_mem_config(r.config(), flush_threshold, sync_level, has_wal),
            r.heat().txns() == Map::<Seq<char>, Seq<u64>>::empty(),
            r.heat().window() == 256,
    {
        let (batch_ms, batch_max_pending) = match sync_level {
            SyncLevel::Batch { ms, max_pending } => (ms, max_pending),
            _ => (100, 1000),
        };
        let r = DeltaMemStore {
            hot: Buffer::new(),
            cold: Buffer::new(),
            snapshot: Buffer::new(),
            hot_size_bytes: 0,
            flush_threshold,
            hot_flush_threshold: flush_threshold.saturating_add(flush_threshold / 2),
            cold_flush_threshold: flush_threshold / 2,
            sync_level,
            wal_buffer: Vec::new(),
            batch_ms,
            batch_max_pending,
            column_heat: ColumnHeatTracker::default(),
            shutdown: false,
            has_wal,
            visible_cache: Vec::new(),
        };
        assert(r@.pending =~= Seq::empty());
        r
    }

    /// Says whether there is a log.
    pub fn set_wal_writer(&mut self, has_wal: bool)
        requires
            old(self).wf(),
        ensures
            final(self).wf(),
            final(self)@ == old(self)@,
            final(self).heat() == old(self).heat(),
            final(self).config() == (MemConfig { has_wal, ..old(self).config() }),
    {
        self.has_wal = has_wal;
    }

    /// Stops the store: it takes no more cells.
    pub fn stop(&mut self)
        requires
            old(self).wf(),
        ensures
            final(self).wf(),
            final(self)@ == old(self)@,
            final(self).heat() == old(self).heat(),
            final(self).config() == (MemConfig { stopped: true, ..old(self).config() }),
    {
        self.shutdown = true;
    }

    /// Starts a write: notes it for its column and gives the append that has to
    /// succeed before `finish_put`.
    pub fn begin_put(&mut self, delta: &DeltaCell) -> (r: Option<WalAppend>)
        requires
            old(self).wf(),
        ensures
            final(self).wf(),
            final(self)@ == old(self)@,
            final(self).config() == old(self).config(),
            write_ahead(old(self).config(), delta@, r),
            if old(self).config().stopped {
                final(self).heat() == old(self).heat()
            } else {
                noted(old(self).heat(), final(self).heat(), delta.column@, delta.txn_id)
            },
    {
        if self.shutdown {
            return None;
        }
        self.column_heat.record_write(delta.column.as_str(), delta.txn_id);
        if !self.has_wal {
            return None;
        }
        let durable = match self.sync_level {
            SyncLevel::Immediate => true,
            SyncLevel::Async => false,
            SyncLevel::Batch { .. } => return None,
        };
        if delta.before.is_none() && delta.after.is_none() {
            return None;
        }
        let payload = payload_of(delta, op_type_of(delta));
        Some(WalAppend { op_type: OpType::Insert, txn_id: delta.txn_id, payload, durable })
    }

    /// Finishes a write: the cell goes to the hot buffer, and in batch mode to
    /// the pending cells; gives the appends that are due now.
    pub fn finish_put(&mut self, delta: DeltaCell, elapsed_ms: u64) -> (r: Vec<WalAppend>)
        requires
            old(self).wf(),
        ensures
            final(self).wf(),
            final(self).config() == old(self).config(),
            final(self).heat() == old(self).heat(),
            put_done(old(self).config(), old(self)@, final(self)@, delta, elapsed_ms, r@),
    {
        let mut appends: Vec<WalAppend> = Vec::new();
        if self.shutdown {
            return appends;
        }
        let ghost start = self@;
        let est: u64 = estimate_size(&delta);
        self.clear_cache();
        if let SyncLevel::Batch { .. } = self.sync_level {
            self.wal_buffer.push(delta.clone());
            assert(self@.pending =~= start.pending.push(delta@));
            let (_n, due) = self.flush_wal_buffer_if_needed(elapsed_ms);
            appends = due;
        }
        self.clear_cache();
        let ghost mid = self@;
        self.hot.put(delta);
        self.hot_size_bytes = self.hot_size_bytes.wrapping_add(est);
        assert(self@.pending == mid.pending);
        appends
    }

    /// Writes a cell to a store whose log, if any, cannot fail: gives the
    /// appends to be made.
    pub fn put(&mut self, delta: DeltaCell, elapsed_ms: u64) -> (r: (
        Option<WalAppend>,
        Vec<WalAppend>,
    ))
        requires
            old(self).wf(),
        ensures
            final(self).wf(),
            final(self).config() == old(self).config(),
            write_ahead(old(self).config(), delta@, r.0),
            put_done(old(self).config(), old(self)@, final(self)@, delta, elapsed_ms, r.1@),
            if old(self).config().stopped {
                final(self).heat() == old(self).heat()
            } else {
                noted(old(self).heat(), final(self).heat(), delta.column@, delta.txn_id)
            },
    {
        let first = self.begin_put(&delta);
        let rest = self.finish_put(delta, elapsed_ms);
        (first, rest)
    }

    fn clear_cache(&mut self)
        requires
            old(self).hot.wf(),
            old(self).cold.wf(),
            old(self).snapshot.wf(),
            old(self).column_heat.wf(),
        ensures
            final(self).wf(),
            final(self).visible_cache@.len() == 0,
            final(self).hot == old(self).hot,
            final(self).cold == old(self).cold,
            final(self).snapshot == old(self).snapshot,
            final(self).hot_size_bytes == old(self).hot_size_bytes,
            final(self).wal_buffer == old(self).wal_buffer,
            final(self).shutdown == old(self).shutdown,
            final(self).sync_level == old(self).sync_level,
            final(self).config() == old(self).config(),
            final(self).heat() == old(self).heat(),
    {
        self.visible_cache = Vec::new();
    }

    /// Takes out the pending cells and gives their number and the appends that
    /// log them.
    pub fn sync_wal_before_flush(&mut self) -> (r: (usize, Vec<WalAppend>))
        requires
            old(self).wf(),
        ensures
            final(self).wf(),
            final(self).config() == old(self).config(),
            final(self).heat() == old(self).heat(),
            final(self)@ == (MemView { pending: Seq::empty(), ..old(self)@ }),
            r.0 == old(self)@.pending.len(),
            if old(self).config().has_wal {
                logs_all(r.1@, old(self)@.pending)
            } else {
                r.1@.len() == 0
            },
    {
        let mut deltas: Vec<DeltaCell> = Vec::new();
        let ghost start = self@;
        std::mem::swap(&mut deltas, &mut self.wal_buffer);
        proof {
            assert(self@.pending =~= Seq::empty());
            assert(self@ =~= MemView { pending: Seq::empty(), ..start });
            assert forall|i: int|
                #![trigger self.visible_cache@[i]]
                0 <= i < self.visible_cache@.len() implies {
                let e = self.visible_cache@[i];
                cell_views(e.cells@) == visible_now(self@, e.seg_id@, e.snapshot)
            } by {
                let e = self.visible_cache@[i];
                assert(visible_now(self@, e.seg_id@, e.snapshot) == visible_now(
                    start,
                    e.seg_id@,
                    e.snapshot,
                ));
            }
        }
        let n: usize = deltas.len();
        if !self.has_wal {
            return (n, Vec::new());
        }
        (n, log_all(&deltas))
    }

    /// Takes out the pending cells when a batch is due: enough of them, or
    /// enough time since the last batch.
    pub fn flush_wal_buffer_if_needed(&mut self, elapsed_ms: u64) -> (r: (usize, Vec<WalAppend>))
        requires
            old(self).wf(),
        ensures
            final(self).wf(),
            final(self).config() == old(self).config(),
            final(self).heat() == old(self).heat(),
            ({
                let pending = old(self)@.pending;
                if batch_due(old(self).config(), pending.len(), elapsed_ms) {
                    &&& final(self)@ == (MemView { pending: Seq::empty(), ..old(self)@ })
                    &&& r.0 == pending.len()
                    &&& if old(self).config().has_wal {
                        logs_all(r.1@, pending)
                    } else {
                        r.1@.len() == 0
                    }
                } else {
                    final(self)@ == old(self)@ && r.0 == 0 && r.1@.len() == 0
                }
            }),
    {
        let batch = match self.sync_level {
            SyncLevel::Batch { .. } => true,
            _ => false,
        };
        let n: usize = self.wal_buffer.len();
        assert(n == self@.pending.len());
        if !batch || n == 0 || !(n >= self.batch_max_pending || elapsed_ms > self.batch_ms) {
            return (0, Vec::new());
        }
        self.sync_wal_before_flush()
    }

    /// Whether the hot buffer is above its threshold.
    pub fn should_flush(&self) -> (r: bool)
        ensures
            r == (self@.size > self.config().flush_threshold),
    {
        self.hot_size_bytes > self.flush_threshold as u64
    }

    /// Whether the hot buffer is above the threshold of a column, which is
    /// higher for a hot column and lower for a cold one.
    pub fn should_flush_for_column(&self, column: &str) -> (r: bool)
        requires
            self.wf(),
        ensures
            r == (self@.size > column_threshold(self.config(), self.heat(), column@)),
    {
        let threshold: usize = match self.column_heat.flush_priority(column) {
            FlushPolicy::Hot => self.hot_flush_threshold,
            FlushPolicy::Cold => self.cold_flush_threshold,
            FlushPolicy::Normal => self.flush_threshold,
        };
        self.hot_size_bytes > threshold as u64
    }

    /// Swaps the hot and the cold buffer and gives what was in the cold one.
    /// What was hot stays readable as the last swap.
    pub fn swap_and_drain(&mut self) -> (r: Vec<DeltaCell>)
        requires
            old(self).wf(),
        ensures
            final(self).wf(),
            final(self).config() == old(self).config(),
            final(self).heat() == old(self).heat(),
            cell_views(r@) == old(self)@.cold_cells,
            final(self)@ == swapped(old(self)@),
    {
        let ghost start = self@;
        self.clear_cache();
        let kept = self.hot.copy();
        let drained = self.cold.list();
        std::mem::swap(&mut self.hot, &mut self.cold);
        self.hot_size_bytes = 0;
        self.snapshot = kept;
        assert(self@ =~= swapped(start));
        drained
    }

    /// Empties the cold buffer and gives what was in it.
    pub fn drain_cold(&mut self) -> (r: Vec<DeltaCell>)
        requires
            old(self).wf(),
        ensures
            final(self).wf(),
            final(self).config() == old(self).config(),
            final(self).heat() == old(self).heat(),
            cell_views(r@) == old(self)@.cold_cells,
            final(self)@ == drained(old(self)@),
    {
        let ghost start = self@;
        self.clear_cache();
        let r = self.cold.list();
        self.cold = Buffer::new();
        assert(self@ =~= drained(start));
        r
    }

    /// Swaps and drains: gives what was in the cold buffer and then what was in
    /// the hot one.
    pub fn drain_after_swap(&mut self) -> (r: Vec<DeltaCell>)
        requires
            old(self).wf(),
        ensures
            final(self).wf(),
            final(self).config() == old(self).config(),
            final(self).heat() == old(self).heat(),
            cell_views(r@) == old(self)@.cold_cells + old(self)@.hot_cells,
            final(self)@ == drained(swapped(old(self)@)),
    {
        let mut first = self.swap_and_drain();
        let mut second = self.drain_cold();
        assert(cell_views(first@ + second@) =~= cell_views(first@) + cell_views(second@));
        first.append(&mut second);
        first
    }

    /// Swaps and drains when the hot buffer is above its threshold.
    pub fn try_flush(&mut self) -> (r: Option<Vec<DeltaCell>>)
        requires
            old(self).wf(),
        ensures
            final(self).wf(),
            final(self).config() == old(self).config(),
            final(self).heat() == old(self).heat(),
            match r {
                Some(v) => old(self)@.size > old(self).config().flush_threshold && cell_views(v@)
                    == old(self)@.cold_cells && final(self)@ == swapped(old(self)@),
                None => old(self)@.size <= old(self).config().flush_threshold && final(self)@
                    == old(self)@,
            },
    {
        if !self.should_flush() {
            return None;
        }
        Some(self.swap_and_drain())
    }

    /// The cells that a snapshot of a segment sees.
    pub fn visible(&self, seg_id: &str, snapshot_txn: u64) -> (r: Vec<DeltaCell>)
        ensures
            cell_views(r@) == visible_now(self@, seg_id@, snapshot_txn),
    {
        let mut r: Vec<DeltaCell> = Vec::new();
        let ghost keep = seen_in(seg_id@, snapshot_txn);
        assert(cell_views(r@) =~= Seq::empty());
        self.hot.collect(seg_id, snapshot_txn, &mut r);
        assert(cell_views(r@) =~= select(self@.hot_cells, keep));
        self.cold.collect(seg_id, snapshot_txn, &mut r);
        self.snapshot.collect(seg_id, snapshot_txn, &mut r);
        r
    }

    /// The cells that a snapshot of a segment sees; the last sixteen answers
    /// are kept until the store changes.
    pub fn get_visible(&mut self, seg_id: &str, snapshot_txn: u64) -> (r: Arc<Vec<DeltaCell>>)
        requires
            old(self).wf(),
        ensures
            final(self).wf(),
            final(self)@ == old(self)@,
            final(self).config() == old(self).config(),
            final(self).heat() == old(self).heat(),
            cell_views(r@) == visible_now(old(self)@, seg_id@, snapshot_txn),
    {
        let mut i: usize = 0;
        while i < self.visible_cache.len()
            invariant
                self.wf(),
                *self == *old(self),
                i <= self.visible_cache@.len(),
            decreases self.visible_cache@.len() - i,
        {
            let e: &CachedAnswer = &self.visible_cache[i];
            if e.snapshot == snapshot_txn && text_same(e.seg_id.as_str(), seg_id) {
                return share(&e.cells);
            }
            i = i + 1;
        }
        let result = Arc::new(self.visible(seg_id, snapshot_txn));
        let ghost start = self@;
        if self.visible_cache.len() >= 16 {
            let _ = self.visible_cache.remove(0);
        }
        let entry = CachedAnswer {
            seg_id: text_copy(seg_id),
            snapshot: snapshot_txn,
            cells: share(&result),
        };
        self.visible_cache.push(entry);
        proof {
            assert(self@ == start);
            assert forall|k: int|
                #![trigger self.visible_cache@[k]]
                0 <= k < self.visible_cache@.len() implies {
                let e = self.visible_cache@[k];
                cell_views(e.cells@) == visible_now(self@, e.seg_id@, e.snapshot)
            } by {
                let was = old(self).visible_cache@;
                if k < self.visible_cache@.len() - 1 {
                    if was.len() >= 16 {
                        assert(self.visible_cache@[k] == was[k + 1]);
                    } else {
                        assert(self.visible_cache@[k] == was[k]);
                    }
                }
            }
        }
        result
    }

    /// A copy of the cells that a snapshot of a segment sees.
    pub fn get_patches(&self, seg_id: &str, snapshot_txn: u64) -> (r: Vec<DeltaCell>)
        ensures
            cell_views(r@) == visible_now(self@, seg_id@, snapshot_txn),
    {
        self.visible(seg_id, snapshot_txn)
    }

    /// The cell of a row and column that a snapshot of a segment sees with the
    /// highest transaction, the last of them on a tie.
    pub fn get_cell(&self, seg_id: &str, row_offset: u64, column: &str, snapshot_txn: u64) -> (r:
        Option<DeltaCell>)
        ensures
            picks_cell(visible_now(self@, seg_id@, snapshot_txn), row_offset, column@, r),
    {
        let cells = self.visible(seg_id, snapshot_txn);
        pick_cell(&cells, row_offset, column)
    }

    /// The segments of the hot and the cold buffer, each once.
    pub fn get_segment_ids(&self) -> (r: Vec<String>)
        ensures
            forall|i: int, j: int| 0 <= i < j < r@.len() ==> r@[i]@ != r@[j]@,
            forall|s: Seq<char>| #[trigger]
                lists_text(r@, s) <==> has_cell_of(self@.hot_cells, s) || has_cell_of(
                    self@.cold_cells,
                    s,
                ),
    {
        let mut r: Vec<String> = Vec::new();
        self.hot.add_segments(&mut r);
        self.cold.add_segments(&mut r);
        r
    }

    /// How many cells are in the hot buffer.
    pub fn len(&self) -> (n: usize)
        ensures
            n == self@.hot_cells.len(),
    {
        self.hot.len()
    }

    /// Estimated bytes in the hot buffer.
    pub fn size_bytes(&self) -> (n: u64)
        ensures
            n == self@.size,
    {
        self.hot_size_bytes
    }

    /// Whether the hot buffer is empty.
    pub fn is_empty(&self) -> (r: bool)
        ensures
            r == (self@.hot_cells.len() == 0),
    {
        self.hot.len() == 0
    }

    /// The write counts of the columns.
    pub fn column_heat(&self) -> (r: &ColumnHeatTracker)
        ensures
            *r == self.heat(),
    {
        &self.column_heat
    }

    /// Takes in a cell that was logged before, without logging it again.
    pub fn replay_into(&mut self, delta: DeltaCell)
        requires
            old(self).wf(),
        ensures
            final(self).wf(),
            final(self).config() == old(self).config(),
            final(self).heat() == old(self).heat(),
            if old(self).config().stopped {
                final(self)@ == old(self)@
            } else {
                hot_grew(old(self)@, final(self)@, delta)
            },
    {
        if self.shutdown {
            return;
        }
        let est: u64 = estimate_size(&delta);
        self.clear_cache();
        self.hot.put(delta);
        self.hot_size_bytes = self.hot_size_bytes.wrapping_add(est);
    }
}

/// The store holds nothing.
pub open spec fn is_empty_mem(m: MemView) -> bool {
    &&& m.hot == Map::<((Seq<char>, u64), (Seq<char>, u64)), CellView>::empty()
    &&& m.hot_cells == Seq::<CellView>::empty()
    &&& m.cold == Map::<((Seq<char>, u64), (Seq<char>, u64)), CellView>::empty()
    &&& m.cold_cells == Seq::<CellView>::empty()
    &&& m.swapped == Seq::<CellView>::empty()
    &&& m.pending == Seq::<CellView>::empty()
    &&& m.size == 0
}

/// The configuration of a new store: hot columns wait for half as much again,
/// cold ones for half.
pub open spec fn is_mem_config(
    c: MemConfig,
    threshold: usize,
    sync_level: SyncLevel,
    has_wal: bool,
) -> bool {
    &&& c.flush_threshold == threshold
    &&& c.hot_flush_threshold == if threshold + threshold / 2 > usize::MAX {
        usize::MAX as int
    } else {
        threshold + threshold / 2
    }
    &&& c.cold_flush_threshold == threshold / 2
    &&& c.sync_level == sync_level
    &&& c.batch_ms == match sync_level {
        SyncLevel::Batch { ms, .. } => ms,
        _ => 100,
    }
    &&& c.batch_max_pending == match sync_level {
        SyncLevel::Batch { max_pending, .. } => max_pending,
        _ => 1000,
    }
    &&& c.has_wal == has_wal
    &&& !c.stopped
}

/// A transaction was noted for a column, and nothing else changed.
pub open spec fn noted(
    before: ColumnHeatTracker,
    after: ColumnHeatTracker,
    column: Seq<char>,
    txn: u64,
) -> bool {
    &&& after.window() == before.window()
    &&& after.hot_threshold() == before.hot_threshold()
    &&& after.cold_threshold() == before.cold_threshold()
    &&& after.txns() == before.txns().insert(
        column,
        windowed(
            if before.txns().dom().contains(column) {
                before.txns()[column]
            } else {
                Seq::empty()
            },
            txn,
            before.window(),
        ),
    )
}

/// The bytes above which a column is flushed.
pub open spec fn column_threshold(
    config: MemConfig,
    heat: ColumnHeatTracker,
    column: Seq<char>,
) -> usize {
    let class = if heat.txns().dom().contains(column) {
        class_of(
            heat.txns()[column],
            heat.window(),
            heat.hot_threshold(),
            heat.cold_threshold(),
        )
    } else {
        ColumnClass::Warm
    };
    match policy_of(class) {
        FlushPolicy::Hot => config.hot_flush_threshold,
        FlushPolicy::Cold => config.cold_flush_threshold,
        FlushPolicy::Normal => config.flush_threshold,
    }
}

/// The hot buffer took in a cell, and nothing else changed but its size.
pub open spec fn hot_grew(before: MemView, after: MemView, delta: DeltaCell) -> bool {
    &&& after.hot == before.hot.insert(mem_key(delta@), delta@)
    &&& after.cold == before.cold
    &&& after.cold_cells == before.cold_cells
    &&& after.swapped == before.swapped
    &&& after.pending == before.pending
    &&& after.size as int == (before.size + cell_size(delta)) % 0x1_0000_0000_0000_0000
}

/// A write was finished.
pub open spec fn put_done(
    config: MemConfig,
    before: MemView,
    after: MemView,
    delta: DeltaCell,
    elapsed_ms: u64,
    appends: Seq<WalAppend>,
) -> bool {
    if config.stopped {
        after == before && appends.len() == 0
    } else {
        let queued = if config.sync_level is Batch {
            before.pending.push(delta@)
        } else {
            before.pending
        };
        let due = batch_due(config, queued.len(), elapsed_ms);
        &&& hot_grew(
            MemView {
                pending: if due {
                    Seq::empty()
                } else {
                    queued
                },
                ..before
            },
            after,
            delta,
        )
        &&& if due && config.has_wal {
            logs_all(appends, queued)
        } else {
            appends.len() == 0
        }
    }
}

/// The store after a swap.
pub open spec fn swapped(m: MemView) -> MemView {
    MemView {
        hot: m.cold,
        hot_cells: m.cold_cells,
        cold: m.hot,
        cold_cells: m.hot_cells,
        swapped: m.hot_cells,
        pending: m.pending,
        size: 0,
    }
}

/// The store with an empty cold buffer.
pub open spec fn drained(m: MemView) -> MemView {
    MemView { cold: Map::empty(), cold_cells: Seq::empty(), ..m }
}

/// Whether a cell is of a row and column.
pub open spec fn of_cell(c: CellView, row: u64, column: Seq<char>) -> bool {
    c.row_offset == row && c.column == column
}

/// The cell at `b` is the last with the highest transaction among the cells of
/// a row and column.
pub open spec fn best_at(cells: Seq<CellView>, row: u64, column: Seq<char>, b: int) -> bool {
    &&& 0 <= b < cells.len()
    &&& of_cell(cells[b], row, column)
    &&& forall|k: int|
        #![trigger cells[k]]
        0 <= k < cells.len() && k != b && of_cell(cells[k], row, column) ==> if k < b {
            cells[k].txn_id <= cells[b].txn_id
        } else {
            cells[k].txn_id < cells[b].txn_id
        }
}

/// `r` is the cell of a row and column with the highest transaction, the last
/// of them on a tie; none when there is no such cell.
pub open spec fn picks_cell(
    cells: Seq<CellView>,
    row: u64,
    column: Seq<char>,
    r: Option<DeltaCell>,
) -> bool {
    match r {
        Some(c) => exists|b: int| best_at(cells, row, column, b) && c@ == cells[b],
        None => forall|k: int|
            #![trigger cells[k]]
            0 <= k < cells.len() ==> !of_cell(cells[k], row, column),
    }
}

/// Picks the cell of a row and column with the highest transaction.
pub(crate) fn pick_cell(cells: &Vec<DeltaCell>, row_offset: u64, column: &str) -> (r: Option<
    DeltaCell,
>)
    ensures
        picks_cell(cell_views(cells@), row_offset, column@, r),
{
    let ghost views = cell_views(cells@);
    let mut best: Option<usize> = None;
    let mut i: usize = 0;
    while i < cells.len()
        invariant
            i <= cells@.len(),
            views == cell_views(cells@),
            best matches Some(b) ==> b < i && best_at(
                views.take(i as int),
                row_offset,
                column@,
                b as int,
            ),
            best is None ==> forall|k: int|
                #![trigger views[k]]
                0 <= k < i ==> !of_cell(views[k], row_offset, column@),
        decreases cells@.len() - i,
    {
        let d: &DeltaCell = &cells[i];
        let ghost now = views.take(i as int);
        let ghost next = views.take(i + 1);
        assert(views[i as int] == d@);
        if d.row_offset == row_offset && text_same(d.column.as_str(), column) {
            let better = match best {
                Some(b) => {
                    assert(views[b as int] == cells@[b as int]@);
                    d.txn_id >= cells[b].txn_id
                },
                None => true,
            };
            if better {
                best = Some(i);
            }
        }
        proof {
            if let Some(b) = best {
                assert(best_at(next, row_offset, column@, b as int)) by {
                    assert forall|k: int|
                        #![trigger next[k]]
                        0 <= k < next.len() && k != b && of_cell(
                            next[k],
                            row_offset,
                            column@,
                        ) implies if k < b {
                        next[k].txn_id <= next[b as int].txn_id
                    } else {
                        next[k].txn_id < next[b as int].txn_id
                    } by {
                        assert(next[k] == views[k]);
                        if k < i {
                            assert(now[k] == next[k]);
                        }
                    }
                }
            }
        }
        i = i + 1;
    }
    assert(views.take(i as int) =~= views);
    match best {
        Some(b) => {
            assert(views[b as int] == cells@[b as int]@);
            Some(cells[b].clone())
        },
        None => None,
    }
}

/// A cell that was put and is marked committed is seen by every snapshot of its
/// segment that is not older.
pub proof fn law_put_is_visible(before: DeltaMemStore, after: DeltaMemStore, delta: DeltaCell, snapshot: u64)
    requires
        after.wf(),
        hot_grew(before@, after@, delta),
        delta.committed,
        delta.txn_id <= snapshot,
    ensures
        visible_now(after@, delta.seg_id@, snapshot).contains(delta@),
{
    after.lemma_lists();
    let keep = seen_in(delta.seg_id@, snapshot);
    let m = after@;
    assert(m.hot_cells.contains(delta@));
    lemma_select_contains(m.hot_cells, keep, delta@);
    let hot = select(m.hot_cells, keep);
    let i = hot.index_of(delta@);
    assert(visible_now(m, delta.seg_id@, snapshot)[i] == delta@);
}

/// A swap loses nothing: what a snapshot saw in the hot or the cold buffer, it
/// sees after the swap.
pub proof fn law_swap_keeps_cells_visible(m: MemView, seg_id: Seq<char>, snapshot: u64, c: CellView)
    requires
        m.hot_cells.contains(c) || m.cold_cells.contains(c),
        seen_in(seg_id, snapshot)(c),
    ensures
        visible_now(swapped(m), seg_id, snapshot).contains(c),
{
    let keep = seen_in(seg_id, snapshot);
    let s = swapped(m);
    lemma_select_contains(s.hot_cells, keep, c);
    lemma_select_contains(s.cold_cells, keep, c);
    let a = select(s.hot_cells, keep);
    let b = select(s.cold_cells, keep);
    let v = visible_now(s, seg_id, snapshot);
    if a.contains(c) {
        assert(v[a.index_of(c)] == c);
    } else {
        assert(v[a.len() + b.index_of(c)] == c);
    }
}

/// Draining hides nothing that was hot: after a swap and a drain the cells that
/// were hot are still seen.
pub proof fn law_drain_keeps_swapped_cells_visible(
    m: MemView,
    seg_id: Seq<char>,
    snapshot: u64,
    c: CellView,
)
    requires
        m.hot_cells.contains(c),
        seen_in(seg_id, snapshot)(c),
    ensures
        visible_now(drained(swapped(m)), seg_id, snapshot).contains(c),
{
    let keep = seen_in(seg_id, snapshot);
    let s = drained(swapped(m));
    lemma_select_contains(s.swapped, keep, c);
    let a = select(s.hot_cells, keep);
    let b = select(s.cold_cells, keep);
    let k = select(s.swapped, keep);
    let v = visible_now(s, seg_id, snapshot);
    assert(v[a.len() + b.len() + k.index_of(c)] == c);
}

/// What `drain_after_swap` hands out is all that was in the two buffers.
pub proof fn law_drain_hands_out_everything(m: MemView, c: CellView)
    ensures
        (m.cold_cells + m.hot_cells).contains(c) <==> m.cold_cells.contains(c)
            || m.hot_cells.contains(c),
{
    let all = m.cold_cells + m.hot_cells;
    if m.cold_cells.contains(c) {
        assert(all[m.cold_cells.index_of(c)] == c);
    }
    if m.hot_cells.contains(c) {
        assert(all[m.cold_cells.len() + m.hot_cells.index_of(c)] == c);
    }
    if all.contains(c) {
        let i = all.index_of(c);
        if i < m.cold_cells.len() {
            assert(m.cold_cells[i] == c);
        } else {
            assert(m.hot_cells[i - m.cold_cells.len()] == c);
        }
    }
}

} // verus!
