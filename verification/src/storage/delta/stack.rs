//! The three delta layers together.
//!
//! Writes go to L1, a flush moves them to L2, a compaction to L3. Queries merge
//! what the layers hold.
use vstd::prelude::*;
use std::collections::{HashMap, HashSet};
use crate::error::RockDuckError;
use crate::ordmap::OrdMap;
use crate::storage::delta::config::DeltaConfig;
use crate::storage::delta::disk_store::{gather, gather_batch, has_segment, DeltaL2Disk, DiskView};
use crate::storage::delta::frozen_store::{frozen_gather, has_frozen, DeltaL3Frozen, FrozenView};
use crate::storage::delta::mem_store::{has_cell_of, is_empty_mem, is_mem_config, noted, pick_cell, picks_cell, put_done, select, visible_now, write_ahead, DeltaMemStore};
use crate::storage::delta::merge::{all_cells, cell_key, is_merge, k_way_merge, seen_by, CellKey, Latest};
use crate::storage::delta::types::{cell_views, CellView, DeltaCell};
use crate::text::{add_text, join_path, joined, lists_text, text_same};
use crate::write::{replayed, replayed_cell, WalAppend, WalOp};

verus! {

/// Queries of the delta layers.
pub trait DeltaQueryLayer: Sized {
    /// The layers are in order.
    spec fn ready(&self) -> bool;

    /// What the layers hold of a segment for a snapshot, layer after layer.
    spec fn held(&self, seg_id: Seq<char>, snapshot: u64) -> Result<Seq<CellView>, RockDuckError>;

    /// What the layers hold of a segment between two transactions, damaged
    /// parts left out.
    spec fn changed(&self, seg_id: Seq<char>, committed: u64, since: u64) -> Seq<CellView>;

    /// What the layers hold of a segment for a snapshot within a batch of
    /// segments, damaged parts left out.
    spec fn held_in_batch(&self, seg_ids: Seq<String>, seg_id: Seq<char>, snapshot: u64) -> Seq<
        CellView,
    >;

    /// Whether one of the layers holds something of a segment.
    spec fn knows(&self, seg_id: Seq<char>) -> bool;

    /// The latest visible delta of each cell of a segment.
    fn query(
        &self,
        seg_id: &str,
        snapshot_txn: u64,
        commit_ts_by_txn: &HashMap<u64, u64>,
        active_txns: &HashSet<u64>,
    ) -> (r: Result<Vec<DeltaCell>, RockDuckError>)
        requires
            self.ready(),
        ensures
            match self.held(seg_id@, snapshot_txn) {
                Err(e) => r == Err::<Vec<DeltaCell>, RockDuckError>(e),
                Ok(cells) => r matches Ok(v) && is_merge(
                    cell_views(v@),
                    cells,
                    seen_by(snapshot_txn, commit_ts_by_txn@, active_txns@),
                ),
            },
    ;

    /// The latest visible delta of one cell.
    fn query_cell(
        &self,
        seg_id: &str,
        row_offset: u32,
        column: &str,
        snapshot_txn: u64,
        commit_ts_by_txn: &HashMap<u64, u64>,
        active_txns: &HashSet<u64>,
    ) -> (r: Result<Option<DeltaCell>, RockDuckError>)
        requires
            self.ready(),
        ensures
            match self.held(seg_id@, snapshot_txn) {
                Err(e) => r == Err::<Option<DeltaCell>, RockDuckError>(e),
                Ok(cells) => r matches Ok(answer) && exists|merged: Seq<CellView>|
                    is_merge(
                        merged,
                        cells,
                        seen_by(snapshot_txn, commit_ts_by_txn@, active_txns@),
                    ) && #[trigger] picks_cell(merged, row_offset as u64, column@, answer),
            },
    ;

    /// The segments of all layers, each once.
    fn get_all_segment_ids(&self) -> (r: Vec<String>)
        requires
            self.ready(),
        ensures
            forall|i: int, j: int| 0 <= i < j < r@.len() ==> r@[i]@ != r@[j]@,
            forall|s: Seq<char>| #[trigger] lists_text(r@, s) <==> self.knows(s),
    ;

    /// The latest delta of each cell of a segment that was committed after
    /// `since` and not after `committed`.
    fn query_all_layers(&self, seg_id: &str, committed: u64, since: u64) -> (r: Vec<DeltaCell>)
        requires
            self.ready(),
        ensures
            is_merge(
                cell_views(r@),
                self.changed(seg_id@, committed, since),
                |c: CellView| true,
            ),
    ;

    /// `query` for each of several segments; the first error ends it.
    fn query_batch(
        &self,
        seg_ids: &Vec<String>,
        snapshot_txn: u64,
        commit_ts_by_txn: &HashMap<u64, u64>,
        active_txns: &HashSet<u64>,
    ) -> (r: Result<OrdMap<String, Vec<DeltaCell>>, RockDuckError>)
        requires
            self.ready(),
        ensures
            match r {
                Ok(m) => {
                    &&& m.wf()
                    &&& forall|s: Seq<char>| #[trigger]
                        m@.dom().contains(s) <==> lists_text(seg_ids@, s)
                    &&& forall|s: Seq<char>| #[trigger]
                        m@.dom().contains(s) ==> (self.held(s, snapshot_txn) matches Ok(cells)
                            && is_merge(
                            cell_views(m@[s]@),
                            cells,
                            seen_by(snapshot_txn, commit_ts_by_txn@, active_txns@),
                        ))
                },
                Err(e) => exists|i: int|
                    0 <= i < seg_ids@.len() && self.held(
                        (#[trigger] seg_ids@[i])@,
                        snapshot_txn,
                    ) == Err::<Seq<CellView>, RockDuckError>(e) && forall|j: int|
                        0 <= j < i ==> self.held((#[trigger] seg_ids@[j])@, snapshot_txn) is Ok,
            },
    ;

    /// The latest delta of each cell of several segments, by segment.
    fn get_visible_batch(&self, seg_ids: &Vec<String>, snapshot_txn: u64) -> (r: OrdMap<
        String,
        Vec<DeltaCell>,
    >)
        requires
            self.ready(),
        ensures
            r.wf(),
            forall|s: Seq<char>| #[trigger] r@.dom().contains(s) <==> lists_text(seg_ids@, s),
            forall|s: Seq<char>| #[trigger]
                r@.dom().contains(s) ==> is_merge(
                    cell_views(r@[s]@),
                    self.held_in_batch(seg_ids@, s, snapshot_txn),
                    |c: CellView| true,
                ),
    ;
}

/// The three layers and what a flush between them needs.
#[derive(Debug)]
pub struct DeltaLayerStack {
    pub l1: DeltaMemStore,
    pub l2: DeltaL2Disk,
    pub l3: DeltaL3Frozen,
    pub config: DeltaConfig,
    pub l2_patch_count: usize,
    pub l3_patch_count: usize,
    pub recent_flush: OrdMap<CellKey, DeltaCell>,
    pub flush_epoch: u64,
}

/// What the stack holds besides its layers.
#[verifier::ext_equal]
pub struct StackView {
    /// Cells of a flush that is under way, by segment, column and row, in order.
    pub recent: Map<(Seq<char>, Seq<char>, u64), CellView>,
    pub recent_cells: Seq<CellView>,
    pub flush_epoch: u64,
    pub l2_patch_count: usize,
    pub l3_patch_count: usize,
}

impl View for DeltaLayerStack {
    type V = StackView;

    open spec fn view(&self) -> StackView {
        StackView {
            recent: self.recent_flush@.map_values(|c: DeltaCell| c@),
            recent_cells: Seq::new(
                self.recent_flush.keys().len(),
                |i: int| self.recent_flush.value_of(i)@,
            ),
            flush_epoch: self.flush_epoch,
            l2_patch_count: self.l2_patch_count,
            l3_patch_count: self.l3_patch_count,
        }
    }
}

/// The cells committed after `since` and not after `committed`.
pub open spec fn between(since: u64, committed: u64) -> spec_fn(CellView) -> bool {
    |c: CellView| c.txn_id > since && c.txn_id <= committed && c.committed
}

/// The cells of a segment committed after `since` and not after `committed`.
pub open spec fn between_in(seg_id: Seq<char>, since: u64, committed: u64) -> spec_fn(
    CellView,
) -> bool {
    |c: CellView|
        c.seg_id == seg_id && c.txn_id > since && c.txn_id <= committed && c.committed
}

/// The cells of a segment committed not after a snapshot.
pub open spec fn committed_in(seg_id: Seq<char>, snapshot: u64) -> spec_fn(CellView) -> bool {
    |c: CellView| c.seg_id == seg_id && c.txn_id <= snapshot && c.committed
}

/// The cells by identity, a later one in place of an earlier.
pub open spec fn by_identity(cells: Seq<CellView>) -> Map<(Seq<char>, Seq<char>, u64), CellView>
    decreases cells.len(),
{
    if cells.len() == 0 {
        Map::empty()
    } else {
        by_identity(cells.drop_last()).insert(cell_key(cells.last()), cells.last())
    }
}

fn cell_key_of(delta: &DeltaCell) -> (r: CellKey)
    ensures
        r@ == cell_key(delta@),
{
    (delta.seg_id.clone(), delta.column.clone(), delta.row_offset)
}

impl DeltaLayerStack {
    pub open spec fn wf(&self) -> bool {
        self.l1.wf() && self.l2.wf() && self.l3.wf() && self.recent_flush.wf()
    }

    /// Empty layers with given patch counts.
    pub fn new(config: DeltaConfig, l2_patch_count: usize, l3_patch_count: usize) -> (r: Self)
        ensures
            r.wf(),
            r.config == config,
            is_empty_mem(r.l1@),
            is_mem_config(r.l1.config(), config.l1_flush_threshold, config.sync_level, false),
            r.l2@ == (DiskView { guards: Map::empty(), files: Map::empty() }),
            r.l2.root() == joined(config.data_dir@, "l2"@),
            r.l3@ == (FrozenView { index: Map::empty(), files: Map::empty() }),
            r.l3.root() == joined(config.data_dir@, "l3"@),
            r@ == (StackView {
                recent: Map::empty(),
                recent_cells: Seq::empty(),
                flush_epoch: 0,
                l2_patch_count,
                l3_patch_count,
            }),
    {
        let l1 = DeltaMemStore::new(config.l1_flush_threshold, config.sync_level);
        let l2 = DeltaL2Disk::new(join_path(config.data_dir.as_str(), "l2"));
        let l3 = DeltaL3Frozen::new(join_path(config.data_dir.as_str(), "l3"));
        let r = DeltaLayerStack {
            l1,
            l2,
            l3,
            config,
            l2_patch_count,
            l3_patch_count,
            recent_flush: OrdMap::new(),
            flush_epoch: 0,
        };
        assert(r@.recent =~= Map::empty());
        assert(r@.recent_cells =~= Seq::empty());
        r
    }

    /// Empty layers with patch counts of zero.
    pub fn new_with_default_counters(config: DeltaConfig) -> (r: Self)
        ensures
            r.wf(),
            r.config == config,
            is_empty_mem(r.l1@),
            is_mem_config(r.l1.config(), config.l1_flush_threshold, config.sync_level, false),
            r.l2@ == (DiskView { guards: Map::empty(), files: Map::empty() }),
            r.l2.root() == joined(config.data_dir@, "l2"@),
            r.l3@ == (FrozenView { index: Map::empty(), files: Map::empty() }),
            r.l3.root() == joined(config.data_dir@, "l3"@),
            r@ == (StackView {
                recent: Map::empty(),
                recent_cells: Seq::empty(),
                flush_epoch: 0,
                l2_patch_count: 0,
                l3_patch_count: 0,
            }),
    {
        Self::new(config, 0, 0)
    }

    /// The segments of all layers that are also in a list.
    pub fn get_segment_ids_for_table(&self, table_segment_ids: &Vec<String>) -> (r: Vec<String>)
        requires
            self.wf(),
        ensures
            forall|i: int, j: int| 0 <= i < j < r@.len() ==> r@[i]@ != r@[j]@,
            forall|s: Seq<char>| #[trigger]
                lists_text(r@, s) <==> self.knows(s) && lists_text(table_segment_ids@, s),
    {
        let all = self.get_all_segment_ids();
        let mut r: Vec<String> = Vec::new();
        let mut i: usize = 0;
        while i < all.len()
            invariant
                i <= all@.len(),
                forall|a: int, b: int| 0 <= a < b < r@.len() ==> r@[a]@ != r@[b]@,
                forall|s: Seq<char>| #[trigger]
                    lists_text(r@, s) <==> lists_text(all@.take(i as int), s) && lists_text(
                        table_segment_ids@,
                        s,
                    ),
            decreases all@.len() - i,
        {
            let mut found = false;
            let mut j: usize = 0;
            while j < table_segment_ids.len()
                invariant
                    j <= table_segment_ids@.len(),
                    i < all@.len(),
                    found ==> lists_text(table_segment_ids@, all@[i as int]@),
                    !found ==> forall|k: int|
                        0 <= k < j ==> (#[trigger] table_segment_ids@[k])@ != all@[i as int]@,
                decreases table_segment_ids@.len() - j,
            {
                if text_same(table_segment_ids[j].as_str(), all[i].as_str()) {
                    assert(table_segment_ids@[j as int]@ == all@[i as int]@);
                    found = true;
                }
                j = j + 1;
            }
            let ghost before = r@;
            if found {
                add_text(&mut r, &all[i]);
            }
            proof {
                let now = all@.take(i as int);
                let next = all@.take(i + 1);
                assert forall|s: Seq<char>| #[trigger] lists_text(r@, s) <==> lists_text(next, s)
                    && lists_text(table_segment_ids@, s) by {
                    assert(lists_text(before, s) <==> lists_text(now, s) && lists_text(
                        table_segment_ids@,
                        s,
                    ));
                    if lists_text(now, s) {
                        let k = choose|k: int| 0 <= k < now.len() && (#[trigger] now[k])@ == s;
                        assert(next[k]@ == s);
                    }
                    if all@[i as int]@ == s {
                        assert(next[i as int]@ == s);
                    }
                    if lists_text(next, s) {
                        let k = choose|k: int| 0 <= k < next.len() && (#[trigger] next[k])@ == s;
                        if k < i {
                            assert(now[k]@ == s);
                        }
                    }
                }
            }
            i = i + 1;
        }
        assert(all@.take(i as int) =~= all@);
        r
    }

    /// Takes logged operations back into L1.
    pub fn recover_from_wal(&mut self, ops: &Vec<WalOp>)
        requires
            old(self).wf(),
        ensures
            final(self).wf(),
            final(self)@ == old(self)@,
            final(self).l2 == old(self).l2,
            final(self).l3 == old(self).l3,
            final(self).config == old(self).config,
            recovered(old(self).l1@.hot, ops@, old(self).l1.config().stopped)
                == final(self).l1@.hot,
            final(self).l1@.size == recovered_size(
                old(self).l1@.size,
                ops@,
                old(self).l1.config().stopped,
            ),
            final(self).l1@.cold == old(self).l1@.cold,
            final(self).l1@.cold_cells == old(self).l1@.cold_cells,
            final(self).l1@.swapped == old(self).l1@.swapped,
            final(self).l1@.pending == old(self).l1@.pending,
            final(self).l1.config() == old(self).l1.config(),
            final(self).l1.heat() == old(self).l1.heat(),
    {
        let mut i: usize = 0;
        let ghost start = self.l1@.hot;
        let ghost stopped = self.l1.config().stopped;
        assert(ops@.take(0) =~= Seq::empty());
        while i < ops.len()
            invariant
                self.wf(),
                i <= ops@.len(),
                self@ == old(self)@,
                self.l2 == old(self).l2,
                self.l3 == old(self).l3,
                self.config == old(self).config,
                self.l1.config() == old(self).l1.config(),
                stopped == old(self).l1.config().stopped,
                self.l1@.hot == recovered(start, ops@.take(i as int), stopped),
                self.l1@.size == recovered_size(old(self).l1@.size, ops@.take(i as int), stopped),
                self.l1@.pending == old(self).l1@.pending,
                self.l1.heat() == old(self).l1.heat(),
                self.l1@.cold == old(self).l1@.cold,
                self.l1@.cold_cells == old(self).l1@.cold_cells,
                self.l1@.swapped == old(self).l1@.swapped,
            decreases ops@.len() - i,
        {
            assert(ops@.take(i + 1).drop_last() =~= ops@.take(i as int));
            match replayed_cell(&ops[i]) {
                Some(cell) => self.l1.replay_into(cell),
                None => {},
            }
            i = i + 1;
        }
        assert(ops@.take(i as int) =~= ops@);
    }

    /// Keeps the cells of a flush readable while it is under way.
    pub fn cache_recent_flush(&mut self, deltas: &Vec<DeltaCell>)
        requires
            old(self).wf(),
        ensures
            final(self).wf(),
            final(self).l1 == old(self).l1,
            final(self).l2 == old(self).l2,
            final(self).l3 == old(self).l3,
            final(self).config == old(self).config,
            final(self)@.recent == by_identity(cell_views(deltas@)),
            final(self)@.flush_epoch == old(self)@.flush_epoch,
            final(self)@.l2_patch_count == old(self)@.l2_patch_count,
            final(self)@.l3_patch_count == old(self)@.l3_patch_count,
    {
        let mut recent: OrdMap<CellKey, DeltaCell> = OrdMap::new();
        let ghost cells = cell_views(deltas@);
        let ghost f = |c: DeltaCell| c@;
        let mut i: usize = 0;
        proof {
            assert(cells.take(0) =~= Seq::empty());
            assert(recent@.map_values(f) =~= Map::empty());
        }
        while i < deltas.len()
            invariant
                recent.wf(),
                i <= deltas@.len(),
                cells == cell_views(deltas@),
                f == (|c: DeltaCell| c@),
                recent@.map_values(f) == by_identity(cells.take(i as int)),
            decreases deltas@.len() - i,
        {
            let d: &DeltaCell = &deltas[i];
            let ghost before = recent@;
            let copy = d.clone();
            let _ = recent.insert(cell_key_of(d), copy);
            proof {
                assert(cells.take(i + 1).drop_last() =~= cells.take(i as int));
                assert(cells[i as int] == d@);
                assert(recent@.map_values(f) =~= before.map_values(f).insert(cell_key(d@), d@));
            }
            i = i + 1;
        }
        assert(cells.take(i as int) =~= cells);
        self.recent_flush = recent;
    }

    /// Ends a flush: its cells are no longer kept, and readers can tell.
    pub fn clear_recent_flush(&mut self)
        requires
            old(self).wf(),
        ensures
            final(self).wf(),
            final(self).l1 == old(self).l1,
            final(self).l2 == old(self).l2,
            final(self).l3 == old(self).l3,
            final(self).config == old(self).config,
            final(self)@ == flush_ended(old(self)@),
    {
        self.recent_flush = OrdMap::new();
        self.flush_epoch = self.flush_epoch.wrapping_add(1);
        assert(self@.recent =~= Map::empty());
        assert(self@.recent_cells =~= Seq::empty());
    }

    /// Writes a cell to L1 whose log, if any, cannot fail: gives the appends to
    /// be made.
    pub fn put(&mut self, delta: DeltaCell, elapsed_ms: u64) -> (r: (
        Option<WalAppend>,
        Vec<WalAppend>,
    ))
        requires
            old(self).wf(),
        ensures
            final(self).wf(),
            final(self)@ == old(self)@,
            final(self).l2 == old(self).l2,
            final(self).l3 == old(self).l3,
            final(self).config == old(self).config,
            final(self).l1.config() == old(self).l1.config(),
            write_ahead(old(self).l1.config(), delta@, r.0),
            put_done(
                old(self).l1.config(),
                old(self).l1@,
                final(self).l1@,
                delta,
                elapsed_ms,
                r.1@,
            ),
            if old(self).l1.config().stopped {
                final(self).l1.heat() == old(self).l1.heat()
            } else {
                noted(old(self).l1.heat(), final(self).l1.heat(), delta.column@, delta.txn_id)
            },
    {
        self.l1.put(delta, elapsed_ms)
    }

    /// Counts a patch appended to L2.
    pub fn record_l2_patch(&mut self)
        requires
            old(self).wf(),
        ensures
            final(self).wf(),
            final(self).l1 == old(self).l1,
            final(self).l2 == old(self).l2,
            final(self).l3 == old(self).l3,
            final(self).config == old(self).config,
            final(self)@ == (StackView {
                l2_patch_count: counted_up(old(self)@.l2_patch_count, 1),
                ..old(self)@
            }),
    {
        self.l2_patch_count = self.l2_patch_count.wrapping_add(1);
    }

    /// Counts patches moved from L2 to L3; the count of L2 does not fall below
    /// zero.
    pub fn record_l2_to_l3_compaction(&mut self, l2_patches_removed: usize)
        requires
            old(self).wf(),
        ensures
            final(self).wf(),
            final(self).l1 == old(self).l1,
            final(self).l2 == old(self).l2,
            final(self).l3 == old(self).l3,
            final(self).config == old(self).config,
            final(self)@ == moved_down(old(self)@, l2_patches_removed),
    {
        self.l2_patch_count = self.l2_patch_count.saturating_sub(l2_patches_removed);
        self.l3_patch_count = self.l3_patch_count.wrapping_add(l2_patches_removed);
    }

    /// The patch counts of L2 and L3.
    pub fn patch_counts(&self) -> (r: (usize, usize))
        ensures
            r == (self@.l2_patch_count, self@.l3_patch_count),
    {
        (self.l2_patch_count, self.l3_patch_count)
    }

    /// How many flushes have ended.
    pub fn flush_epoch(&self) -> (r: u64)
        ensures
            r == self@.flush_epoch,
    {
        self.flush_epoch
    }

    /// Appends the cells of the flush under way for which a segment asks.
    fn collect_recent(&self, seg_id: &str, since: Option<u64>, until: u64, out: &mut Vec<DeltaCell>)
        ensures
            cell_views(final(out)@) == cell_views(old(out)@) + select(
                self@.recent_cells,
                match since {
                    Some(s) => between_in(seg_id@, s, until),
                    None => committed_in(seg_id@, until),
                },
            ),
    {
        let ghost start = cell_views(out@);
        let ghost cells = self@.recent_cells;
        let ghost keep = match since {
            Some(s) => between_in(seg_id@, s, until),
            None => committed_in(seg_id@, until),
        };
        let mut i: usize = 0;
        assert(cells.take(0) =~= Seq::empty());
        assert(start + Seq::<CellView>::empty() =~= start);
        while i < self.recent_flush.len()
            invariant
                i <= cells.len() == self.recent_flush.keys().len(),
                cells == self@.recent_cells,
                keep == match since {
                    Some(s) => between_in(seg_id@, s, until),
                    None => committed_in(seg_id@, until),
                },
                cell_views(out@) == start + select(cells.take(i as int), keep),
            decreases cells.len() - i,
        {
            let c = self.recent_flush.value_at(i);
            proof {
                assert(cells[i as int] == c@);
                assert(cells.take(i + 1).drop_last() =~= cells.take(i as int));
                let s = select(cells.take(i as int), keep);
                assert(cell_views(out@.push(*c)) =~= cell_views(out@).push(c@));
                assert((start + s).push(c@) =~= start + s.push(c@));
            }
            let late = match since {
                Some(s) => c.txn_id > s,
                None => true,
            };
            if text_same(c.seg_id.as_str(), seg_id) && late && c.txn_id <= until && c.committed {
                out.push(c.clone());
            }
            i = i + 1;
        }
        assert(cells.take(i as int) =~= cells);
    }
}

/// The hot buffer after logged operations were taken back into it.
pub open spec fn recovered(
    hot: Map<((Seq<char>, u64), (Seq<char>, u64)), CellView>,
    ops: Seq<WalOp>,
    stopped: bool,
) -> Map<((Seq<char>, u64), (Seq<char>, u64)), CellView>
    decreases ops.len(),
{
    if ops.len() == 0 || stopped {
        hot
    } else {
        let before = recovered(hot, ops.drop_last(), stopped);
        match replayed(ops.last()) {
            Some(c) => before.insert(crate::storage::delta::mem_store::mem_key(c), c),
            None => before,
        }
    }
}

/// The size of the hot buffer after logged operations were taken back into it,
/// modulo the range of `u64`.
pub open spec fn recovered_size(size: u64, ops: Seq<WalOp>, stopped: bool) -> u64
    decreases ops.len(),
{
    if ops.len() == 0 || stopped {
        size
    } else {
        let before = recovered_size(size, ops.drop_last(), stopped);
        match replayed(ops.last()) {
            Some(c) => ((before + crate::storage::delta::mem_store::cell_bytes(c))
                % 0x1_0000_0000_0000_0000) as u64,
            None => before,
        }
    }
}

/// A count that grew, modulo the range of `usize`.
pub open spec fn counted_up(count: usize, more: usize) -> usize {
    if count + more > usize::MAX {
        (count + more - usize::MAX - 1) as usize
    } else {
        (count + more) as usize
    }
}

/// The stack after patches moved from L2 to L3.
pub open spec fn moved_down(s: StackView, patches: usize) -> StackView {
    StackView {
        l2_patch_count: if s.l2_patch_count < patches {
            0
        } else {
            (s.l2_patch_count - patches) as usize
        },
        l3_patch_count: counted_up(s.l3_patch_count, patches),
        ..s
    }
}

/// The stack after a flush ended.
pub open spec fn flush_ended(s: StackView) -> StackView {
    StackView {
        recent: Map::empty(),
        recent_cells: Seq::empty(),
        flush_epoch: if s.flush_epoch == u64::MAX {
            0
        } else {
            (s.flush_epoch + 1) as u64
        },
        ..s
    }
}

/// Appends the cells that were committed between two transactions.
fn collect_between(cells: &Vec<DeltaCell>, since: u64, committed: u64, out: &mut Vec<DeltaCell>)
    ensures
        cell_views(final(out)@) == cell_views(old(out)@) + select(
            cell_views(cells@),
            between(since, committed),
        ),
{
    let ghost start = cell_views(out@);
    let ghost views = cell_views(cells@);
    let ghost keep = between(since, committed);
    let mut i: usize = 0;
    assert(views.take(0) =~= Seq::empty());
    assert(start + Seq::<CellView>::empty() =~= start);
    while i < cells.len()
        invariant
            i <= cells@.len(),
            views == cell_views(cells@),
            keep == between(since, committed),
            cell_views(out@) == start + select(views.take(i as int), keep),
        decreases cells@.len() - i,
    {
        let c: &DeltaCell = &cells[i];
        proof {
            assert(views[i as int] == c@);
            assert(views.take(i + 1).drop_last() =~= views.take(i as int));
            let s = select(views.take(i as int), keep);
            assert(cell_views(out@.push(*c)) =~= cell_views(out@).push(c@));
            assert((start + s).push(c@) =~= start + s.push(c@));
        }
        if c.txn_id > since && c.txn_id <= committed && c.committed {
            out.push(c.clone());
        }
        i = i + 1;
    }
    assert(views.take(i as int) =~= views);
}

/// Keeps the latest delta of each cell.
fn keep_latest(cells: &Vec<DeltaCell>) -> (r: Vec<DeltaCell>)
    ensures
        is_merge(cell_views(r@), cell_views(cells@), |c: CellView| true),
{
    let ghost ok = |c: CellView| true;
    let ghost views = cell_views(cells@);
    let mut latest = Latest::new(Ghost(ok));
    let mut i: usize = 0;
    assert(views.take(0) =~= Seq::empty());
    while i < cells.len()
        invariant
            i <= cells@.len(),
            views == cell_views(cells@),
            ok == (|c: CellView| true),
            latest.wf(),
            latest.ok() == ok,
            latest.seen() == views.take(i as int),
        decreases cells@.len() - i,
    {
        latest.offer(&cells[i], true);
        assert(views.take(i + 1) =~= views.take(i as int).push(cells@[i as int]@));
        i = i + 1;
    }
    assert(views.take(i as int) =~= views);
    latest.finish()
}

impl DeltaQueryLayer for DeltaLayerStack {
    open spec fn ready(&self) -> bool {
        self.wf()
    }

    open spec fn held(&self, seg_id: Seq<char>, snapshot: u64) -> Result<
        Seq<CellView>,
        RockDuckError,
    > {
        let (l2, err) = gather(self.l2.guard_list(), self.l2@.files, seg_id, snapshot);
        match err {
            Some(e) => Err(e),
            None => match frozen_gather(self.l3.entries(), self.l3@.files, seg_id, snapshot) {
                Err(e) => Err(e),
                Ok(l3) => Ok(visible_now(self.l1@, seg_id, snapshot) + l2 + l3),
            },
        }
    }

    open spec fn changed(&self, seg_id: Seq<char>, committed: u64, since: u64) -> Seq<CellView> {
        let keep = between(since, committed);
        let (l2, err) = gather(self.l2.guard_list(), self.l2@.files, seg_id, committed);
        select(visible_now(self.l1@, seg_id, committed), keep) + select(
            self@.recent_cells,
            between_in(seg_id, since, committed),
        ) + (if err is None {
            select(l2, keep)
        } else {
            Seq::empty()
        }) + (match frozen_gather(self.l3.entries(), self.l3@.files, seg_id, committed) {
            Ok(l3) => select(l3, keep),
            Err(_) => Seq::empty(),
        })
    }

    open spec fn held_in_batch(
        &self,
        seg_ids: Seq<String>,
        seg_id: Seq<char>,
        snapshot: u64,
    ) -> Seq<CellView> {
        visible_now(self.l1@, seg_id, snapshot) + select(
            self@.recent_cells,
            committed_in(seg_id, snapshot),
        ) + gather_batch(self.l2.guard_list(), self.l2@.files, seg_ids, snapshot)[seg_id] + (
        match frozen_gather(self.l3.entries(), self.l3@.files, seg_id, snapshot) {
            Ok(l3) => l3,
            Err(_) => Seq::empty(),
        })
    }

    open spec fn knows(&self, seg_id: Seq<char>) -> bool {
        ||| has_cell_of(self.l1@.hot_cells, seg_id)
        ||| has_cell_of(self.l1@.cold_cells, seg_id)
        ||| has_segment(self.l2.guard_list(), seg_id)
        ||| has_frozen(self.l3.entries(), seg_id)
    }

    fn query(
        &self,
        seg_id: &str,
        snapshot_txn: u64,
        commit_ts_by_txn: &HashMap<u64, u64>,
        active_txns: &HashSet<u64>,
    ) -> (r: Result<Vec<DeltaCell>, RockDuckError>) {
        let l1_deltas = self.l1.visible(seg_id, snapshot_txn);
        let l2_deltas = match self.l2.get_visible(seg_id, snapshot_txn) {
            Ok(d) => d,
            Err(e) => return Err(e),
        };
        let l3_deltas = match self.l3.get_visible(seg_id, snapshot_txn) {
            Ok(d) => d,
            Err(e) => return Err(e),
        };
        let ghost want = cell_views(l1_deltas@) + cell_views(l2_deltas@) + cell_views(l3_deltas@);
        let mut layers: Vec<Vec<DeltaCell>> = Vec::new();
        layers.push(l1_deltas);
        layers.push(l2_deltas);
        layers.push(l3_deltas);
        proof {
            let l = layers@;
            reveal_with_fuel(all_cells, 4);
            assert(l.drop_last().drop_last().drop_last() =~= Seq::empty());
            assert(l.drop_last().drop_last().last() == l[0]);
            assert(l.drop_last().last() == l[1]);
            assert(all_cells(l) =~= want);
        }
        Ok(k_way_merge(layers, snapshot_txn, commit_ts_by_txn, active_txns))
    }

    fn query_cell(
        &self,
        seg_id: &str,
        row_offset: u32,
        column: &str,
        snapshot_txn: u64,
        commit_ts_by_txn: &HashMap<u64, u64>,
        active_txns: &HashSet<u64>,
    ) -> (r: Result<Option<DeltaCell>, RockDuckError>) {
        match self.query(seg_id, snapshot_txn, commit_ts_by_txn, active_txns) {
            Ok(candidates) => Ok(pick_cell(&candidates, row_offset as u64, column)),
            Err(e) => Err(e),
        }
    }

    fn get_all_segment_ids(&self) -> (r: Vec<String>) {
        let mut r = self.l1.get_segment_ids();
        let l2 = self.l2.get_segment_ids();
        let l3 = self.l3.get_segment_ids();
        let ghost l1 = r@;
        let mut i: usize = 0;
        while i < l2.len()
            invariant
                i <= l2@.len(),
                forall|a: int, b: int| 0 <= a < b < r@.len() ==> r@[a]@ != r@[b]@,
                forall|s: Seq<char>| #[trigger]
                    lists_text(r@, s) <==> lists_text(l1, s) || lists_text(l2@.take(i as int), s),
            decreases l2@.len() - i,
        {
            let ghost before = r@;
            add_text(&mut r, &l2[i]);
            proof {
                lemma_lists_take(l2@, i as int);
                assert forall|s: Seq<char>| #[trigger] lists_text(r@, s) <==> lists_text(l1, s)
                    || lists_text(l2@.take(i + 1), s) by {
                    assert(lists_text(before, s) <==> lists_text(l1, s) || lists_text(
                        l2@.take(i as int),
                        s,
                    ));
                }
            }
            i = i + 1;
        }
        assert(l2@.take(i as int) =~= l2@);
        let mut j: usize = 0;
        let ghost l12 = r@;
        while j < l3.len()
            invariant
                j <= l3@.len(),
                forall|a: int, b: int| 0 <= a < b < r@.len() ==> r@[a]@ != r@[b]@,
                forall|s: Seq<char>| #[trigger]
                    lists_text(r@, s) <==> lists_text(l12, s) || lists_text(l3@.take(j as int), s),
            decreases l3@.len() - j,
        {
            let ghost before = r@;
            add_text(&mut r, &l3[j]);
            proof {
                lemma_lists_take(l3@, j as int);
                assert forall|s: Seq<char>| #[trigger] lists_text(r@, s) <==> lists_text(l12, s)
                    || lists_text(l3@.take(j + 1), s) by {
                    assert(lists_text(before, s) <==> lists_text(l12, s) || lists_text(
                        l3@.take(j as int),
                        s,
                    ));
                }
            }
            j = j + 1;
        }
        proof {
            assert(l3@.take(j as int) =~= l3@);
            assert forall|s: Seq<char>| #[trigger] lists_text(r@, s) <==> self.knows(s) by {
                assert(lists_text(l12, s) <==> lists_text(l1, s) || lists_text(l2@, s));
                assert(lists_text(l1, s) <==> has_cell_of(self.l1@.hot_cells, s) || has_cell_of(
                    self.l1@.cold_cells,
                    s,
                ));
                assert(lists_text(l2@, s) <==> has_segment(self.l2.guard_list(), s));
                assert(lists_text(l3@, s) <==> has_frozen(self.l3.entries(), s));
            }
        }
        r
    }

    fn query_all_layers(&self, seg_id: &str, committed: u64, since: u64) -> (r: Vec<DeltaCell>) {
        let mut all: Vec<DeltaCell> = Vec::new();
        assert(cell_views(all@) =~= Seq::empty());
        let l1 = self.l1.visible(seg_id, committed);
        collect_between(&l1, since, committed, &mut all);
        self.collect_recent(seg_id, Some(since), committed, &mut all);
        match self.l2.get_visible(seg_id, committed) {
            Ok(l2) => collect_between(&l2, since, committed, &mut all),
            Err(_) => {},
        }
        match self.l3.get_visible(seg_id, committed) {
            Ok(l3) => collect_between(&l3, since, committed, &mut all),
            Err(_) => {},
        }
        assert(cell_views(all@) =~= self.changed(seg_id@, committed, since));
        keep_latest(&all)
    }

    fn query_batch(
        &self,
        seg_ids: &Vec<String>,
        snapshot_txn: u64,
        commit_ts_by_txn: &HashMap<u64, u64>,
        active_txns: &HashSet<u64>,
    ) -> (r: Result<OrdMap<String, Vec<DeltaCell>>, RockDuckError>) {
        let mut results: OrdMap<String, Vec<DeltaCell>> = OrdMap::new();
        let ghost ok = seen_by(snapshot_txn, commit_ts_by_txn@, active_txns@);
        let mut i: usize = 0;
        while i < seg_ids.len()
            invariant
                self.wf(),
                results.wf(),
                i <= seg_ids@.len(),
                ok == seen_by(snapshot_txn, commit_ts_by_txn@, active_txns@),
                forall|s: Seq<char>| #[trigger]
                    results@.dom().contains(s) <==> lists_text(seg_ids@.take(i as int), s),
                forall|s: Seq<char>| #[trigger]
                    results@.dom().contains(s) ==> (self.held(s, snapshot_txn) matches Ok(cells)
                        && is_merge(cell_views(results@[s]@), cells, ok)),
                forall|j: int|
                    0 <= j < i ==> self.held((#[trigger] seg_ids@[j])@, snapshot_txn) is Ok,
            decreases seg_ids@.len() - i,
        {
            let seg: &String = &seg_ids[i];
            match self.query(seg.as_str(), snapshot_txn, commit_ts_by_txn, active_txns) {
                Ok(v) => {
                    let _ = results.insert(seg.clone(), v);
                },
                Err(e) => {
                    assert(self.held(seg_ids@[i as int]@, snapshot_txn) == Err::<
                        Seq<CellView>,
                        RockDuckError,
                    >(e));
                    return Err(e);
                },
            }
            proof {
                lemma_lists_take(seg_ids@, i as int);
            }
            i = i + 1;
        }
        assert(seg_ids@.take(i as int) =~= seg_ids@);
        Ok(results)
    }

    fn get_visible_batch(&self, seg_ids: &Vec<String>, snapshot_txn: u64) -> (r: OrdMap<
        String,
        Vec<DeltaCell>,
    >) {
        let l2_results = self.l2.get_visible_batch(seg_ids, snapshot_txn);
        let ghost batch = gather_batch(
            self.l2.guard_list(),
            self.l2@.files,
            seg_ids@,
            snapshot_txn,
        );
        let mut results: OrdMap<String, Vec<DeltaCell>> = OrdMap::new();
        let ghost ok = |c: CellView| true;
        let mut i: usize = 0;
        while i < seg_ids.len()
            invariant
                self.wf(),
                results.wf(),
                l2_results.wf(),
                i <= seg_ids@.len(),
                ok == (|c: CellView| true),
                batch == gather_batch(
                    self.l2.guard_list(),
                    self.l2@.files,
                    seg_ids@,
                    snapshot_txn,
                ),
                batch == l2_results@.map_values(|v: Vec<DeltaCell>| cell_views(v@)),
                forall|s: Seq<char>| #[trigger]
                    results@.dom().contains(s) <==> lists_text(seg_ids@.take(i as int), s),
                forall|s: Seq<char>| #[trigger]
                    results@.dom().contains(s) ==> is_merge(
                        cell_views(results@[s]@),
                        self.held_in_batch(seg_ids@, s, snapshot_txn),
                        ok,
                    ),
            decreases seg_ids@.len() - i,
        {
            let seg: &String = &seg_ids[i];
            let mut all = self.l1.visible(seg.as_str(), snapshot_txn);
            self.collect_recent(seg.as_str(), None, snapshot_txn, &mut all);
            proof {
                lemma_batch_has(
                    self.l2.guard_list(),
                    self.l2@.files,
                    seg_ids@,
                    snapshot_txn,
                    i as int,
                );
            }
            match l2_results.get(seg) {
                Some(l2) => {
                    append_cells(&mut all, l2);
                },
                None => {},
            }
            match self.l3.get_visible(seg.as_str(), snapshot_txn) {
                Ok(l3) => append_cells(&mut all, &l3),
                Err(_) => {},
            }
            assert(cell_views(all@) =~= self.held_in_batch(seg_ids@, seg@, snapshot_txn));
            let _ = results.insert(seg.clone(), keep_latest(&all));
            proof {
                lemma_lists_take(seg_ids@, i as int);
            }
            i = i + 1;
        }
        assert(seg_ids@.take(i as int) =~= seg_ids@);
        results
    }
}

fn append_cells(out: &mut Vec<DeltaCell>, more: &Vec<DeltaCell>)
    ensures
        cell_views(final(out)@) == cell_views(old(out)@) + cell_views(more@),
{
    let ghost start = cell_views(out@);
    let ghost views = cell_views(more@);
    let mut i: usize = 0;
    assert(start + views.take(0) =~= start);
    while i < more.len()
        invariant
            i <= more@.len(),
            views == cell_views(more@),
            cell_views(out@) == start + views.take(i as int),
        decreases more@.len() - i,
    {
        let c: &DeltaCell = &more[i];
        proof {
            assert(cell_views(out@.push(*c)) =~= cell_views(out@).push(c@));
            assert(start + views.take(i + 1) =~= (start + views.take(i as int)).push(c@));
        }
        out.push(c.clone());
        i = i + 1;
    }
    assert(views.take(i as int) =~= views);
}

proof fn lemma_lists_take(list: Seq<String>, i: int)
    requires
        0 <= i < list.len(),
    ensures
        forall|s: Seq<char>| #[trigger]
            lists_text(list.take(i + 1), s) <==> lists_text(list.take(i), s) || list[i]@ == s,
{
    let now = list.take(i);
    let next = list.take(i + 1);
    assert forall|s: Seq<char>| #[trigger] lists_text(next, s) <==> lists_text(now, s) || list[i]@
        == s by {
        if lists_text(now, s) {
            let k = choose|k: int| 0 <= k < now.len() && (#[trigger] now[k])@ == s;
            assert(next[k]@ == s);
        }
        if list[i]@ == s {
            assert(next[i]@ == s);
        }
        if lists_text(next, s) {
            let k = choose|k: int| 0 <= k < next.len() && (#[trigger] next[k])@ == s;
            if k < i {
                assert(now[k]@ == s);
            }
        }
    }
}

proof fn lemma_batch_has(
    guards: Seq<crate::storage::delta::disk_store::GuardView>,
    files: Map<Seq<char>, Seq<u8>>,
    seg_ids: Seq<String>,
    snapshot: u64,
    i: int,
)
    requires
        0 <= i < seg_ids.len(),
    ensures
        gather_batch(guards, files, seg_ids, snapshot).dom().contains(seg_ids[i]@),
    decreases seg_ids.len(),
{
    if i < seg_ids.len() - 1 {
        lemma_batch_has(guards, files, seg_ids.drop_last(), snapshot, i);
        assert(seg_ids.drop_last()[i] == seg_ids[i]);
    }
}

} // verus!
