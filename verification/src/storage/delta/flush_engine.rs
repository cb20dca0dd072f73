//! Movement of deltas between the layers, and when it happens.
//!
//! Rates and amplifications are counted in hundred-thousandths, throughput
//! samples in thousandths of a megabyte per second; at a hundred megabytes per
//! second the foreground is saturated.
use vstd::prelude::*;
use crate::bitmap::{lemma_listing, listing, lists, portable_rows};
use crate::error::RockDuckError;
use crate::ipc::{cells_size, cells_view, ipc_column};
use crate::ordmap::{is_stable_order, key_views, lemma_value_changed, stable_order, OrdKey, OrdMap};
use crate::ratio::{Fraction, Ratio};
use crate::storage::delta::disk_store::{appended, first_overloaded, guard_merged, guards_of, patch_views, patches_under, DiskView, GuardKey, GuardKeyView, MergePatchRef, PatchRefView};
use crate::storage::delta::frozen_store::{frozen_with, next_free, DeltaL3Frozen, FrozenView};
use crate::storage::delta::mem_store::{drained, logs_all, select, swapped, MemView};
use crate::storage::delta::merge::{cell_key, last_place, lemma_last_place};
use crate::storage::delta::patch_file::patch_value;
use crate::storage::delta::sparsity::{chooses_sparse, lemma_spread_size, spread, SparsitySelector, MAX_DENSE_ROWS};
use crate::storage::delta::stack::{by_identity, counted_up, flush_ended, moved_down, DeltaLayerStack, StackView};
use crate::storage::delta::types::{cell_views, CellView, DeltaCell, DeltaPatch, FormatView, ZoneMap};
use crate::codec::bytes_copy;
use crate::sums::{lemma_sum_bounds, lemma_sum_listed, listed_sum, map_sum};
use crate::write::{image_bytes, WalAppend};

verus! {

/// One, in hundred-thousandths.
pub const WHOLE: u64 = 100_000;

/// The foreground throughput of late.
#[derive(Debug)]
pub struct ForegroundMonitor {
    recent: Vec<u64>,
    interval_ms: u64,
    reserved_ratio: Ratio,
    outstanding_io: u64,
}

/// The greatest of some numbers, zero without any.
pub open spec fn peak(samples: Seq<u64>) -> u64
    decreases samples.len(),
{
    if samples.len() == 0 {
        0
    } else {
        let front = peak(samples.drop_last());
        if samples.last() > front {
            samples.last()
        } else {
            front
        }
    }
}

/// The foreground load in hundred-thousandths: its peak of late, at most one.
pub open spec fn load_of(samples: Seq<u64>) -> u64 {
    if peak(samples) > WHOLE {
        WHOLE
    } else {
        peak(samples)
    }
}

/// Whether a load leaves more than a part of the bandwidth.
pub open spec fn spares(load: u64, part: Ratio) -> bool {
    (WHOLE - load) * part.den > part.num * WHOLE
}

impl ForegroundMonitor {
    /// The last samples, at most 64.
    pub closed spec fn samples(&self) -> Seq<u64> {
        self.recent@
    }

    /// Milliseconds between two samples.
    pub closed spec fn interval(&self) -> u64 {
        self.interval_ms
    }

    /// The part of the bandwidth that is kept for the foreground.
    pub closed spec fn reserved(&self) -> Ratio {
        self.reserved_ratio
    }

    /// The estimate of outstanding foreground I/O.
    pub closed spec fn outstanding(&self) -> u64 {
        self.outstanding_io
    }

    pub fn new(interval_ms: u64, reserved_ratio: Ratio) -> (r: Self)
        ensures
            r.samples() == Seq::<u64>::empty(),
            r.interval() == interval_ms,
            r.reserved() == reserved_ratio,
            r.outstanding() == 0,
    {
        ForegroundMonitor { recent: Vec::new(), interval_ms, reserved_ratio, outstanding_io: 0 }
    }

    /// Takes in a throughput sample; the oldest beyond 64 is dropped.
    pub fn record_sample(&mut self, milli_mbps: u64)
        ensures
            final(self).interval() == old(self).interval(),
            final(self).reserved() == old(self).reserved(),
            final(self).outstanding() == old(self).outstanding(),
            final(self).samples() == if old(self).samples().len() >= 64 {
                old(self).samples().push(milli_mbps).drop_first()
            } else {
                old(self).samples().push(milli_mbps)
            },
    {
        let ghost start = self.recent@;
        self.recent.push(milli_mbps);
        if self.recent.len() > 64 {
            let _ = self.recent.remove(0);
            assert(self.recent@ =~= start.push(milli_mbps).drop_first());
        }
    }

    /// The foreground load in hundred-thousandths.
    pub fn current_load(&self) -> (r: u64)
        ensures
            r == load_of(self.samples()),
            r <= WHOLE,
    {
        let mut max: u64 = 0;
        let mut i: usize = 0;
        assert(self.recent@.take(0) =~= Seq::empty());
        while i < self.recent.len()
            invariant
                i <= self.recent@.len(),
                max == peak(self.recent@.take(i as int)),
            decreases self.recent@.len() - i,
        {
            assert(self.recent@.take(i + 1).drop_last() =~= self.recent@.take(i as int));
            if self.recent[i] > max {
                max = self.recent[i];
            }
            i = i + 1;
        }
        assert(self.recent@.take(i as int) =~= self.recent@);
        if max > WHOLE {
            WHOLE
        } else {
            max
        }
    }

    /// Whether the foreground leaves more than the reserved part.
    pub fn can_run_background(&self) -> (r: bool)
        ensures
            r == spares(load_of(self.samples()), self.reserved()),
    {
        self.spares_more_than(self.reserved_ratio)
    }

    /// Whether the foreground leaves more than a part of the bandwidth.
    pub fn spares_more_than(&self, part: Ratio) -> (r: bool)
        ensures
            r == spares(load_of(self.samples()), part),
    {
        let spare: u128 = (WHOLE - self.current_load()) as u128;
        let den: u128 = part.den as u128;
        let num: u128 = part.num as u128;
        assert(spare * den <= 100_000 * 0xffff_ffff_ffff_ffff) by (nonlinear_arith)
            requires
                spare <= 100_000,
                den <= 0xffff_ffff_ffff_ffff,
        ;
        assert(num * 100_000 <= 100_000 * 0xffff_ffff_ffff_ffff) by (nonlinear_arith)
            requires
                num <= 0xffff_ffff_ffff_ffff,
        ;
        spare * den > num * 100_000
    }

    /// Sets the estimate of outstanding foreground I/O.
    pub fn set_outstanding_io(&mut self, bytes_per_sec: u64)
        ensures
            final(self).samples() == old(self).samples(),
            final(self).interval() == old(self).interval(),
            final(self).reserved() == old(self).reserved(),
            final(self).outstanding() == bytes_per_sec,
    {
        self.outstanding_io = bytes_per_sec;
    }

    /// The estimate of outstanding foreground I/O.
    pub fn outstanding_io(&self) -> (r: u64)
        ensures
            r == self.outstanding(),
    {
        self.outstanding_io
    }
}

impl Default for ForegroundMonitor {
    fn default() -> (r: Self)
        ensures
            r.samples() == Seq::<u64>::empty(),
            r.reserved() == (Ratio { num: 3, den: 10 }),
            r.outstanding() == 0,
    {
        Self::new(500, Ratio { num: 3, den: 10 })
    }
}

/// How patches are compacted.
#[derive(Debug, Clone, Copy, PartialEq, Eq, Structural)]
pub enum CompactionPolicy {
    Leveling,
    Tiering,
    LazyLeveling,
    HotCold,
}

impl Default for CompactionPolicy {
    fn default() -> (r: Self)
        ensures
            r == CompactionPolicy::HotCold,
    {
        CompactionPolicy::HotCold
    }
}

/// What was observed of the workload, in hundred-thousandths.
#[derive(Debug, Clone, Copy, PartialEq, Eq, Structural)]
pub struct WorkloadProfile {
    pub read_amp: u64,
    pub write_amp: u64,
    pub p99_latency_ms: u64,
    pub queries_per_second: u64,
    pub fg_io_mbps: u64,
}

/// A profile without observations.
pub open spec fn blank_profile() -> WorkloadProfile {
    WorkloadProfile {
        read_amp: 0,
        write_amp: 0,
        p99_latency_ms: 0,
        queries_per_second: 0,
        fg_io_mbps: 0,
    }
}

impl Default for WorkloadProfile {
    fn default() -> (r: Self)
        ensures
            r == blank_profile(),
    {
        WorkloadProfile {
            read_amp: 0,
            write_amp: 0,
            p99_latency_ms: 0,
            queries_per_second: 0,
            fg_io_mbps: 0,
        }
    }
}

impl WorkloadProfile {
    pub fn new() -> (r: Self)
        ensures
            r == blank_profile(),
    {
        Self::default()
    }
}

/// The policy for a workload: tiering when writes are amplified more than
/// tenfold and reads less than twofold, leveling when reads are amplified more
/// than fivefold and slower than 50 ms, lazy leveling above a thousand queries
/// per second, and otherwise by heat.
pub open spec fn policy_for(p: WorkloadProfile) -> CompactionPolicy {
    if p.write_amp > 1_000_000 && p.read_amp < 200_000 {
        CompactionPolicy::Tiering
    } else if p.read_amp > 500_000 && p.p99_latency_ms > 5_000_000 {
        CompactionPolicy::Leveling
    } else if p.queries_per_second > 100_000_000 {
        CompactionPolicy::LazyLeveling
    } else {
        CompactionPolicy::HotCold
    }
}

/// Chooses the compaction policy.
#[derive(Debug, Clone, Copy, PartialEq, Eq, Structural)]
pub struct EcoTuneSelector {
    pub profile: WorkloadProfile,
    pub policy: CompactionPolicy,
}

impl Default for EcoTuneSelector {
    fn default() -> (r: Self)
        ensures
            r == (EcoTuneSelector { profile: blank_profile(), policy: CompactionPolicy::HotCold }),
    {
        EcoTuneSelector { profile: WorkloadProfile::default(), policy: CompactionPolicy::HotCold }
    }
}

/// What a compaction is expected to gain: half an amplification, discounted by a
/// fifth for each round from the next global one, less a tenth of its cost.
pub open spec fn gain_of(cost_mb: u32, rounds_from_global: u32) -> Fraction {
    Fraction {
        num: (25 - cost_mb * (5 + rounds_from_global)) as i128,
        den: (10 * (5 + rounds_from_global)) as u128,
    }
}

impl EcoTuneSelector {
    pub fn new() -> (r: Self)
        ensures
            r == (EcoTuneSelector { profile: blank_profile(), policy: CompactionPolicy::HotCold }),
    {
        Self::default()
    }

    /// Takes in a profile and chooses the policy for it.
    pub fn update_profile(&mut self, profile: WorkloadProfile)
        ensures
            *final(self) == (EcoTuneSelector { profile, policy: policy_for(profile) }),
    {
        self.profile = profile;
        self.policy = Self::select_policy(&profile);
    }

    /// The policy for a workload.
    pub fn select_policy(profile: &WorkloadProfile) -> (r: CompactionPolicy)
        ensures
            r == policy_for(*profile),
    {
        if profile.write_amp > 1_000_000 && profile.read_amp < 200_000 {
            return CompactionPolicy::Tiering;
        }
        if profile.read_amp > 500_000 && profile.p99_latency_ms > 5_000_000 {
            return CompactionPolicy::Leveling;
        }
        if profile.queries_per_second > 100_000_000 {
            return CompactionPolicy::LazyLeveling;
        }
        CompactionPolicy::HotCold
    }

    /// The chosen policy.
    pub fn policy(&self) -> (r: CompactionPolicy)
        ensures
            r == self.policy,
    {
        self.policy
    }

    /// The last profile.
    pub fn profile(&self) -> (r: WorkloadProfile)
        ensures
            r == self.profile,
    {
        self.profile
    }

    /// What a compaction is expected to gain.
    pub fn expected_return(&self, cost_mb: u32, rounds_from_global: u32) -> (r: Fraction)
        ensures
            r == gain_of(cost_mb, rounds_from_global),
    {
        let rounds: i128 = 5 + rounds_from_global as i128;
        let cost: i128 = cost_mb as i128;
        assert(0 <= cost * rounds <= 0xffff_ffff * 0x1_0000_0004) by (nonlinear_arith)
            requires
                0 <= cost <= 0xffff_ffff,
                0 <= rounds <= 0x1_0000_0004,
        ;
        Fraction { num: 25 - cost * rounds, den: (10 * rounds) as u128 }
    }
}

/// Urgency of a compaction, the most urgent first.
#[derive(Debug, Clone, Copy, PartialEq, Eq, Structural, PartialOrd, Ord)]
pub enum CompactionPriority {
    /// Flush of L1.
    Flush,
    /// L1 to L2.
    Minor,
    /// Guard merge, or L2 to L3.
    Major,
}

/// A movement of deltas.
#[derive(Debug)]
pub enum CompactionAction {
    L1Flush,
    L1ToL2 { column: String },
    GuardMerge { guard_key: GuardKey },
    L2ToL3 { seg_id: String },
}

/// Kind of a rewrite.
#[derive(Debug, Clone, Copy, PartialEq, Eq, Structural)]
pub enum RewriteAction {
    FlushL1ToL2,
    GuardMerge,
    CompactL2ToL3,
    MetadataEvidenceRefresh,
    CheckpointPrivilege,
    PdtMerge,
    SmallFileMerge,
    QueryDriven,
}

/// A rewrite as the scheduler sees it.
#[derive(Debug)]
pub struct MaintenanceTask {
    pub action: RewriteAction,
    pub seg_id: Option<String>,
    pub size_bytes: u64,
}

/// The kind of rewrite of a movement.
pub open spec fn rewrite_of(a: CompactionAction) -> RewriteAction {
    match a {
        CompactionAction::L1Flush => RewriteAction::FlushL1ToL2,
        CompactionAction::L1ToL2 { .. } => RewriteAction::FlushL1ToL2,
        CompactionAction::GuardMerge { .. } => RewriteAction::GuardMerge,
        CompactionAction::L2ToL3 { .. } => RewriteAction::CompactL2ToL3,
    }
}

/// The urgency of a movement.
pub open spec fn priority_of(a: CompactionAction) -> CompactionPriority {
    match a {
        CompactionAction::L1Flush => CompactionPriority::Flush,
        CompactionAction::L1ToL2 { .. } => CompactionPriority::Minor,
        CompactionAction::GuardMerge { .. } => CompactionPriority::Major,
        CompactionAction::L2ToL3 { .. } => CompactionPriority::Major,
    }
}

/// `t` is the task of a movement.
pub open spec fn is_task_of(t: MaintenanceTask, a: CompactionAction) -> bool {
    &&& t.action == rewrite_of(a)
    &&& t.size_bytes == 0
    &&& match a {
        CompactionAction::L1Flush => t.seg_id is None,
        CompactionAction::L1ToL2 { column } => t.seg_id matches Some(s) && s@ == column@,
        CompactionAction::GuardMerge { guard_key } => t.seg_id matches Some(s) && s@
            == guard_key.seg_id@,
        CompactionAction::L2ToL3 { seg_id } => t.seg_id matches Some(s) && s@ == seg_id@,
    }
}

impl CompactionAction {
    pub fn priority(&self) -> (r: CompactionPriority)
        ensures
            r == priority_of(*self),
    {
        match self {
            CompactionAction::L1Flush => CompactionPriority::Flush,
            CompactionAction::L1ToL2 { .. } => CompactionPriority::Minor,
            CompactionAction::GuardMerge { .. } => CompactionPriority::Major,
            CompactionAction::L2ToL3 { .. } => CompactionPriority::Major,
        }
    }

    pub fn rewrite_action(&self) -> (r: RewriteAction)
        ensures
            r == rewrite_of(*self),
    {
        match self {
            CompactionAction::L1Flush => RewriteAction::FlushL1ToL2,
            CompactionAction::L1ToL2 { .. } => RewriteAction::FlushL1ToL2,
            CompactionAction::GuardMerge { .. } => RewriteAction::GuardMerge,
            CompactionAction::L2ToL3 { .. } => RewriteAction::CompactL2ToL3,
        }
    }

    pub fn maintenance_task(&self) -> (r: MaintenanceTask)
        ensures
            is_task_of(r, *self),
    {
        let seg_id = match self {
            CompactionAction::L1Flush => None,
            CompactionAction::L1ToL2 { column } => Some(column.clone()),
            CompactionAction::GuardMerge { guard_key } => Some(guard_key.seg_id.clone()),
            CompactionAction::L2ToL3 { seg_id } => Some(seg_id.clone()),
        };
        MaintenanceTask { action: self.rewrite_action(), seg_id, size_bytes: 0 }
    }
}

/// A movement that was decided on.
#[derive(Debug)]
pub struct CompactionDecision {
    pub action: CompactionAction,
    pub maintenance: MaintenanceTask,
    pub priority: CompactionPriority,
    pub expected_benefit: Fraction,
    pub concurrency: usize,
}

impl CompactionDecision {
    /// The parts of a decision fit its action.
    pub open spec fn fits(&self) -> bool {
        is_task_of(self.maintenance, self.action) && self.priority == priority_of(self.action)
    }

    pub fn new(action: CompactionAction, expected_benefit: Fraction, concurrency: usize) -> (r: Self)
        ensures
            r.fits(),
            r.action == action,
            r.expected_benefit == expected_benefit,
            r.concurrency == concurrency,
    {
        let maintenance = action.maintenance_task();
        CompactionDecision {
            priority: action.priority(),
            maintenance,
            action,
            expected_benefit,
            concurrency,
        }
    }
}

/// The cell at `i` wins its row: every earlier cell of the row has a lower
/// transaction, and no later one a higher.
pub open spec fn wins_row(cells: Seq<CellView>, i: int) -> bool {
    &&& 0 <= i < cells.len()
    &&& forall|j: int|
        #![trigger cells[j]]
        0 <= j < cells.len() && j != i && cells[j].row_offset == cells[i].row_offset ==> if j < i {
            cells[j].txn_id < cells[i].txn_id
        } else {
            cells[j].txn_id <= cells[i].txn_id
        }
}

/// The cell at `i` is the first with the lowest transaction.
pub open spec fn is_oldest(cells: Seq<CellView>, i: int) -> bool {
    &&& 0 <= i < cells.len()
    &&& forall|j: int|
        #![trigger cells[j]]
        0 <= j < cells.len() ==> if j < i {
            cells[i].txn_id < cells[j].txn_id
        } else {
            cells[i].txn_id <= cells[j].txn_id
        }
}

/// The highest transaction of some cells.
pub open spec fn is_newest_txn(cells: Seq<CellView>, txn: u64) -> bool {
    &&& forall|j: int| #![trigger cells[j]] 0 <= j < cells.len() ==> cells[j].txn_id <= txn
    &&& exists|j: int| #![trigger cells[j]] 0 <= j < cells.len() && cells[j].txn_id == txn
}

/// Some cell wins a row.
pub open spec fn has_winner(cells: Seq<CellView>, row: u64) -> bool {
    exists|i: int| #[trigger] wins_row(cells, i) && cells[i].row_offset == row
}

/// `rows` lists the rows of some cells, in ascending order.
pub open spec fn lists_rows(rows: Seq<u64>, cells: Seq<CellView>) -> bool {
    &&& forall|a: int, b: int| #![auto] 0 <= a < b < rows.len() ==> rows[a] < rows[b]
    &&& forall|a: int|
        #![trigger rows[a]]
        0 <= a < rows.len() ==> has_winner(cells, rows[a])
    &&& forall|i: int|
        #![trigger cells[i]]
        0 <= i < cells.len() ==> rows.contains(cells[i].row_offset)
}

/// `values` has, for each row, the after-image of the cell that wins it, no
/// bytes for a missing image.
pub open spec fn lists_values(values: Seq<Option<Seq<u8>>>, rows: Seq<u64>, cells: Seq<CellView>) -> bool {
    &&& values.len() == rows.len()
    &&& forall|a: int, i: int|
        #![trigger values[a], wins_row(cells, i)]
        0 <= a < rows.len() && wins_row(cells, i) && cells[i].row_offset == rows[a] ==> values[a]
            == Some(image_bytes(cells[i].after))
}

/// The rows as a bitmap holds them.
pub open spec fn short_rows(rows: Seq<u64>) -> Seq<u32> {
    rows.map_values(|r: u64| r as u32)
}

/// The number after the last row, modulo the range of `u64`.
pub open spec fn row_span(rows: Seq<u64>) -> u64 {
    if rows.len() == 0 {
        1
    } else if rows.last() == u64::MAX {
        0
    } else {
        (rows.last() + 1) as u64
    }
}

/// `f` stores values for rows, sparse or dense as the selector chooses.
pub open spec fn is_format_of(
    f: FormatView,
    selector: SparsitySelector,
    rows: Seq<u64>,
    values: Seq<Option<Seq<u8>>>,
    txn: u64,
) -> bool {
    let short = short_rows(rows);
    match f {
        FormatView::Sparse { positions, values: v, affected_count } => {
            &&& chooses_sparse(selector, row_span(rows), rows.len())
            &&& portable_rows(positions) == short.to_set()
            &&& affected_count == short.to_set().len()
            &&& ipc_column(v) == Some((rows.len(), Some(values)))
        },
        FormatView::Dense { values: v, total_rows, txn_id } => {
            &&& !chooses_sparse(selector, row_span(rows), rows.len())
            &&& total_rows == row_span(rows)
            &&& txn_id == txn
            &&& ipc_column(v) == Some((total_rows as nat, Some(row_values(rows, values, total_rows as nat))))
        },
    }
}

/// One cell for each of `n` rows: the value of a row that is listed, and for every other
/// row none.
pub open spec fn row_values(rows: Seq<u64>, values: Seq<Option<Seq<u8>>>, n: nat) -> Seq<
    Option<Seq<u8>>,
> {
    Seq::new(
        n,
        |i: int|
            if rows.contains(i as u64) {
                values[rows.index_of(i as u64)]
            } else {
                None
            },
    )
}

/// Whether a patch cannot hold the last of some rows: a bitmap has rows of 32 bits, and a
/// dense patch a value for every row up to the last.
pub open spec fn too_wide(selector: SparsitySelector, rows: Seq<u64>) -> bool {
    if chooses_sparse(selector, row_span(rows), rows.len()) {
        rows.last() > u32::MAX
    } else {
        rows.last() >= MAX_DENSE_ROWS
    }
}

/// `patch` is the patch of some cells.
pub open spec fn is_patch_of(
    patch: DeltaPatch,
    cells: Seq<CellView>,
    selector: SparsitySelector,
    rows: Seq<u64>,
    values: Seq<Option<Seq<u8>>>,
) -> bool {
    &&& exists|i: int|
        is_oldest(cells, i) && patch.seg_id@ == cells[i].seg_id && patch.column@ == cells[i].column
            && patch.txn_range.0 == cells[i].txn_id
    &&& is_newest_txn(cells, patch.txn_range.1)
    &&& patch.patch_id == patch.txn_range.1
    &&& lists_rows(rows, cells)
    &&& lists_values(values, rows, cells)
    &&& !too_wide(selector, rows)
    &&& is_format_of(patch.format@, selector, rows, values, patch.txn_range.1)
    &&& patch.zone_map == (ZoneMap {
        min_txn: patch.txn_range.0,
        max_txn: patch.txn_range.1,
        affected_rows: rows.len() as u64,
        min_value: None,
        max_value: None,
    })
}

/// `patch` is a patch of some cells.
pub open spec fn makes_patch(patch: DeltaPatch, cells: Seq<CellView>, selector: SparsitySelector) -> bool {
    cells.len() > 0 && exists|rows: Seq<u64>, values: Seq<Option<Seq<u8>>>| #[trigger]
        is_patch_of(patch, cells, selector, rows, values)
}

/// Why no patch could be made of some cells: there are none, their last row is too high,
/// or their values are too large for one column.
pub open spec fn patch_fails(cells: Seq<CellView>, selector: SparsitySelector, e: RockDuckError) -> bool {
    if cells.len() == 0 {
        e == RockDuckError::EmptyPatch
    } else {
        exists|rows: Seq<u64>, values: Seq<Option<Seq<u8>>>|
            lists_rows(rows, cells) && #[trigger] lists_values(values, rows, cells) && (too_wide(
                selector,
                rows,
            ) || cells_size(values) > i32::MAX) && e == RockDuckError::TooLarge
    }
}

/// `index` has the winning cell of each row.
spec fn indexes(index: Map<u64, usize>, cells: Seq<CellView>) -> bool {
    &&& forall|row: u64| #[trigger]
        index.dom().contains(row) ==> index[row] < cells.len() && cells[index[row] as int].row_offset
            == row && wins_row(cells, index[row] as int)
    &&& forall|i: int| #![trigger cells[i]] 0 <= i < cells.len() ==> index.dom().contains(cells[i].row_offset)
}

/// The winning cell of each row stays so, or gives way, when a cell follows.
proof fn lemma_indexes_push(before: Map<u64, usize>, after: Map<u64, usize>, cells: Seq<CellView>, i: int)
    requires
        0 <= i < cells.len() <= usize::MAX,
        indexes(before, cells.take(i)),
        after == if before.dom().contains(cells[i].row_offset) && cells[i].txn_id
            <= cells[before[cells[i].row_offset] as int].txn_id {
            before
        } else {
            before.insert(cells[i].row_offset, i as usize)
        },
    ensures
        indexes(after, cells.take(i + 1)),
{
    let now = cells.take(i);
    let next = cells.take(i + 1);
    assert forall|j: int| 0 <= j < i implies #[trigger] now[j] == next[j] by {}
    assert forall|row: u64| #[trigger] after.dom().contains(row) implies after[row] < next.len()
        && next[after[row] as int].row_offset == row && wins_row(next, after[row] as int) by {
        let w = after[row] as int;
        if w == i {
            assert forall|j: int|
                #![trigger next[j]]
                0 <= j < next.len() && j != w && next[j].row_offset == next[w].row_offset implies if j
                < w {
                next[j].txn_id < next[w].txn_id
            } else {
                next[j].txn_id <= next[w].txn_id
            } by {
                assert(now[j] == next[j]);
                let h = before[row] as int;
                assert(before.dom().contains(row));
                assert(now[h] == next[h]);
            }
        } else {
            assert(before.dom().contains(row) && before[row] == after[row]);
            assert(now[w] == next[w]);
            assert forall|j: int|
                #![trigger next[j]]
                0 <= j < next.len() && j != w && next[j].row_offset == next[w].row_offset implies if j
                < w {
                next[j].txn_id < next[w].txn_id
            } else {
                next[j].txn_id <= next[w].txn_id
            } by {
                if j < i {
                    assert(now[j] == next[j]);
                }
            }
        }
    }
    assert forall|j: int| #![trigger next[j]] 0 <= j < next.len() implies after.dom().contains(
        next[j].row_offset,
    ) by {
        if j < i {
            assert(now[j] == next[j]);
        }
    }
}

/// The first oldest cell, the highest transaction, and the winner of each row.
fn index_cells(cells: &Vec<DeltaCell>) -> (r: (usize, u64, OrdMap<u64, usize>))
    requires
        cells@.len() > 0,
    ensures
        is_oldest(cell_views(cells@), r.0 as int),
        is_newest_txn(cell_views(cells@), r.1),
        r.2.wf(),
        indexes(r.2@, cell_views(cells@)),
{
    let ghost views = cell_views(cells@);
    let mut oldest: usize = 0;
    let mut newest: u64 = cells[0].txn_id;
    let mut index: OrdMap<u64, usize> = OrdMap::new();
    let mut i: usize = 0;
    proof {
        assert(views[0] == cells@[0]@);
        assert(views[0].txn_id == newest);
    }
    while i < cells.len()
        invariant
            i <= cells@.len(),
            0 < cells@.len() == views.len(),
            oldest < cells@.len(),
            i > 0 ==> oldest < i,
            i == 0 ==> oldest == 0,
            views == cell_views(cells@),
            index.wf(),
            forall|j: int|
                #![trigger views[j]]
                0 <= j < i ==> if j < oldest {
                    views[oldest as int].txn_id < views[j].txn_id
                } else {
                    views[oldest as int].txn_id <= views[j].txn_id
                },
            forall|j: int| #![trigger views[j]] 0 <= j < i ==> views[j].txn_id <= newest,
            exists|j: int| #![trigger views[j]] 0 <= j < views.len() && views[j].txn_id == newest,
            indexes(index@, views.take(i as int)),
        decreases cells@.len() - i,
    {
        let c: &DeltaCell = &cells[i];
        assert(views[i as int] == c@);
        assert(views[oldest as int] == cells@[oldest as int]@);
        if c.txn_id < cells[oldest].txn_id {
            oldest = i;
        }
        if c.txn_id > newest {
            newest = c.txn_id;
        }
        let take = match index.get(&c.row_offset) {
            Some(held) => {
                assert(views.take(i as int)[*held as int] == views[*held as int]);
                assert(views[*held as int] == cells@[*held as int]@);
                c.txn_id > cells[*held].txn_id
            },
            None => true,
        };
        let ghost before = index@;
        if take {
            let _ = index.insert(c.row_offset, i);
        }
        proof {
            lemma_indexes_push(before, index@, views, i as int);
        }
        i = i + 1;
    }
    assert(views.take(i as int) =~= views);
    (oldest, newest, index)
}

/// The rows of an index, as they are and shortened, with their values.
fn collect_rows(cells: &Vec<DeltaCell>, index: &OrdMap<u64, usize>) -> (r: (
    Vec<u64>,
    Vec<u32>,
    Vec<Option<Vec<u8>>>,
))
    requires
        index.wf(),
        indexes(index@, cell_views(cells@)),
    ensures
        lists_rows(r.0@, cell_views(cells@)),
        r.1@ == short_rows(r.0@),
        lists_values(cells_view(r.2@), r.0@, cell_views(cells@)),
{
    let ghost views = cell_views(cells@);
    let mut rows: Vec<u64> = Vec::new();
    let mut short: Vec<u32> = Vec::new();
    let mut values: Vec<Option<Vec<u8>>> = Vec::new();
    let mut k: usize = 0;
    while k < index.len()
        invariant
            index.wf(),
            k <= index.keys().len(),
            views == cell_views(cells@),
            indexes(index@, views),
            rows@ == index.keys().take(k as int),
            short@ == short_rows(rows@),
            values@.len() == k,
            forall|a: int|
                #![trigger values@[a]]
                0 <= a < k ==> (values@[a] matches Some(v) && v@ == image_bytes(
                    views[index.value_of(a) as int].after,
                )),
        decreases index.keys().len() - k,
    {
        let row: u64 = *index.key_at(k);
        let at: usize = *index.value_at(k);
        proof {
            index.lemma_index(k as int);
        }
        let c: &DeltaCell = &cells[at];
        assert(views[at as int] == c@);
        let value = match &c.after {
            Some(b) => bytes_copy(b.as_slice()),
            None => {
                let none: Vec<u8> = Vec::new();
                assert(none@ =~= Seq::empty());
                none
            },
        };
        let ghost prev = values@;
        rows.push(row);
        #[verifier::truncate]
        let low: u32 = row as u32;
        short.push(low);
        values.push(Some(value));
        k = k + 1;
        proof {
            assert(rows@ =~= index.keys().take(k as int));
            assert(short@ =~= short_rows(rows@));
            assert forall|a: int| #![trigger values@[a]] 0 <= a < k implies (values@[a] matches Some(
                v,
            ) && v@ == image_bytes(views[index.value_of(a) as int].after)) by {
                if a < k - 1 {
                    assert(values@[a] == prev[a]);
                }
            }
        }
    }
    let ghost value_views = cells_view(values@);
    proof {
        assert(rows@ =~= index.keys());
        assert forall|a: int, b: int| #![auto] 0 <= a < b < rows@.len() implies rows@[a]
            < rows@[b] by {
            assert(<u64 as OrdKey>::before(index.keys()[a], index.keys()[b]));
        }
        assert forall|a: int| #![trigger rows@[a]] 0 <= a < rows@.len() implies has_winner(
            views,
            rows@[a],
        ) by {
            index.lemma_index(a);
            let w = index@[rows@[a]] as int;
            assert(wins_row(views, w));
        }
        assert forall|j: int| #![trigger views[j]] 0 <= j < views.len() implies rows@.contains(
            views[j].row_offset,
        ) by {
            let a = index.lemma_key(views[j].row_offset);
            assert(rows@[a] == views[j].row_offset);
        }
        assert(lists_rows(rows@, views));
        assert forall|a: int, w: int|
            #![trigger value_views[a], wins_row(views, w)]
            0 <= a < rows@.len() && wins_row(views, w) && views[w].row_offset
                == rows@[a] implies value_views[a] == Some(image_bytes(views[w].after)) by {
            index.lemma_index(a);
            let h = index.value_of(a) as int;
            assert(wins_row(views, h) && views[h].row_offset == rows@[a]);
            assert(h == w);
            assert(values@[a] is Some);
        }
        assert(lists_values(value_views, rows@, views));
    }
    (rows, short, values)
}

/// Makes one patch of cells of one column: the latest value of each row.
pub fn build_patch_from_cells(cells: &Vec<DeltaCell>, selector: &SparsitySelector) -> (r: Result<
    DeltaPatch,
    RockDuckError,
>)
    ensures
        match r {
            Ok(patch) => makes_patch(patch, cell_views(cells@), *selector),
            Err(e) => patch_fails(cell_views(cells@), *selector, e),
        },
        cells@.len() > 0 && fits_patches(cell_views(cells@)) ==> r is Ok,
{
    if cells.len() == 0 {
        return Err(RockDuckError::EmptyPatch);
    }
    let ghost views = cell_views(cells@);
    let (oldest, newest, index) = index_cells(cells);
    let (rows, short, values) = collect_rows(cells, &index);
    let ghost views = cell_views(cells@);
    let ghost value_views = cells_view(values@);
    assert(views[0] == cells@[0]@);
    let last: u64 = rows[rows.len() - 1];
    let total_rows: u64 = last.wrapping_add(1);
    assert(total_rows == row_span(rows@));
    proof {
        lemma_values_fit(views, rows@, value_views);
        assert(has_winner(views, rows@[rows@.len() - 1]));
    }
    let last_held: u64 = if selector.should_use_sparse(total_rows, rows.len()) {
        0xffff_ffff
    } else {
        MAX_DENSE_ROWS - 1
    };
    if last > last_held {
        return Err(RockDuckError::TooLarge);
    }
    proof {
        lemma_row_values(rows@, value_views, total_rows as nat);
    }
    let format = match selector.build_format(short.as_slice(), &values, total_rows, newest) {
        Ok(f) => f,
        Err(e) => return Err(e),
    };
    let txn_range = (cells[oldest].txn_id, newest);
    let patch = DeltaPatch {
        seg_id: cells[oldest].seg_id.clone(),
        column: cells[oldest].column.clone(),
        patch_id: newest,
        txn_range,
        format,
        zone_map: ZoneMap {
            min_txn: txn_range.0,
            max_txn: txn_range.1,
            affected_rows: rows.len() as u64,
            min_value: None,
            max_value: None,
        },
    };
    proof {
        assert(views[oldest as int] == cells@[oldest as int]@);
        assert(is_oldest(views, oldest as int));
        assert(is_patch_of(patch, views, *selector, rows@, value_views));
    }
    Ok(patch)
}

/// Values laid out over ascending rows, given whole or shortened to 32 bits.
proof fn lemma_row_values(rows: Seq<u64>, values: Seq<Option<Seq<u8>>>, n: nat)
    requires
        values.len() == rows.len() > 0,
        forall|a: int, b: int| #![auto] 0 <= a < b < rows.len() ==> rows[a] < rows[b],
        rows.last() <= u32::MAX,
        n == rows.last() + 1,
    ensures
        spread(short_rows(rows), values, n) == row_values(rows, values, n),
        cells_size(spread(short_rows(rows), values, n)) == cells_size(values),
{
    let short = short_rows(rows);
    assert forall|a: int| #![trigger rows[a]] 0 <= a < rows.len() implies rows[a] < n && short[a] == rows[a] by {
        if a < rows.len() - 1 {
            assert(rows[a] < rows[rows.len() - 1]);
        }
    }
    assert forall|a: int, b: int| #![auto] 0 <= a < b < short.len() implies short[a] < short[b] by {
        assert(rows[a] < rows[b]);
    }
    assert forall|a: int| #![trigger short[a]] 0 <= a < short.len() implies short[a] < n by {
        assert(rows[a] < n);
    }
    lemma_spread_size(short, values, n);
    let x = spread(short, values, n);
    let y = row_values(rows, values, n);
    assert forall|i: int| 0 <= i < n implies x[i] == y[i] by {
        lemma_last_place(short, i);
        match last_place(short, i) {
            Some(k) => {
                assert(rows[k] == i as u64);
                let m = rows.index_of(i as u64);
                assert(rows.contains(i as u64));
                assert(rows[m] == rows[k]);
                if m < k {
                    assert(rows[m] < rows[k]);
                } else if k < m {
                    assert(rows[k] < rows[m]);
                }
            },
            None => {
                if rows.contains(i as u64) {
                    let m = rows.index_of(i as u64);
                    assert(short[m] == rows[m]);
                }
            },
        }
    }
    assert(x =~= y);
}

/// The cells of a column of a segment.
pub open spec fn in_column(key: (Seq<char>, Seq<char>)) -> spec_fn(CellView) -> bool {
    |c: CellView| c.seg_id == key.0 && c.column == key.1
}

/// The cells of one column of a segment, in order.
pub open spec fn group_of(cells: Seq<CellView>, key: (Seq<char>, Seq<char>)) -> Seq<CellView> {
    select(cells, in_column(key))
}

/// `keys` lists the columns of some cells, each once.
pub open spec fn lists_columns(keys: Seq<(Seq<char>, Seq<char>)>, cells: Seq<CellView>) -> bool {
    &&& keys.no_duplicates()
    &&& forall|i: int|
        #![trigger cells[i]]
        0 <= i < cells.len() ==> keys.contains((cells[i].seg_id, cells[i].column))
    &&& forall|k: int| #![trigger keys[k]] 0 <= k < keys.len() ==> group_of(cells, keys[k]).len() > 0
}

/// The store after a patch was appended for each of the first columns.
pub open spec fn all_appended(
    d: DiskView,
    root: Seq<char>,
    keys: Seq<(Seq<char>, Seq<char>)>,
    patches: Seq<DeltaPatch>,
) -> DiskView
    decreases patches.len(),
{
    if patches.len() == 0 {
        d
    } else {
        let k = keys[patches.len() - 1];
        appended(all_appended(d, root, keys, patches.drop_last()), root, k.0, k.1, patches.last())
    }
}

/// The stack after patches were appended to L2.
pub open spec fn with_patches(s: StackView, patches: nat) -> StackView {
    StackView { l2_patch_count: counted_up(s.l2_patch_count, patches as usize), ..s }
}

/// How the cells of a flush were written: a patch for each column, in some
/// order, until all are written or one cannot be made.
pub open spec fn columns_written(
    before: DeltaLayerStack,
    after: DeltaLayerStack,
    cells: Seq<CellView>,
    selector: SparsitySelector,
    keys: Seq<(Seq<char>, Seq<char>)>,
    patches: Seq<DeltaPatch>,
    r: Result<usize, RockDuckError>,
) -> bool {
    &&& lists_columns(keys, cells)
    &&& patches.len() <= keys.len()
    &&& forall|i: int|
        #![trigger patches[i]]
        0 <= i < patches.len() ==> makes_patch(patches[i], group_of(cells, keys[i]), selector)
    &&& after.l2@ == all_appended(before.l2@, before.l2.root(), keys, patches)
    &&& match r {
        Ok(n) => n == keys.len() && n == patches.len() && after@ == flush_ended(
            with_patches(before@, patches.len()),
        ),
        Err(e) => patches.len() < keys.len() && patch_fails(
            group_of(cells, keys[patches.len() as int]),
            selector,
            e,
        ) && after@ == with_patches(before@, patches.len()),
    }
}

/// What a flush writes, and whether it ends.
pub open spec fn flush_written(
    before: DeltaLayerStack,
    after: DeltaLayerStack,
    cells: Seq<CellView>,
    selector: SparsitySelector,
    r: Result<usize, RockDuckError>,
) -> bool {
    exists|keys: Seq<(Seq<char>, Seq<char>)>, patches: Seq<DeltaPatch>| #[trigger]
        columns_written(before, after, cells, selector, keys, patches, r)
}

/// The parts of the stack that writing to L2 leaves alone.
pub open spec fn only_l2_written(before: DeltaLayerStack, after: DeltaLayerStack) -> bool {
    &&& after.wf()
    &&& after.l1 == before.l1
    &&& after.l3 == before.l3
    &&& after.config == before.config
    &&& after.l2.root() == before.l2.root()
    &&& after.l2.threshold() == before.l2.threshold()
    &&& after.l2.in_background() == before.l2.in_background()
}

/// `groups` holds the cells of each column.
pub open spec fn groups_cells(groups: Map<(Seq<char>, Seq<char>), Vec<DeltaCell>>, cells: Seq<CellView>) -> bool {
    &&& forall|i: int|
        #![trigger cells[i]]
        0 <= i < cells.len() ==> groups.dom().contains((cells[i].seg_id, cells[i].column))
    &&& forall|k: (Seq<char>, Seq<char>)|
        #![trigger groups.dom().contains(k)]
        groups.dom().contains(k) ==> cell_views(groups[k]@) == group_of(cells, k) && groups[k]@.len()
            > 0
}

proof fn lemma_group_absent(cells: Seq<CellView>, key: (Seq<char>, Seq<char>))
    requires
        forall|i: int|
            #![trigger cells[i]]
            0 <= i < cells.len() ==> (cells[i].seg_id, cells[i].column) != key,
    ensures
        group_of(cells, key) == Seq::<CellView>::empty(),
    decreases cells.len(),
{
    if cells.len() > 0 {
        let front = cells.drop_last();
        assert forall|i: int| #![trigger front[i]] 0 <= i < front.len() implies (
            front[i].seg_id,
            front[i].column,
        ) != key by {
            assert(front[i] == cells[i]);
        }
        lemma_group_absent(front, key);
        let last = cells[cells.len() - 1];
        assert((last.seg_id, last.column) != key);
    }
}

/// Groups cells by column.
fn group_cells(cells: Vec<DeltaCell>) -> (groups: OrdMap<(String, String), Vec<DeltaCell>>)
    ensures
        groups.wf(),
        groups_cells(groups@, cell_views(cells@)),
{
    let mut groups: OrdMap<(String, String), Vec<DeltaCell>> = OrdMap::new();
    let ghost all = cells@;
    let ghost views = cell_views(all);
    for cell in it: cells
        invariant
            it.seq() == all,
            views == cell_views(all),
            groups.wf(),
            groups_cells(groups@, views.take(it.index() as int)),
    {
        let ghost i = it.index() as int;
        let ghost now = views.take(i);
        let ghost next = views.take(i + 1);
        let ghost before = groups@;
        let ghost c = cell@;
        let ghost key = (c.seg_id, c.column);
        proof {
            assert(views[i] == c);
            assert(next.drop_last() =~= now);
            assert(next.last() == c);
        }
        let k = (cell.seg_id.clone(), cell.column.clone());
        match groups.find(&k) {
            Ok(at) => {
                let ghost was = groups;
                let group = groups.value_mut(at);
                let ghost held = group@;
                group.push(cell);
                proof {
                    lemma_value_changed(was, groups, at as int);
                    assert(cell_views(held.push(cell)) =~= cell_views(held).push(c));
                    assert(groups@.dom() =~= before.dom());
                }
            },
            Err(_) => {
                proof {
                    assert forall|j: int| #![trigger now[j]] 0 <= j < now.len() implies (
                        now[j].seg_id,
                        now[j].column,
                    ) != key by {
                        assert(before.dom().contains((now[j].seg_id, now[j].column)));
                    }
                    lemma_group_absent(now, key);
                }
                let mut group: Vec<DeltaCell> = Vec::new();
                group.push(cell);
                proof {
                    assert(cell_views(group@) =~= Seq::<CellView>::empty().push(c));
                }
                let _ = groups.insert(k, group);
            },
        }
        proof {
            assert forall|j: int| #![trigger next[j]] 0 <= j < next.len() implies groups@.dom().contains(
                (next[j].seg_id, next[j].column),
            ) by {
                if j < i {
                    assert(now[j] == next[j]);
                }
            }
            assert forall|x: (Seq<char>, Seq<char>)|
                #![trigger groups@.dom().contains(x)]
                groups@.dom().contains(x) implies cell_views(groups@[x]@) == group_of(next, x)
                && groups@[x]@.len() > 0 by {
                if x != key {
                    assert(before.dom().contains(x));
                    assert(groups@[x] == before[x]);
                }
            }
        }
    }
    assert(views.take(views.len() as int) =~= views);
    groups
}

/// Moves cells between the layers and decides when.
#[derive(Debug)]
pub struct FlushEngine {
    pub fg_monitor: ForegroundMonitor,
    pub ecotune: EcoTuneSelector,
    pub compaction_threshold: u32,
    pub shutdown: bool,
    pub sparsity_selector: SparsitySelector,
    pub async_enabled: bool,
    pub tick_interval_ms: u64,
    pub min_flush_interval_ms: u64,
}

impl FlushEngine {
    /// Writes the cells that a flush took out of L1 to L2, one patch for each
    /// column, and ends the flush.
    pub fn finish_flush(&self, stack: &mut DeltaLayerStack, cells: Vec<DeltaCell>) -> (r: Result<
        usize,
        RockDuckError,
    >)
        requires
            old(stack).wf(),
        ensures
            only_l2_written(*old(stack), *final(stack)),
            flush_written(*old(stack), *final(stack), cell_views(cells@), self.sparsity_selector, r),
            fits_patches(cell_views(cells@)) ==> r is Ok,
    {
        let ghost views = cell_views(cells@);
        let groups = group_cells(cells);
        let ghost keys = groups.keys();
        let ghost mut patches: Seq<DeltaPatch> = Seq::empty();
        let ghost start = *stack;
        proof {
            assert forall|a: int, b: int| 0 <= a < keys.len() && 0 <= b < keys.len() && a != b implies keys[a]
                != keys[b] by {
                if keys[a] == keys[b] {
                    <(String, String) as OrdKey>::before_irreflexive(keys[a]);
                }
            }
            assert forall|i: int| #![trigger views[i]] 0 <= i < views.len() implies keys.contains(
                (views[i].seg_id, views[i].column),
            ) by {
                let a = groups.lemma_key((views[i].seg_id, views[i].column));
                assert(keys[a] == (views[i].seg_id, views[i].column));
            }
            assert forall|k: int| #![trigger keys[k]] 0 <= k < keys.len() implies group_of(
                views,
                keys[k],
            ).len() > 0 by {
                groups.lemma_index(k);
            }
            assert(lists_columns(keys, views));
        }
        let mut i: usize = 0;
        while i < groups.len()
            invariant
                groups.wf(),
                keys == groups.keys(),
                groups_cells(groups@, views),
                lists_columns(keys, views),
                i <= keys.len(),
                patches.len() == i,
                only_l2_written(start, *stack),
                forall|j: int|
                    #![trigger patches[j]]
                    0 <= j < patches.len() ==> makes_patch(
                        patches[j],
                        group_of(views, keys[j]),
                        self.sparsity_selector,
                    ),
                stack.l2@ == all_appended(start.l2@, start.l2.root(), keys, patches),
                stack@ == with_patches(start@, patches.len()),
                start == *old(stack),
                views == cell_views(cells@),
            decreases keys.len() - i,
        {
            proof {
                groups.lemma_index(i as int);
            }
            let key = groups.key_at(i);
            let group = groups.value_at(i);
            let patch = match build_patch_from_cells(group, &self.sparsity_selector) {
                Ok(p) => p,
                Err(e) => {
                    proof {
                        assert(columns_written(
                            start,
                            *stack,
                            views,
                            self.sparsity_selector,
                            keys,
                            patches,
                            Err(e),
                        ));
                        if fits_patches(views) {
                            law_small_flush_succeeds(start, *stack, views, self.sparsity_selector, Err(e));
                        }
                    }
                    return Err(e);
                },
            };
            let ghost done = patches;
            stack.l2.append_patch(key.0.as_str(), key.1.as_str(), &patch);
            stack.record_l2_patch();
            proof {
                patches = patches.push(patch);
                assert(patches.drop_last() =~= done);
                assert forall|j: int| #![trigger patches[j]] 0 <= j < patches.len() implies makes_patch(
                    patches[j],
                    group_of(views, keys[j]),
                    self.sparsity_selector,
                ) by {
                    if j < done.len() {
                        assert(patches[j] == done[j]);
                    }
                }
                assert(stack@ =~= with_patches(start@, patches.len()));
            }
            i = i + 1;
        }
        stack.clear_recent_flush();
        proof {
            assert(columns_written(
                start,
                *stack,
                views,
                self.sparsity_selector,
                keys,
                patches,
                Ok(i),
            ));
        }
        Ok(i)
    }
}

/// What a flush takes out of L1: the cold buffer, then the hot one.
pub open spec fn flush_cells(m: MemView) -> Seq<CellView> {
    m.cold_cells + m.hot_cells
}

/// L1 after a flush took its cells and its pending log entries.
pub open spec fn flush_taken(m: MemView) -> MemView {
    MemView { pending: Seq::empty(), ..drained(swapped(m)) }
}

/// Whether a flush of L1 would have to log cells first.
pub open spec fn must_log(stack: DeltaLayerStack) -> bool {
    stack.l1.config().has_wal && stack.l1@.pending.len() > 0
}

/// The stack once a flush took the cells out of L1: they stay readable, and
/// nothing else changed.
pub open spec fn flush_begun(before: DeltaLayerStack, after: DeltaLayerStack) -> bool {
    &&& after.wf()
    &&& after.l1@ == flush_taken(before.l1@)
    &&& after.l1.config() == before.l1.config()
    &&& after.l1.heat() == before.l1.heat()
    &&& after.l2 == before.l2
    &&& after.l3 == before.l3
    &&& after.config == before.config
    &&& after@.recent == by_identity(flush_cells(before.l1@))
    &&& after@.flush_epoch == before@.flush_epoch
    &&& after@.l2_patch_count == before@.l2_patch_count
    &&& after@.l3_patch_count == before@.l3_patch_count
}

/// A whole flush: the cells leave L1 and are written to L2.
pub open spec fn flushed(
    before: DeltaLayerStack,
    after: DeltaLayerStack,
    selector: SparsitySelector,
    r: Result<usize, RockDuckError>,
) -> bool {
    exists|mid: DeltaLayerStack| #[trigger]
        flush_begun(before, mid) && only_l2_written(mid, after) && flush_written(
            mid,
            after,
            flush_cells(before.l1@),
            selector,
            r,
        )
}

/// The number under which a patch is frozen, unless a file has it: the least transaction
/// of its guard, and its place in the guard, modulo the range of `u64`.
pub open spec fn frozen_version(min_txn: u64, place: nat) -> u64 {
    ((min_txn * 1000 + place) % 0x1_0000_0000_0000_0000) as u64
}

/// L3 after the patches of a guard were frozen.
pub open spec fn all_frozen(
    d: FrozenView,
    root: Seq<char>,
    seg_id: Seq<char>,
    col: Seq<char>,
    min_txn: u64,
    patches: Seq<PatchRefView>,
) -> FrozenView
    decreases patches.len(),
{
    if patches.len() == 0 {
        d
    } else {
        let place = (patches.len() - 1) as nat;
        let before = all_frozen(d, root, seg_id, col, min_txn, patches.drop_last());
        frozen_with(
            before,
            root,
            seg_id,
            col,
            next_free(
                before,
                root,
                seg_id,
                col,
                frozen_version(min_txn, place),
                before.files.dom().len(),
            ),
            patches.last().txn_range.1,
            patches.last().format,
        )
    }
}

/// L2 and L3 while guards move down, with the patches moved and the error that
/// ended it.
#[verifier::ext_equal]
pub struct Descent {
    pub l2: DiskView,
    pub l3: FrozenView,
    pub moved: usize,
    pub fault: Option<RockDuckError>,
}

/// One more guard moved down: its patches are frozen and the guard is removed. A
/// guard without patches stays.
pub open spec fn guard_moved(
    m: Descent,
    root: Seq<char>,
    seg_id: Seq<char>,
    guard: (GuardKeyView, u64),
) -> Descent {
    let key = guard.0;
    match patches_under(m.l2, key) {
        Err(e) => Descent { fault: Some(e), ..m },
        Ok(p) => if p.len() == 0 {
            m
        } else {
            Descent {
                l2: DiskView {
                    guards: m.l2.guards.remove(key.index()),
                    files: m.l2.files.remove(m.l2.guards[key.index()].file_path),
                },
                l3: all_frozen(m.l3, root, seg_id, key.col, guard.1, p),
                moved: counted_up(m.moved, p.len() as usize),
                fault: None,
            }
        },
    }
}

/// Guards moved down one after the other, until one cannot be read.
pub open spec fn guards_moved(
    m: Descent,
    root: Seq<char>,
    seg_id: Seq<char>,
    guards: Seq<(GuardKeyView, u64)>,
) -> Descent
    decreases guards.len(),
{
    if guards.len() == 0 {
        m
    } else {
        let d = guards_moved(m, root, seg_id, guards.drop_last());
        if d.fault is Some {
            d
        } else {
            guard_moved(d, root, seg_id, guards.last())
        }
    }
}

/// The least transactions of some guards.
pub open spec fn least_txns(guards: Seq<(GuardKeyView, u64)>) -> Seq<u64> {
    guards.map_values(|g: (GuardKeyView, u64)| g.1)
}

/// The first four guards of an order.
pub open spec fn oldest_four(guards: Seq<(GuardKeyView, u64)>, order: Seq<usize>) -> Seq<
    (GuardKeyView, u64),
> {
    let n = if order.len() > 4 {
        4
    } else {
        order.len()
    };
    Seq::new(n, |i: int| guards[order[i] as int])
}

/// A segment compacted from L2 to L3: its four oldest guards, by least
/// transaction, move down. A guard that cannot be read ends it, and then the
/// patch counts stay as they were.
pub open spec fn compacted(
    before: DeltaLayerStack,
    after: DeltaLayerStack,
    seg_id: Seq<char>,
    order: Seq<usize>,
    r: Result<(), RockDuckError>,
) -> bool {
    let guards = guards_of(before.l2.guard_list(), seg_id);
    let end = guards_moved(
        Descent { l2: before.l2@, l3: before.l3@, moved: 0, fault: None },
        before.l3.root(),
        seg_id,
        oldest_four(guards, order),
    );
    &&& is_stable_order::<u64>(order, least_txns(guards))
    &&& after.l2@ == end.l2
    &&& after.l3@ == end.l3
    &&& match end.fault {
        Some(e) => r == Err::<(), RockDuckError>(e) && after@ == before@,
        None => r is Ok && after@ == moved_down(before@, end.moved),
    }
}

/// The parts of the stack that a compaction leaves alone.
pub open spec fn only_descended(before: DeltaLayerStack, after: DeltaLayerStack) -> bool {
    &&& after.wf()
    &&& after.l1 == before.l1
    &&& after.config == before.config
    &&& after.l2.root() == before.l2.root()
    &&& after.l2.threshold() == before.l2.threshold()
    &&& after.l2.in_background() == before.l2.in_background()
    &&& after.l3.root() == before.l3.root()
}

/// Freezes the patches of a guard.
fn freeze_patches(
    l3: &mut DeltaL3Frozen,
    seg_id: &str,
    col: &str,
    min_txn: u64,
    patches: &Vec<MergePatchRef>,
)
    requires
        old(l3).wf(),
    ensures
        final(l3).wf(),
        final(l3).root() == old(l3).root(),
        final(l3)@ == all_frozen(
            old(l3)@,
            old(l3).root(),
            seg_id@,
            col@,
            min_txn,
            patch_views(patches@),
        ),
{
    let ghost views = patch_views(patches@);
    let ghost start = *l3;
    let mut i: usize = 0;
    assert(views.take(0) =~= Seq::empty());
    while i < patches.len()
        invariant
            i <= patches@.len(),
            views == patch_views(patches@),
            l3.wf(),
            l3.root() == start.root(),
            start == *old(l3),
            l3@ == all_frozen(
                start@,
                start.root(),
                seg_id@,
                col@,
                min_txn,
                views.take(i as int),
            ),
        decreases patches@.len() - i,
    {
        let patch: &MergePatchRef = &patches[i];
        let wanted: u64 = min_txn.wrapping_mul(1000).wrapping_add(i as u64);
        let version: u64 = l3.free_version(seg_id, col, wanted);
        let zone_map = ZoneMap {
            min_txn: patch.txn_range.0,
            max_txn: patch.txn_range.1,
            affected_rows: 0,
            min_value: None,
            max_value: None,
        };
        let _ = l3.write_compacted(seg_id, col, version, &patch.format, &zone_map);
        proof {
            assert(wanted == frozen_version(min_txn, i as nat)) by {
                assert(((min_txn as int * 1000) % 0x1_0000_0000_0000_0000 + i)
                    % 0x1_0000_0000_0000_0000 == (min_txn as int * 1000 + i)
                    % 0x1_0000_0000_0000_0000);
            }
            assert(views.take(i + 1).drop_last() =~= views.take(i as int));
            assert(views.take(i + 1).last() == patch@);
        }
        i = i + 1;
    }
    assert(views.take(i as int) =~= views);
}

impl FlushEngine {
    /// Takes the cells of L1 for a flush: they stay readable until the flush
    /// ends. Gives the cells and the log entries that must be durable before
    /// any of the cells is written to L2.
    pub fn begin_flush(&self, stack: &mut DeltaLayerStack) -> (r: (Vec<DeltaCell>, Vec<WalAppend>))
        requires
            old(stack).wf(),
        ensures
            flush_begun(*old(stack), *final(stack)),
            cell_views(r.0@) == flush_cells(old(stack).l1@),
            if old(stack).l1.config().has_wal {
                logs_all(r.1@, old(stack).l1@.pending)
            } else {
                r.1@.len() == 0
            },
    {
        let ghost start = stack.l1@;
        let cells = stack.l1.drain_after_swap();
        stack.cache_recent_flush(&cells);
        let (_, appends) = stack.l1.sync_wal_before_flush();
        assert(drained(swapped(start)).pending == start.pending);
        assert(stack.l1@ =~= flush_taken(start));
        (cells, appends)
    }

    /// Flushes L1 to L2 when there is nothing to be logged first.
    pub fn flush_l1_to_l2(&self, stack: &mut DeltaLayerStack) -> (r: Result<usize, RockDuckError>)
        requires
            old(stack).wf(),
            !must_log(*old(stack)),
        ensures
            flushed(*old(stack), *final(stack), self.sparsity_selector, r),
            fits_patches(flush_cells(old(stack).l1@)) ==> r is Ok,
    {
        let (cells, _) = self.begin_flush(stack);
        let ghost mid = *stack;
        let r = self.finish_flush(stack, cells);
        assert(flush_begun(*old(stack), mid));
        r
    }

    /// Flushes L1 to L2 when L1 is above its threshold.
    pub fn try_flush(&self, stack: &mut DeltaLayerStack) -> (r: Result<Option<usize>, RockDuckError>)
        requires
            old(stack).wf(),
            !must_log(*old(stack)),
        ensures
            if old(stack).l1@.size > old(stack).l1.config().flush_threshold {
                match r {
                    Ok(Some(n)) => flushed(
                        *old(stack),
                        *final(stack),
                        self.sparsity_selector,
                        Ok(n),
                    ),
                    Ok(None) => false,
                    Err(e) => flushed(*old(stack), *final(stack), self.sparsity_selector, Err(e)),
                }
            } else {
                r == Ok::<Option<usize>, RockDuckError>(None) && *final(stack) == *old(stack)
            },
            fits_patches(flush_cells(old(stack).l1@)) ==> r is Ok,
    {
        if stack.l1.should_flush() {
            match self.flush_l1_to_l2(stack) {
                Ok(n) => Ok(Some(n)),
                Err(e) => Err(e),
            }
        } else {
            Ok(None)
        }
    }

    /// Moves the four oldest guards of a segment from L2 to L3.
    pub fn compact_l2_to_l3(&self, stack: &mut DeltaLayerStack, seg_id: &str) -> (r: Result<
        (),
        RockDuckError,
    >)
        requires
            old(stack).wf(),
        ensures
            only_descended(*old(stack), *final(stack)),
            exists|order: Seq<usize>| #[trigger]
                compacted(*old(stack), *final(stack), seg_id@, order, r),
    {
        let candidates = stack.l2.guards_by_seg(seg_id);
        let ghost f = |e: (GuardKey, u64)| (e.0@, e.1);
        let ghost guards = guards_of(stack.l2.guard_list(), seg_id@);
        let mut txns: Vec<u64> = Vec::new();
        let mut k: usize = 0;
        while k < candidates.len()
            invariant
                k <= candidates@.len(),
                txns@.len() == k,
                forall|i: int| #![trigger txns@[i]] 0 <= i < k ==> txns@[i] == candidates@[i].1,
            decreases candidates@.len() - k,
        {
            txns.push(candidates[k].1);
            k = k + 1;
        }
        let order = stable_order(&txns);
        let ghost start = *stack;
        let ghost first = Descent { l2: start.l2@, l3: start.l3@, moved: 0, fault: None };
        let ghost chosen = oldest_four(guards, order@);
        proof {
            assert(candidates@.map_values(f) == guards);
            assert(key_views(txns@) =~= least_txns(guards));
            assert(chosen.take(0) =~= Seq::empty());
        }
        let mut moved: usize = 0;
        let mut i: usize = 0;
        while i < order.len() && i < 4
            invariant
                i <= chosen.len(),
                chosen == oldest_four(guards, order@),
                is_stable_order::<u64>(order@, least_txns(guards)),
                candidates@.map_values(f) == guards,
                f == (|e: (GuardKey, u64)| (e.0@, e.1)),
                guards == guards_of(start.l2.guard_list(), seg_id@),
                first == (Descent { l2: start.l2@, l3: start.l3@, moved: 0, fault: None }),
                start == *old(stack),
                only_descended(start, *stack),
                stack@ == start@,
                ({
                    let d = guards_moved(first, start.l3.root(), seg_id@, chosen.take(i as int));
                    &&& d.fault is None
                    &&& d.l2 == stack.l2@
                    &&& d.l3 == stack.l3@
                    &&& d.moved == moved
                }),
            decreases order@.len() - i,
        {
            proof {
                assert(chosen.take(i + 1).drop_last() =~= chosen.take(i as int));
                assert(chosen[i as int] == guards[order@[i as int] as int]);
                assert(guards[order@[i as int] as int] == f(candidates@[order@[i as int] as int]));
            }
            let candidate: &(GuardKey, u64) = &candidates[order[i]];
            let patches = match stack.l2.read_all_patches_from_guard(&candidate.0) {
                Ok(p) => p,
                Err(e) => {
                    proof {
                        lemma_fault_stays(first, start.l3.root(), seg_id@, chosen, i + 1);
                        assert(compacted(start, *stack, seg_id@, order@, Err(e)));
                    }
                    return Err(e);
                },
            };
            if patches.len() > 0 {
                freeze_patches(
                    &mut stack.l3,
                    seg_id,
                    candidate.0.col.as_str(),
                    candidate.1,
                    &patches,
                );
                stack.l2.delete_guard_file(&candidate.0);
                moved = moved.wrapping_add(patches.len());
            }
            i = i + 1;
        }
        assert(chosen.take(i as int) =~= chosen);
        stack.record_l2_to_l3_compaction(moved);
        assert(compacted(start, *stack, seg_id@, order@, Ok(())));
        Ok(())
    }
}

/// What the profile shows under a load: reads are amplified by two to five
/// times, writes fivefold.
pub open spec fn observed_profile(load: u64) -> WorkloadProfile {
    WorkloadProfile {
        read_amp: (200_000 + 3 * load) as u64,
        write_amp: 500_000,
        p99_latency_ms: 0,
        queries_per_second: 0,
        fg_io_mbps: (100 * load) as u64,
    }
}

/// `d` merges the first overloaded guard of L2.
pub open spec fn merges_guard(d: CompactionDecision, stack: DeltaLayerStack, key: GuardKeyView) -> bool {
    &&& d.fits()
    &&& d.action matches CompactionAction::GuardMerge { guard_key } && guard_key@ == key
    &&& d.expected_benefit == (Fraction { num: stack.l2.guard_list().len() as i128, den: 10 })
    &&& d.concurrency == 1
}

/// What a compaction from L2 to L3 is expected to gain.
pub open spec fn descent_gain() -> Fraction {
    gain_of(10, 1)
}

/// `d` compacts a segment from L2 to L3.
pub open spec fn moves_segment(d: CompactionDecision, seg_id: Seq<char>) -> bool {
    &&& d.fits()
    &&& d.action matches CompactionAction::L2ToL3 { seg_id: s } && s@ == seg_id
    &&& d.expected_benefit == descent_gain()
    &&& d.concurrency == 2
}

/// The guard that is due for a merge.
pub open spec fn due_guard(stack: DeltaLayerStack) -> Option<GuardKeyView> {
    first_overloaded(stack.l2.guard_list(), stack.l2.threshold())
}

/// The choice of a guard merge: the first overloaded guard.
pub open spec fn selects_merge(d: Option<CompactionDecision>, stack: DeltaLayerStack) -> bool {
    match due_guard(stack) {
        Some(k) => d matches Some(d) && merges_guard(d, stack, k),
        None => d is None,
    }
}

/// The choice of a compaction from L2 to L3: the segment of the first
/// overloaded guard, when that is expected to gain something and the foreground
/// leaves more than half of the bandwidth.
pub open spec fn selects_descent(
    d: Option<CompactionDecision>,
    stack: DeltaLayerStack,
    load: u64,
) -> bool {
    match due_guard(stack) {
        Some(k) => if spares(load, Ratio { num: 1, den: 2 }) && descent_gain().num > 0 {
            d matches Some(d) && moves_segment(d, k.seg_id)
        } else {
            d is None
        },
        None => d is None,
    }
}

/// The choice of a compaction: a guard merge under tiering and lazy leveling,
/// L2 to L3 under leveling, and by heat the first of the two that is due.
pub open spec fn selects(
    d: Option<CompactionDecision>,
    stack: DeltaLayerStack,
    policy: CompactionPolicy,
    load: u64,
) -> bool {
    match policy {
        CompactionPolicy::Tiering | CompactionPolicy::LazyLeveling => selects_merge(d, stack),
        CompactionPolicy::Leveling => selects_descent(d, stack, load),
        CompactionPolicy::HotCold => if due_guard(stack) is Some {
            selects_merge(d, stack)
        } else {
            selects_descent(d, stack, load)
        },
    }
}

/// How a decision was carried out. `Ok(true)` says that a flush ended.
pub open spec fn executed(
    before: DeltaLayerStack,
    after: DeltaLayerStack,
    decision: CompactionDecision,
    selector: SparsitySelector,
    r: Result<bool, RockDuckError>,
) -> bool {
    match (decision.maintenance.action, decision.action) {
        (RewriteAction::FlushL1ToL2, _) => match r {
            Ok(ended) => ended && exists|n: usize| #[trigger]
                flushed(before, after, selector, Ok(n)),
            Err(e) => flushed(before, after, selector, Err(e)),
        },
        (RewriteAction::GuardMerge, CompactionAction::GuardMerge { guard_key }) => {
            &&& only_l2_written(before, after)
            &&& after@ == before@
            &&& match r {
                Ok(ended) => !ended && guard_merged(
                    before.l2@,
                    after.l2@,
                    before.l2.root(),
                    guard_key@,
                    Ok(()),
                ),
                Err(e) => guard_merged(
                    before.l2@,
                    after.l2@,
                    before.l2.root(),
                    guard_key@,
                    Err(e),
                ),
            }
        },
        (RewriteAction::CompactL2ToL3, CompactionAction::L2ToL3 { seg_id }) => {
            &&& only_descended(before, after)
            &&& match r {
                Ok(ended) => !ended && exists|order: Seq<usize>| #[trigger]
                    compacted(before, after, seg_id@, order, Ok(())),
                Err(e) => exists|order: Seq<usize>| #[trigger]
                    compacted(before, after, seg_id@, order, Err(e)),
            }
        },
        _ => r == Ok::<bool, RockDuckError>(false) && after == before,
    }
}

impl FlushEngine {
    /// An engine that runs when it is called.
    pub fn new(compaction_threshold: usize) -> (r: Self)
        ensures
            r.fg_monitor.samples() == Seq::<u64>::empty(),
            r.fg_monitor.reserved() == (Ratio { num: 3, den: 10 }),
            r.fg_monitor.outstanding() == 0,
            r.ecotune == (EcoTuneSelector {
                profile: blank_profile(),
                policy: CompactionPolicy::HotCold,
            }),
            r.compaction_threshold == compaction_threshold as u32,
            !r.shutdown,
            r.sparsity_selector == (SparsitySelector {
                threshold: Ratio { num: 1, den: 100 },
                dense_force_rows: 1_000_000,
            }),
            !r.async_enabled,
            r.tick_interval_ms == 500,
            r.min_flush_interval_ms == 100,
    {
        #[verifier::truncate]
        let threshold: u32 = compaction_threshold as u32;
        FlushEngine {
            fg_monitor: ForegroundMonitor::default(),
            ecotune: EcoTuneSelector::new(),
            compaction_threshold: threshold,
            shutdown: false,
            sparsity_selector: SparsitySelector::new(),
            async_enabled: false,
            tick_interval_ms: 500,
            min_flush_interval_ms: 100,
        }
    }

    /// Sets whether the engine runs in the background, and how often.
    pub fn with_async(self, async_enabled: bool, tick_interval_ms: u64) -> (r: Self)
        ensures
            r == (FlushEngine { async_enabled, tick_interval_ms, ..self }),
    {
        let mut r = self;
        r.async_enabled = async_enabled;
        r.tick_interval_ms = tick_interval_ms;
        r
    }

    /// Sets a fresh foreground monitor.
    pub fn with_fg_monitor(self, interval_ms: u64, reserved_ratio: Ratio) -> (r: Self)
        ensures
            r == (FlushEngine { fg_monitor: r.fg_monitor, ..self }),
            r.fg_monitor.samples() == Seq::<u64>::empty(),
            r.fg_monitor.interval() == interval_ms,
            r.fg_monitor.reserved() == reserved_ratio,
            r.fg_monitor.outstanding() == 0,
    {
        let mut r = self;
        r.fg_monitor = ForegroundMonitor::new(interval_ms, reserved_ratio);
        r
    }

    /// Sets the number of patches from which a guard is merged.
    pub fn set_compaction_threshold(&mut self, threshold: u32)
        ensures
            *final(self) == (FlushEngine { compaction_threshold: threshold, ..*old(self) }),
    {
        self.compaction_threshold = threshold;
    }

    /// The number of patches from which a guard is merged.
    pub fn compaction_threshold(&self) -> (r: u32)
        ensures
            r == self.compaction_threshold,
    {
        self.compaction_threshold
    }

    /// Tells the scheduler to stop.
    pub fn stop(&mut self)
        ensures
            *final(self) == (FlushEngine { shutdown: true, ..*old(self) }),
    {
        self.shutdown = true;
    }

    /// Takes in the bytes that the foreground scanned since the last tick, of
    /// which there are two in a second.
    pub fn poll_outstanding_io(&mut self, bytes: u64)
        ensures
            *final(self) == (FlushEngine { fg_monitor: final(self).fg_monitor, ..*old(self) }),
            final(self).fg_monitor.samples() == old(self).fg_monitor.samples(),
            final(self).fg_monitor.interval() == old(self).fg_monitor.interval(),
            final(self).fg_monitor.reserved() == old(self).fg_monitor.reserved(),
            final(self).fg_monitor.outstanding() == if bytes > 0 {
                ((bytes * 2) % 0x1_0000_0000_0000_0000) as u64
            } else {
                old(self).fg_monitor.outstanding()
            },
    {
        if bytes > 0 {
            self.fg_monitor.set_outstanding_io(bytes.wrapping_mul(2));
        }
    }

    /// Whether L1 is to be flushed now: the foreground load is below 70
    /// percent, L1 is above its threshold, and the last flush is long enough ago.
    pub fn check_p0_flush(&self, stack: &DeltaLayerStack, since_flush_ms: u64) -> (r: Option<
        CompactionDecision,
    >)
        ensures
            (r is Some) == (load_of(self.fg_monitor.samples()) < 70_000 && stack.l1@.size
                > stack.l1.config().flush_threshold && since_flush_ms >= self.min_flush_interval_ms),
            r matches Some(d) ==> d.fits() && d.action is L1Flush && d.expected_benefit == (
            Fraction { num: stack.l1@.size as i128, den: 2 }) && d.concurrency == 1,
    {
        if self.fg_monitor.current_load() >= 70_000 {
            return None;
        }
        if !stack.l1.should_flush() {
            return None;
        }
        if since_flush_ms < self.min_flush_interval_ms {
            return None;
        }
        let benefit = Fraction { num: stack.l1.size_bytes() as i128, den: 2 };
        Some(CompactionDecision::new(CompactionAction::L1Flush, benefit, 1))
    }

    /// The compaction that the policy asks for.
    pub fn select_compaction(&self, stack: &DeltaLayerStack) -> (r: Option<CompactionDecision>)
        requires
            stack.wf(),
        ensures
            selects(r, *stack, self.ecotune.policy, load_of(self.fg_monitor.samples())),
    {
        match self.ecotune.policy() {
            CompactionPolicy::Tiering | CompactionPolicy::LazyLeveling => self.select_guard_merge(
                stack,
            ),
            CompactionPolicy::Leveling => self.select_l2_to_l3_compaction(stack),
            CompactionPolicy::HotCold => match self.select_guard_merge(stack) {
                Some(d) => Some(d),
                None => self.select_l2_to_l3_compaction(stack),
            },
        }
    }

    fn select_guard_merge(&self, stack: &DeltaLayerStack) -> (r: Option<CompactionDecision>)
        requires
            stack.wf(),
        ensures
            selects_merge(r, *stack),
    {
        match stack.l2.find_overloaded_guard() {
            None => None,
            Some(guard_key) => {
                let benefit = Fraction { num: stack.l2.num_entries() as i128, den: 10 };
                Some(CompactionDecision::new(CompactionAction::GuardMerge { guard_key }, benefit, 1))
            },
        }
    }

    fn select_l2_to_l3_compaction(&self, stack: &DeltaLayerStack) -> (r: Option<CompactionDecision>)
        ensures
            selects_descent(r, *stack, load_of(self.fg_monitor.samples())),
    {
        let benefit = self.ecotune.expected_return(10, 1);
        match stack.l2.find_overloaded_guard() {
            None => None,
            Some(guard_key) => if self.fg_monitor.spares_more_than(Ratio { num: 1, den: 2 })
                && benefit.num > 0 {
                Some(
                    CompactionDecision::new(
                        CompactionAction::L2ToL3 { seg_id: guard_key.seg_id },
                        benefit,
                        2,
                    ),
                )
            } else {
                None
            },
        }
    }

    /// Carries out a decision. A rewrite of another kind is none of the
    /// engine's and changes nothing. `Ok(true)` says that a flush ended.
    pub fn execute(&self, stack: &mut DeltaLayerStack, decision: &CompactionDecision) -> (r: Result<
        bool,
        RockDuckError,
    >)
        requires
            old(stack).wf(),
            decision.maintenance.action == RewriteAction::FlushL1ToL2 ==> !must_log(*old(stack)),
        ensures
            executed(*old(stack), *final(stack), *decision, self.sparsity_selector, r),
            decision.maintenance.action == RewriteAction::FlushL1ToL2 && fits_patches(
                flush_cells(old(stack).l1@),
            ) ==> r is Ok,
    {
        match decision.maintenance.action {
            RewriteAction::FlushL1ToL2 => match self.flush_l1_to_l2(stack) {
                Ok(n) => {
                    assert(flushed(*old(stack), *stack, self.sparsity_selector, Ok(n)));
                    Ok(true)
                },
                Err(e) => Err(e),
            },
            RewriteAction::GuardMerge => {
                if let CompactionAction::GuardMerge { guard_key } = &decision.action {
                    match stack.l2.schedule_guard_merge(guard_key) {
                        Ok(done) => {
                            assert(done == ());
                        },
                        Err(e) => return Err(e),
                    }
                }
                Ok(false)
            },
            RewriteAction::CompactL2ToL3 => {
                if let CompactionAction::L2ToL3 { seg_id } = &decision.action {
                    match self.compact_l2_to_l3(stack, seg_id.as_str()) {
                        Ok(done) => {
                            assert(done == ());
                        },
                        Err(e) => return Err(e),
                    }
                }
                Ok(false)
            },
            RewriteAction::MetadataEvidenceRefresh | RewriteAction::CheckpointPrivilege
            | RewriteAction::PdtMerge | RewriteAction::SmallFileMerge
            | RewriteAction::QueryDriven => Ok(false),
        }
    }

    /// Estimates the workload from the foreground load and chooses the policy
    /// for it.
    pub fn update_profile(&mut self)
        ensures
            *final(self) == (FlushEngine {
                ecotune: EcoTuneSelector {
                    profile: observed_profile(load_of(old(self).fg_monitor.samples())),
                    policy: policy_for(
                        observed_profile(load_of(old(self).fg_monitor.samples())),
                    ),
                },
                ..*old(self)
            }),
    {
        let load: u64 = self.fg_monitor.current_load();
        let mut profile = WorkloadProfile::new();
        profile.fg_io_mbps = load * 100;
        profile.read_amp = 200_000 + load * 3;
        profile.write_amp = 500_000;
        self.ecotune.update_profile(profile);
    }

    /// Takes in a foreground throughput sample.
    pub fn record_fg_load(&mut self, milli_mbps: u64)
        ensures
            *final(self) == (FlushEngine { fg_monitor: final(self).fg_monitor, ..*old(self) }),
            final(self).fg_monitor.interval() == old(self).fg_monitor.interval(),
            final(self).fg_monitor.reserved() == old(self).fg_monitor.reserved(),
            final(self).fg_monitor.outstanding() == old(self).fg_monitor.outstanding(),
            final(self).fg_monitor.samples() == if old(self).fg_monitor.samples().len() >= 64 {
                old(self).fg_monitor.samples().push(milli_mbps).drop_first()
            } else {
                old(self).fg_monitor.samples().push(milli_mbps)
            },
    {
        self.fg_monitor.record_sample(milli_mbps);
    }

    /// Selects a compaction and carries it out. There is none when the
    /// foreground load is too high.
    pub fn try_compact(&self, stack: &mut DeltaLayerStack) -> (r: Result<
        Option<CompactionDecision>,
        RockDuckError,
    >)
        requires
            old(stack).wf(),
        ensures
            ({
                let load = load_of(self.fg_monitor.samples());
                let policy = self.ecotune.policy;
                if spares(load, self.fg_monitor.reserved()) {
                    match r {
                        Ok(Some(d)) => selects(Some(d), *old(stack), policy, load) && executed(
                            *old(stack),
                            *final(stack),
                            d,
                            self.sparsity_selector,
                            Ok(false),
                        ),
                        Ok(None) => selects(None, *old(stack), policy, load) && *final(stack)
                            == *old(stack),
                        Err(e) => exists|d: CompactionDecision| #[trigger]
                            selects(Some(d), *old(stack), policy, load) && executed(
                                *old(stack),
                                *final(stack),
                                d,
                                self.sparsity_selector,
                                Err(e),
                            ),
                    }
                } else {
                    r == Ok::<Option<CompactionDecision>, RockDuckError>(None) && *final(stack)
                        == *old(stack)
                }
            }),
    {
        if !self.fg_monitor.can_run_background() {
            return Ok(None);
        }
        match self.select_compaction(stack) {
            None => Ok(None),
            Some(decision) => match self.execute(stack, &decision) {
                Ok(_) => Ok(Some(decision)),
                Err(e) => {
                    assert(selects(
                        Some(decision),
                        *old(stack),
                        self.ecotune.policy,
                        load_of(self.fg_monitor.samples()),
                    ));
                    Err(e)
                },
            },
        }
    }

    /// The foreground monitor.
    pub fn fg_monitor(&self) -> (r: &ForegroundMonitor)
        ensures
            *r == self.fg_monitor,
    {
        &self.fg_monitor
    }

    /// The policy selector.
    pub fn ecotune(&self) -> (r: &EcoTuneSelector)
        ensures
            *r == self.ecotune,
    {
        &self.ecotune
    }
}

/// The rows of a patch are those of its cells, and a sparse one lists them in its bitmap.
pub proof fn lemma_patch_rows(
    patch: DeltaPatch,
    cells: Seq<CellView>,
    selector: SparsitySelector,
    rows: Seq<u64>,
    values: Seq<Option<Seq<u8>>>,
)
    requires
        is_patch_of(patch, cells, selector, rows, values),
        cells.len() > 0,
    ensures
        rows.len() > 0,
        forall|a: int|
            #![trigger rows[a]]
            0 <= a < rows.len() ==> rows[a] <= rows.last() && rows[a] <= u32::MAX && short_rows(rows)[a]
                == rows[a],
        patch.format@ is Sparse ==> lists(short_rows(rows), short_rows(rows).to_set()),
        patch.format@ is Sparse ==> listing(short_rows(rows).to_set()) == short_rows(rows),
        patch.format@ is Dense ==> row_span(rows) == rows.last() + 1,
{
    let short = short_rows(rows);
    assert(rows.contains(cells[0].row_offset));
    assert forall|a: int| #![trigger rows[a]] 0 <= a < rows.len() implies rows[a] <= rows.last() && rows[a]
        <= u32::MAX && short[a] == rows[a] by {
        if a < rows.len() - 1 {
            assert(rows[a] < rows[rows.len() - 1]);
        }
    }
    if patch.format@ is Sparse {
        assert forall|a: int, b: int| #![auto] 0 <= a < b < short.len() implies short[a] < short[b] by {
            assert(rows[a] < rows[b]);
        }
        lemma_listing(short, short.to_set());
    }
}

/// Rows in ascending order are found at their places.
pub proof fn lemma_row_place(rows: Seq<u64>, a: int)
    requires
        forall|x: int, y: int| #![auto] 0 <= x < y < rows.len() ==> rows[x] < rows[y],
        0 <= a < rows.len(),
    ensures
        rows.contains(rows[a]),
        rows.index_of(rows[a]) == a,
{
    let k = rows.index_of(rows[a]);
    assert(rows[k] == rows[a]);
    if k < a {
        assert(rows[k] < rows[a]);
    } else if a < k {
        assert(rows[a] < rows[k]);
    }
}

/// What a patch has for a row: the value that it was given for it, and for a row that it
/// was not given nothing.
pub proof fn lemma_patch_value(
    patch: DeltaPatch,
    cells: Seq<CellView>,
    selector: SparsitySelector,
    rows: Seq<u64>,
    values: Seq<Option<Seq<u8>>>,
    row: u64,
)
    requires
        is_patch_of(patch, cells, selector, rows, values),
        cells.len() > 0,
    ensures
        rows.contains(row) ==> patch_value(patch.format@, row) == Ok::<Option<Seq<u8>>, RockDuckError>(
            values[rows.index_of(row)],
        ),
        !rows.contains(row) ==> patch_value(patch.format@, row) == Ok::<Option<Seq<u8>>, RockDuckError>(
            None,
        ),
{
    lemma_patch_rows(patch, cells, selector, rows, values);
    let short = short_rows(rows);
    if rows.contains(row) {
        let a = rows.index_of(row);
        assert(rows[a] == row);
        lemma_row_place(rows, a);
        assert(has_winner(cells, rows[a]));
        let w = choose|w: int| #[trigger] wins_row(cells, w) && cells[w].row_offset == rows[a];
        assert(values[a] == Some(image_bytes(cells[w].after)));
        assert(short[a] == row);
        assert(short.contains(row as u32));
        let k = short.index_of(row as u32);
        assert(short[k] == short[a]);
        assert(rows[k] == rows[a]);
        if k < a {
            assert(rows[k] < rows[a]);
        } else if a < k {
            assert(rows[a] < rows[k]);
        }
    } else if patch.format@ is Sparse && row <= u32::MAX && short.contains(row as u32) {
        let b = choose|b: int| 0 <= b < short.len() && short[b] == row as u32;
        assert(rows[b] == row);
    }
}

/// A patch of some cells gives back, for each row, the after-image of the cell that wins
/// it, and for no other row anything.
pub proof fn law_patch_gives_back_its_cells(
    patch: DeltaPatch,
    cells: Seq<CellView>,
    selector: SparsitySelector,
    i: int,
    row: u64,
)
    requires
        makes_patch(patch, cells, selector),
        wins_row(cells, i),
    ensures
        patch_value(patch.format@, cells[i].row_offset) == Ok::<Option<Seq<u8>>, RockDuckError>(
            Some(image_bytes(cells[i].after)),
        ),
        (forall|j: int|
            #![trigger cells[j]]
            0 <= j < cells.len() ==> cells[j].row_offset != row) ==> patch_value(patch.format@, row)
            == Ok::<Option<Seq<u8>>, RockDuckError>(None),
{
    let (rows, values) = choose|rows: Seq<u64>, values: Seq<Option<Seq<u8>>>| #[trigger]
        is_patch_of(patch, cells, selector, rows, values);
    let at = cells[i].row_offset;
    assert(rows.contains(at));
    let a = rows.index_of(at);
    assert(rows[a] == at);
    assert(values[a] == Some(image_bytes(cells[i].after)));
    lemma_patch_value(patch, cells, selector, rows, values, at);
    lemma_patch_value(patch, cells, selector, rows, values, row);
    if rows.contains(row) {
        let b = rows.index_of(row);
        assert(rows[b] == row);
        assert(has_winner(cells, rows[b]));
        let w = choose|w: int| #[trigger] wins_row(cells, w) && cells[w].row_offset == rows[b];
        assert(cells[w].row_offset == row);
    }
}

/// While a flush is under way, every cell that it took out of L1 can be found by
/// its segment, column and row, or a later one of the same place.
pub proof fn law_flush_keeps_cells_readable(before: DeltaLayerStack, mid: DeltaLayerStack, i: int)
    requires
        flush_begun(before, mid),
        0 <= i < flush_cells(before.l1@).len(),
    ensures
        ({
            let cells = flush_cells(before.l1@);
            let key = cell_key(cells[i]);
            &&& mid@.recent.dom().contains(key)
            &&& exists|j: int|
                i <= j < cells.len() && cell_key(#[trigger] cells[j]) == key && mid@.recent[key]
                    == cells[j]
        }),
{
    lemma_by_identity(flush_cells(before.l1@), i);
}

proof fn lemma_by_identity(cells: Seq<CellView>, i: int)
    requires
        0 <= i < cells.len(),
    ensures
        by_identity(cells).dom().contains(cell_key(cells[i])),
        exists|j: int|
            i <= j < cells.len() && cell_key(#[trigger] cells[j]) == cell_key(cells[i]) && by_identity(
                cells,
            )[cell_key(cells[i])] == cells[j],
    decreases cells.len(),
{
    let front = cells.drop_last();
    let last = cells.len() - 1;
    if cell_key(cells[last]) == cell_key(cells[i]) {
        assert(cells[last] == cells.last());
    } else {
        lemma_by_identity(front, i);
        let j = choose|j: int|
            i <= j < front.len() && cell_key(#[trigger] front[j]) == cell_key(front[i])
                && by_identity(front)[cell_key(front[i])] == front[j];
        assert(cells[j] == front[j]);
    }
}

/// A flush without cells writes nothing, and still ends.
pub proof fn law_empty_flush_writes_nothing(
    before: DeltaLayerStack,
    after: DeltaLayerStack,
    selector: SparsitySelector,
    r: Result<usize, RockDuckError>,
)
    requires
        flush_written(before, after, Seq::empty(), selector, r),
    ensures
        r == Ok::<usize, RockDuckError>(0),
        after.l2@ == before.l2@,
        after@ == flush_ended(before@),
{
    let none = Seq::<CellView>::empty();
    let (keys, patches) = choose|keys: Seq<(Seq<char>, Seq<char>)>, patches: Seq<DeltaPatch>|
        #[trigger] columns_written(before, after, none, selector, keys, patches, r);
    if keys.len() > 0 {
        assert(group_of(none, keys[0]).len() > 0);
    }
}

/// The engine compacts from L2 to L3 only when it is told to: what it expects to
/// gain by it is negative.
pub proof fn law_descent_is_never_selected(
    d: Option<CompactionDecision>,
    stack: DeltaLayerStack,
    load: u64,
)
    requires
        selects_descent(d, stack, load),
    ensures
        d is None,
{
}

/// No compaction is selected while no guard is overloaded, whatever the policy.
pub proof fn law_nothing_due_selects_nothing(
    d: Option<CompactionDecision>,
    stack: DeltaLayerStack,
    policy: CompactionPolicy,
    load: u64,
)
    requires
        due_guard(stack) is None,
        selects(d, stack, policy, load),
    ensures
        d is None,
{
}

/// The error that ended a descent is not lost.
proof fn lemma_fault_stays(
    m: Descent,
    root: Seq<char>,
    seg_id: Seq<char>,
    guards: Seq<(GuardKeyView, u64)>,
    n: int,
)
    requires
        0 <= n <= guards.len(),
        guards_moved(m, root, seg_id, guards.take(n)).fault is Some,
    ensures
        guards_moved(m, root, seg_id, guards) == guards_moved(m, root, seg_id, guards.take(n)),
    decreases guards.len() - n,
{
    if n < guards.len() {
        assert(guards.take(n + 1).drop_last() =~= guards.take(n));
        lemma_fault_stays(m, root, seg_id, guards, n + 1);
    } else {
        assert(guards.take(n) =~= guards);
    }
}

/// How many bytes the after-images of some cells have together.
pub open spec fn images_size(cells: Seq<CellView>) -> nat
    decreases cells.len(),
{
    if cells.len() == 0 {
        0
    } else {
        images_size(cells.drop_last()) + image_bytes(cells.last().after).len()
    }
}

/// Cells of which patches can be made: their after-images together can be addressed in one
/// column, and every row can be held.
pub open spec fn fits_patches(cells: Seq<CellView>) -> bool {
    &&& images_size(cells) <= i32::MAX
    &&& forall|i: int|
        #![trigger cells[i]]
        0 <= i < cells.len() ==> cells[i].row_offset < MAX_DENSE_ROWS
}

/// The sizes of the after-images of some cells, by place.
spec fn image_sizes(cells: Seq<CellView>) -> Map<int, nat> {
    vstd::set_lib::set_int_range(0, cells.len() as int).mk_map(
        |i: int| image_bytes(cells[i].after).len(),
    )
}

/// A size as a number.
spec fn size_of_image() -> spec_fn(nat) -> int {
    |n: nat| n as int
}

proof fn lemma_images_listed(cells: Seq<CellView>, keys: Seq<int>, n: int)
    requires
        0 <= n <= cells.len(),
        keys == Seq::new(cells.len(), |i: int| i),
    ensures
        listed_sum(image_sizes(cells), keys.take(n), size_of_image()) == images_size(cells.take(n)),
    decreases n,
{
    if n > 0 {
        lemma_images_listed(cells, keys, n - 1);
        assert(keys.take(n).drop_last() =~= keys.take(n - 1));
        assert(cells.take(n).drop_last() =~= cells.take(n - 1));
        assert(keys.take(n).last() == n - 1);
        assert(image_sizes(cells).dom().contains(n - 1));
    } else {
        assert(keys.take(0) =~= Seq::empty());
        assert(cells.take(0) =~= Seq::empty());
    }
}

proof fn lemma_images_sum(cells: Seq<CellView>)
    ensures
        image_sizes(cells).dom().finite(),
        map_sum(image_sizes(cells), size_of_image()) == images_size(cells),
{
    let keys = Seq::new(cells.len(), |i: int| i);
    let m = image_sizes(cells);
    vstd::set_lib::lemma_int_range(0, cells.len() as int);
    assert forall|k: int| #[trigger] m.dom().contains(k) <==> keys.contains(k) by {
        if m.dom().contains(k) {
            assert(keys[k] == k);
        }
    }
    lemma_sum_listed(m, keys, size_of_image());
    lemma_images_listed(cells, keys, cells.len() as int);
    assert(keys.take(cells.len() as int) =~= keys);
    assert(cells.take(cells.len() as int) =~= cells);
}

proof fn lemma_values_listed(
    cells: Seq<CellView>,
    values: Seq<Option<Seq<u8>>>,
    winners: Seq<int>,
    n: int,
)
    requires
        0 <= n <= values.len() == winners.len(),
        forall|a: int|
            #![trigger winners[a]]
            0 <= a < winners.len() ==> 0 <= winners[a] < cells.len() && values[a] == Some(
                image_bytes(cells[winners[a]].after),
            ),
    ensures
        listed_sum(image_sizes(cells), winners.take(n), size_of_image()) == cells_size(values.take(n)),
    decreases n,
{
    if n > 0 {
        lemma_values_listed(cells, values, winners, n - 1);
        assert(winners.take(n).drop_last() =~= winners.take(n - 1));
        assert(values.take(n).drop_last() =~= values.take(n - 1));
        let w = winners[n - 1];
        assert(winners.take(n).last() == w);
        assert(values.take(n).last() == Some(image_bytes(cells[w].after)));
        assert(image_sizes(cells).dom().contains(w));
    } else {
        assert(winners.take(0) =~= Seq::empty());
        assert(values.take(0) =~= Seq::empty());
    }
}

/// The values of a patch are not larger than the after-images of its cells.
proof fn lemma_values_fit(cells: Seq<CellView>, rows: Seq<u64>, values: Seq<Option<Seq<u8>>>)
    requires
        lists_rows(rows, cells),
        lists_values(values, rows, cells),
    ensures
        cells_size(values) <= images_size(cells),
{
    let m = image_sizes(cells);
    let winners = Seq::new(
        rows.len(),
        |a: int| choose|w: int| #[trigger] wins_row(cells, w) && cells[w].row_offset == rows[a],
    );
    assert forall|a: int| #![trigger winners[a]] 0 <= a < winners.len() implies wins_row(cells, winners[a])
        && cells[winners[a]].row_offset == rows[a] && values[a] == Some(
        image_bytes(cells[winners[a]].after),
    ) by {
        assert(has_winner(cells, rows[a]));
        let w = choose|w: int| #[trigger] wins_row(cells, w) && cells[w].row_offset == rows[a];
        assert(winners[a] == w);
        assert(values[a] == Some(image_bytes(cells[w].after)));
    }
    assert(winners.no_duplicates()) by {
        assert forall|a: int, b: int|
            0 <= a < winners.len() && 0 <= b < winners.len() && a != b implies winners[a] != winners[b] by {
            if a < b {
                assert(rows[a] < rows[b]);
            } else {
                assert(rows[b] < rows[a]);
            }
        }
    }
    lemma_images_sum(cells);
    assert forall|k: int| #[trigger] winners.contains(k) implies m.dom().contains(k) by {
        let a = choose|a: int| 0 <= a < winners.len() && winners[a] == k;
        assert(wins_row(cells, winners[a]));
    }
    lemma_sum_bounds(m, winners, size_of_image());
    lemma_values_listed(cells, values, winners, values.len() as int);
    assert(winners.take(values.len() as int) =~= winners);
    assert(values.take(values.len() as int) =~= values);
}

/// Cells that fit make a patch.
pub proof fn law_small_cells_make_a_patch(
    cells: Seq<CellView>,
    selector: SparsitySelector,
    e: RockDuckError,
)
    requires
        cells.len() > 0,
        fits_patches(cells),
    ensures
        !patch_fails(cells, selector, e),
{
    if patch_fails(cells, selector, e) {
        let (rows, values) = choose|rows: Seq<u64>, values: Seq<Option<Seq<u8>>>|
            lists_rows(rows, cells) && #[trigger] lists_values(values, rows, cells) && (too_wide(
                selector,
                rows,
            ) || cells_size(values) > i32::MAX) && e == RockDuckError::TooLarge;
        lemma_values_fit(cells, rows, values);
        assert(rows.contains(cells[0].row_offset));
        assert(has_winner(cells, rows[rows.len() - 1]));
        let w = choose|w: int| #[trigger]
            wins_row(cells, w) && cells[w].row_offset == rows[rows.len() - 1];
        assert(cells[w].row_offset < MAX_DENSE_ROWS);
    }
}

proof fn lemma_group_size(cells: Seq<CellView>, key: (Seq<char>, Seq<char>))
    ensures
        images_size(group_of(cells, key)) <= images_size(cells),
        fits_patches(cells) ==> fits_patches(group_of(cells, key)),
    decreases cells.len(),
{
    if cells.len() > 0 {
        let front = cells.drop_last();
        lemma_group_size(front, key);
        let group = group_of(front, key);
        assert(group.push(cells.last()).drop_last() =~= group);
        if fits_patches(cells) {
            assert forall|i: int| #![trigger front[i]] 0 <= i < front.len() implies front[i].row_offset
                < MAX_DENSE_ROWS by {
                assert(front[i] == cells[i]);
            }
            assert(cells.last() == cells[cells.len() - 1]);
        }
    }
}

/// A flush of cells that fit writes a patch for every column, and ends.
pub proof fn law_small_flush_succeeds(
    before: DeltaLayerStack,
    after: DeltaLayerStack,
    cells: Seq<CellView>,
    selector: SparsitySelector,
    r: Result<usize, RockDuckError>,
)
    requires
        flush_written(before, after, cells, selector, r),
        fits_patches(cells),
    ensures
        r is Ok,
{
    let (keys, patches) = choose|keys: Seq<(Seq<char>, Seq<char>)>, patches: Seq<DeltaPatch>|
        #[trigger] columns_written(before, after, cells, selector, keys, patches, r);
    if let Err(e) = r {
        let key = keys[patches.len() as int];
        lemma_group_size(cells, key);
        law_small_cells_make_a_patch(group_of(cells, key), selector, e);
    }
}

} // verus!
