//! What a flush writes, what the layers below give back, and when background work is due.
use vstd::prelude::*;
use vstd::utf8::encode_utf8;
use std::collections::{HashMap, HashSet};
use crate::codec::{bytes_before, lemma_bytes_irreflexive, lemma_bytes_total, lemma_bytes_transitive};
use crate::error::RockDuckError;
use crate::ratio::{Fraction, Ratio};
use crate::storage::delta::config::SyncLevel;
use crate::storage::delta::disk_store::{column_guards, first_overloaded, gather, gather_batch, greater, guard_key_for, lesser, max_patch_id, zone_with, DeltaL2Disk, GuardView, GuardZoneView, PatchRefView};
use crate::storage::delta::flush_engine::{build_patch_from_cells, flush_cells, flush_taken, is_oldest, is_patch_of, law_patch_gives_back_its_cells, load_of, peak, spares, wins_row, CompactionAction, CompactionPolicy, EcoTuneSelector, FlushEngine, ForegroundMonitor, WorkloadProfile, WHOLE};
use crate::storage::delta::frozen_store::{frozen_gather, frozen_without, DeltaL3Frozen, FrozenKey, FrozenView};
use crate::storage::delta::mem_store::{batch_due, best_at, estimate_size, mem_key, put_done, write_ahead, DeltaMemStore, MemConfig, MemView};
use crate::storage::delta::patch_file::patch_value;
use crate::storage::delta::sparsity::SparsitySelector;
use crate::storage::delta::stack::DeltaLayerStack;
use crate::storage::delta::types::{cell_views, CellView, DeltaCell, DeltaPatch, ZoneMap};
use crate::storage::delta::visibility::{lemma_column_guards, lemma_gathered};
use crate::write::WalAppend;

verus! {

/// The patch of some cells has, for a row, the new image of the cell of its latest
/// transaction; of several of that transaction, of the one listed first. A row that no cell
/// is of has no value.
pub proof fn law_patch_has_the_newest_images(
    cells: &Vec<DeltaCell>,
    selector: &SparsitySelector,
    patch: DeltaPatch,
    i: int,
    row: u64,
)
    requires
        call_ensures(build_patch_from_cells, (cells, selector), Ok(patch)),
        0 <= i < cells@.len(),
        forall|j: int|
            #![trigger cells@[j]]
            0 <= j < cells@.len() && j != i && cells@[j].row_offset == cells@[i].row_offset ==> cells@[j].txn_id
                < cells@[i].txn_id || cells@[j].txn_id == cells@[i].txn_id && j > i,
    ensures
        cells@[i].after matches Some(image) ==> patch_value(patch.format@, cells@[i].row_offset) == Ok::<
            Option<Seq<u8>>,
            RockDuckError,
        >(Some(image@)),
        cells@[i].after is None ==> patch_value(patch.format@, cells@[i].row_offset) == Ok::<
            Option<Seq<u8>>,
            RockDuckError,
        >(Some(Seq::<u8>::empty())),
        (forall|j: int| #![trigger cells@[j]] 0 <= j < cells@.len() ==> cells@[j].row_offset != row)
            ==> patch_value(patch.format@, row) == Ok::<Option<Seq<u8>>, RockDuckError>(None),
{
    let views = cell_views(cells@);
    assert forall|j: int| #![trigger views[j]] 0 <= j < views.len() implies views[j] == cells@[j]@ by {}
    assert(wins_row(views, i)) by {
        assert forall|j: int|
            #![trigger views[j]]
            0 <= j < views.len() && j != i && views[j].row_offset == views[i].row_offset implies if j < i {
            views[j].txn_id < views[i].txn_id
        } else {
            views[j].txn_id <= views[i].txn_id
        } by {
            let x = cells@[j];
        }
    }
    law_patch_gives_back_its_cells(patch, views, *selector, i, row);
    assert(views[i] == cells@[i]@);
    if forall|j: int| #![trigger cells@[j]] 0 <= j < cells@.len() ==> cells@[j].row_offset != row {
        assert forall|j: int| #![trigger views[j]] 0 <= j < views.len() implies views[j].row_offset != row by {
            let x = cells@[j];
        }
    }
}

/// A patch spans the transactions of its cells, is numbered by the last of them, and counts
/// its rows.
pub proof fn law_patch_spans_its_transactions(
    cells: &Vec<DeltaCell>,
    selector: &SparsitySelector,
    patch: DeltaPatch,
    i: int,
)
    requires
        call_ensures(build_patch_from_cells, (cells, selector), Ok(patch)),
        0 <= i < cells@.len(),
    ensures
        patch.txn_range.0 <= cells@[i].txn_id <= patch.txn_range.1,
        exists|j: int| #![trigger cells@[j]] 0 <= j < cells@.len() && cells@[j].txn_id == patch.txn_range.0,
        exists|j: int| #![trigger cells@[j]] 0 <= j < cells@.len() && cells@[j].txn_id == patch.txn_range.1,
        patch.patch_id == patch.txn_range.1,
        patch.zone_map.min_txn == patch.txn_range.0,
        patch.zone_map.max_txn == patch.txn_range.1,
{
    let views = cell_views(cells@);
    assert forall|j: int| #![trigger views[j]] 0 <= j < views.len() implies views[j] == cells@[j]@ by {}
    let (rows, values) = choose|rows: Seq<u64>, values: Seq<Option<Seq<u8>>>| #[trigger]
        is_patch_of(patch, views, *selector, rows, values);
    let a = choose|a: int|
        is_oldest(views, a) && patch.seg_id@ == views[a].seg_id && patch.column@ == views[a].column
            && patch.txn_range.0 == views[a].txn_id;
    assert(cells@[a].txn_id == patch.txn_range.0);
    let b = choose|b: int| #![trigger views[b]] 0 <= b < views.len() && views[b].txn_id == patch.txn_range.1;
    assert(cells@[b].txn_id == patch.txn_range.1);
    assert(views[i] == cells@[i]@);
}

/// What begins a flush takes every cell of the memory layer, and leaves none to be logged.
pub proof fn law_flush_takes_every_cell(m: MemView, c: CellView)
    ensures
        flush_cells(m).contains(c) <==> m.cold_cells.contains(c) || m.hot_cells.contains(c),
        flush_taken(m).pending.len() == 0,
        flush_taken(m).cold_cells.len() == 0,
        flush_taken(m).size == 0,
{
    let all = flush_cells(m);
    if all.contains(c) {
        let i = all.index_of(c);
        assert(all[i] == c);
        if i < m.cold_cells.len() {
            assert(m.cold_cells[i] == c);
        } else {
            assert(m.hot_cells[i - m.cold_cells.len()] == c);
        }
    }
    if m.cold_cells.contains(c) {
        let i = m.cold_cells.index_of(c);
        assert(all[i] == c);
    }
    if m.hot_cells.contains(c) {
        let i = m.hot_cells.index_of(c);
        assert(all[m.cold_cells.len() + i] == c);
    }
}

/// The load is the highest of the recent samples, and at most the whole.
pub proof fn law_load_is_the_highest_sample(monitor: &ForegroundMonitor, r: u64, i: int)
    requires
        call_ensures(ForegroundMonitor::current_load, (monitor,), r),
    ensures
        r <= 100_000,
        0 <= i < monitor.samples().len() && monitor.samples()[i] <= 100_000 ==> monitor.samples()[i] <= r,
        0 <= i < monitor.samples().len() && monitor.samples()[i] > 100_000 ==> r == 100_000,
        monitor.samples().len() == 0 ==> r == 0,
        0 < r < 100_000 ==> monitor.samples().contains(r),
{
    lemma_peak(monitor.samples(), i);
}

proof fn lemma_peak(s: Seq<u64>, i: int)
    ensures
        0 <= i < s.len() ==> s[i] <= peak(s),
        peak(s) == 0 || s.contains(peak(s)),
    decreases s.len(),
{
    if s.len() > 0 {
        let front = s.drop_last();
        let n = s.len() - 1;
        lemma_peak(front, i);
        if 0 <= i < n {
            assert(front[i] == s[i]);
        }
        if peak(s) == s.last() {
            assert(s[n] == peak(s));
        } else if front.contains(peak(front)) {
            let k = front.index_of(peak(front));
            assert(s[k] == peak(s));
        }
    }
}

/// Background work may run while more than the reserved part of the whole is free: without
/// load whenever less than the whole is reserved, at full load never, and under less load
/// rather than under more.
pub proof fn law_background_work_needs_room(load: u64, less: u64, part: Ratio)
    requires
        less <= load <= WHOLE,
        part.den > 0,
    ensures
        part.num < part.den ==> spares(0, part),
        !spares(WHOLE, part),
        spares(load, part) ==> spares(less, part),
        spares(load, part) <==> (100_000 - load) * part.den > part.num * 100_000,
{
    assert((WHOLE - 0) * part.den > part.num * WHOLE <== part.num < part.den) by (nonlinear_arith)
        requires
            WHOLE == 100_000,
    ;
    assert((WHOLE - WHOLE) * part.den == 0) by (nonlinear_arith);
    assert(part.num * WHOLE >= 0) by (nonlinear_arith);
    assert((WHOLE - less) * part.den >= (WHOLE - load) * part.den) by (nonlinear_arith)
        requires
            less <= load,
            part.den > 0,
    ;
}

/// The policy of a workload: many writes and few reads stay in tiers, slow and many reads
/// are leveled, many queries lazily, and anything else is parted by heat.
pub proof fn law_policies_follow_the_workload(p: &WorkloadProfile, r: CompactionPolicy)
    requires
        call_ensures(EcoTuneSelector::select_policy, (p,), r),
    ensures
        ({
            let writes = p.write_amp > 1_000_000 && p.read_amp < 200_000;
            let slow = p.read_amp > 500_000 && p.p99_latency_ms > 5_000_000;
            let many = p.queries_per_second > 100_000_000;
            &&& writes ==> r == CompactionPolicy::Tiering
            &&& !writes && slow ==> r == CompactionPolicy::Leveling
            &&& !writes && !slow && many ==> r == CompactionPolicy::LazyLeveling
            &&& !writes && !slow && !many ==> r == CompactionPolicy::HotCold
        }),
{
}

/// The expected return falls with the cost and with the rounds: it is 2.5 for each of five
/// and the given rounds, less a tenth of the cost.
pub proof fn law_return_falls_with_the_cost(s: &EcoTuneSelector, cost: u32, rounds: u32, r: Fraction)
    requires
        call_ensures(EcoTuneSelector::expected_return, (s, cost, rounds), r),
        cost <= 1_000_000,
        rounds <= 1_000_000,
    ensures
        r.den == 10 * (5 + rounds),
        r.num == 25 - cost * (5 + rounds),
{
    let n = cost * (5 + rounds);
    assert(0 <= n <= 1_000_000 * 1_000_005) by (nonlinear_arith)
        requires
            n == cost * (5 + rounds),
            0 <= cost <= 1_000_000,
            0 <= rounds <= 1_000_000,
    ;
}

proof fn lemma_overloaded(guards: Seq<GuardView>, threshold: u32)
    ensures
        match first_overloaded(guards, threshold) {
            Some(k) => exists|i: int|
                #![trigger guards[i]]
                0 <= i < guards.len() && guards[i].key == k && guards[i].patch_count >= threshold && forall|j:
                    int| #![trigger guards[j]] 0 <= j < i ==> guards[j].patch_count < threshold,
            None => forall|j: int|
                #![trigger guards[j]]
                0 <= j < guards.len() ==> guards[j].patch_count < threshold,
        },
    decreases guards.len(),
{
    if guards.len() > 0 {
        let front = guards.drop_last();
        let n = guards.len() - 1;
        lemma_overloaded(front, threshold);
        assert forall|j: int| #![trigger guards[j]] 0 <= j < n implies guards[j] == front[j] by {}
        match first_overloaded(front, threshold) {
            Some(k) => {
                let i = choose|i: int|
                    #![trigger front[i]]
                    0 <= i < front.len() && front[i].key == k && front[i].patch_count >= threshold && forall|j:
                        int| #![trigger front[j]] 0 <= j < i ==> front[j].patch_count < threshold;
                assert(guards[i].key == k);
                assert forall|j: int| #![trigger guards[j]] 0 <= j < i implies guards[j].patch_count < threshold by {
                    assert(front[j] == guards[j]);
                }
            },
            None => {
                assert forall|j: int| #![trigger guards[j]] 0 <= j < n implies guards[j].patch_count < threshold by {
                    assert(front[j] == guards[j]);
                }
                if guards[n].patch_count >= threshold {
                    assert(guards[n].key == guards.last().key);
                }
            },
        }
    }
}

/// The guard to be merged is the first with as many patches as the threshold; there is none
/// when every guard has fewer.
pub proof fn law_overloaded_guard_is_the_first(
    disk: &DeltaL2Disk,
    r: Option<crate::storage::delta::disk_store::GuardKey>,
)
    requires
        disk.wf(),
        call_ensures(DeltaL2Disk::find_overloaded_guard, (disk,), r),
    ensures
        match r {
            Some(k) => exists|i: int|
                #![trigger disk.guard_list()[i]]
                0 <= i < disk.guard_list().len() && disk.guard_list()[i].key == k@
                    && disk.guard_list()[i].patch_count >= disk.threshold() && forall|j: int|
                    #![trigger disk.guard_list()[j]]
                    0 <= j < i ==> disk.guard_list()[j].patch_count < disk.threshold(),
            None => forall|j: int|
                #![trigger disk.guard_list()[j]]
                0 <= j < disk.guard_list().len() ==> disk.guard_list()[j].patch_count < disk.threshold(),
        },
{
    lemma_overloaded(disk.guard_list(), disk.threshold());
}

/// Background work on the layers is a merge of a guard with as many patches as the
/// threshold, or nothing; under any policy but that of levels such a guard is merged.
pub proof fn law_full_guards_are_merged(
    engine: &FlushEngine,
    stack: &DeltaLayerStack,
    r: Option<crate::storage::delta::flush_engine::CompactionDecision>,
    i: int,
)
    requires
        stack.wf(),
        call_ensures(FlushEngine::select_compaction, (engine, stack), r),
    ensures
        r matches Some(d) ==> (d.action matches CompactionAction::GuardMerge { guard_key } && exists|k: int|
            #![trigger stack.l2.guard_list()[k]]
            0 <= k < stack.l2.guard_list().len() && stack.l2.guard_list()[k].key == guard_key@
                && stack.l2.guard_list()[k].patch_count >= stack.l2.threshold()),
        0 <= i < stack.l2.guard_list().len() && stack.l2.guard_list()[i].patch_count >= stack.l2.threshold()
            && engine.ecotune.policy != CompactionPolicy::Leveling ==> r is Some,
{
    let list = stack.l2.guard_list();
    lemma_overloaded(list, stack.l2.threshold());
    let load = load_of(engine.fg_monitor.samples());
    if engine.ecotune.policy == CompactionPolicy::Leveling {
        crate::storage::delta::flush_engine::law_descent_is_never_selected(r, *stack, load);
    }
    if 0 <= i < list.len() && list[i].patch_count >= stack.l2.threshold() {
        assert(first_overloaded(list, stack.l2.threshold()) is Some);
    }
}

/// The statistics of a guard with one patch more span the transactions and bound the values
/// of both, and count the patches and rows.
pub proof fn law_guard_statistics_cover_the_patch(z: GuardZoneView, p: ZoneMap, count: u64)
    requires
        p.min_txn > 0,
        p.max_txn > 0,
    ensures
        zone_with(z, p, count).min_txn <= p.min_txn,
        z.min_txn > 0 ==> zone_with(z, p, count).min_txn <= z.min_txn,
        zone_with(z, p, count).min_txn == p.min_txn || zone_with(z, p, count).min_txn == z.min_txn,
        zone_with(z, p, count).max_txn >= p.max_txn,
        zone_with(z, p, count).max_txn >= z.max_txn,
        zone_with(z, p, count).max_txn == p.max_txn || zone_with(z, p, count).max_txn == z.max_txn,
        zone_with(z, p, count).patch_count == count,
        z.total_affected + p.affected_rows <= u64::MAX ==> zone_with(z, p, count).total_affected
            == z.total_affected + p.affected_rows,
{
}

/// Of two bounds the lesser is one of them and not above either; the greater one of them and
/// not below either; a bound that is not known leaves the other.
pub proof fn law_bounds_are_the_lesser_and_the_greater(a: Seq<u8>, b: Seq<u8>)
    ensures
        lesser(Some(a), Some(b)) matches Some(m) && (m == a || m == b) && !bytes_before(a, m) && !bytes_before(
            b,
            m,
        ),
        greater(Some(a), Some(b)) matches Some(m) && (m == a || m == b) && !bytes_before(m, a) && !bytes_before(
            m,
            b,
        ),
        lesser(Some(a), None) == Some(a) && lesser(None, Some(a)) == Some(a),
        greater(Some(a), None) == Some(a) && greater(None, Some(a)) == Some(a),
{
    lemma_bytes_irreflexive(a);
    lemma_bytes_irreflexive(b);
    lemma_bytes_total(a, b);
    if bytes_before(a, b) && bytes_before(b, a) {
        lemma_bytes_transitive(a, b, a);
    }
}

/// Guards are of ten thousand rows each, from a multiple of ten thousand on.
pub proof fn law_guards_have_ten_thousand_rows(seg_id: Seq<char>, col: Seq<char>, row: u64)
    requires
        row <= u64::MAX - 10_000,
    ensures
        guard_key_for(seg_id, col, row).seg_id == seg_id,
        guard_key_for(seg_id, col, row).col == col,
        guard_key_for(seg_id, col, row).start_row % 10_000 == 0,
        guard_key_for(seg_id, col, row).end_row == guard_key_for(seg_id, col, row).start_row + 10_000,
        guard_key_for(seg_id, col, row).start_row <= row < guard_key_for(seg_id, col, row).end_row,
{
}

proof fn lemma_batch(
    guards: Seq<GuardView>,
    files: Map<Seq<char>, Seq<u8>>,
    seg_ids: Seq<String>,
    snapshot: u64,
    seg: Seq<char>,
)
    ensures
        gather_batch(guards, files, seg_ids, snapshot).dom().contains(seg) <==> exists|i: int|
            #![trigger seg_ids[i]]
            0 <= i < seg_ids.len() && seg_ids[i]@ == seg,
        (forall|i: int, j: int|
            #![trigger seg_ids[i], seg_ids[j]]
            0 <= i < j < seg_ids.len() ==> seg_ids[i]@ != seg_ids[j]@) && gather_batch(
            guards,
            files,
            seg_ids,
            snapshot,
        ).dom().contains(seg) ==> gather_batch(guards, files, seg_ids, snapshot)[seg] == gather(
            guards,
            files,
            seg,
            snapshot,
        ).0,
    decreases seg_ids.len(),
{
    if seg_ids.len() > 0 {
        let front = seg_ids.drop_last();
        let n = seg_ids.len() - 1;
        lemma_batch(guards, files, front, snapshot, seg);
        lemma_batch(guards, files, front, snapshot, seg_ids[n]@);
        assert forall|i: int| #![trigger seg_ids[i]] 0 <= i < n implies seg_ids[i] == front[i] by {}
        let all = gather_batch(guards, files, seg_ids, snapshot);
        let before = gather_batch(guards, files, front, snapshot);
        if exists|i: int| #![trigger seg_ids[i]] 0 <= i < seg_ids.len() && seg_ids[i]@ == seg {
            let i = choose|i: int| #![trigger seg_ids[i]] 0 <= i < seg_ids.len() && seg_ids[i]@ == seg;
            if i < n {
                assert(front[i]@ == seg);
            }
        }
        if before.dom().contains(seg) {
            let i = choose|i: int| #![trigger front[i]] 0 <= i < front.len() && front[i]@ == seg;
            assert(seg_ids[i]@ == seg);
        }
        if seg_ids[n]@ == seg {
            assert(all.dom().contains(seg));
        }
        if forall|i: int, j: int|
            #![trigger seg_ids[i], seg_ids[j]]
            0 <= i < j < seg_ids.len() ==> seg_ids[i]@ != seg_ids[j]@ {
            assert forall|i: int, j: int|
                #![trigger front[i], front[j]]
                0 <= i < j < front.len() implies front[i]@ != front[j]@ by {
                assert(seg_ids[i]@ != seg_ids[j]@);
            }
            if seg_ids[n]@ == seg {
                assert(!before.dom().contains(seg)) by {
                    if before.dom().contains(seg) {
                        let i = choose|i: int| #![trigger front[i]] 0 <= i < front.len() && front[i]@ == seg;
                        assert(seg_ids[i]@ != seg_ids[n]@);
                    }
                }
                let part = gather(guards, files, seg, snapshot).0;
                assert(Seq::<CellView>::empty() + part =~= part);
            }
        }
    }
}

/// A batch gives for each segment that is asked for once what a query of it alone gives, and
/// an answer for no other segment.
pub proof fn law_batch_gives_what_each_query_gives(
    disk: &DeltaL2Disk,
    seg_ids: &Vec<String>,
    snapshot: u64,
    all: crate::ordmap::OrdMap<String, Vec<DeltaCell>>,
    k: int,
    seg_id: &str,
    one: Vec<DeltaCell>,
    other: Seq<char>,
)
    requires
        disk.wf(),
        call_ensures(DeltaL2Disk::get_visible_batch, (disk, seg_ids, snapshot), all),
        call_ensures(DeltaL2Disk::get_visible, (disk, seg_id, snapshot), Ok(one)),
        0 <= k < seg_ids@.len(),
        seg_ids@[k]@ == seg_id@,
        forall|i: int, j: int|
            #![trigger seg_ids@[i], seg_ids@[j]]
            0 <= i < j < seg_ids@.len() ==> seg_ids@[i]@ != seg_ids@[j]@,
    ensures
        all@.dom().contains(seg_id@),
        cell_views(all@[seg_id@]@) == cell_views(one@),
        all@.dom().contains(other) ==> exists|i: int|
            #![trigger seg_ids@[i]]
            0 <= i < seg_ids@.len() && seg_ids@[i]@ == other,
{
    let list = disk.guard_list();
    let files = disk@.files;
    let f = |v: Vec<DeltaCell>| cell_views(v@);
    let views = all@.map_values(f);
    lemma_batch(list, files, seg_ids@, snapshot, seg_id@);
    lemma_batch(list, files, seg_ids@, snapshot, other);
    assert(views == gather_batch(list, files, seg_ids@, snapshot));
    assert(views.dom().contains(seg_id@));
    assert(views.dom() =~= all@.dom());
    assert(views[seg_id@] == cell_views(all@[seg_id@]@));
}

/// One cell of the disk layer: of the cells that the layer shows of a row and column the one
/// of the latest transaction; none when none is shown.
pub proof fn law_disk_gives_the_latest_cell(
    disk: &DeltaL2Disk,
    seg_id: &str,
    row: u64,
    column: &str,
    snapshot: u64,
    all: Vec<DeltaCell>,
    r: Result<Option<DeltaCell>, RockDuckError>,
)
    requires
        disk.wf(),
        call_ensures(DeltaL2Disk::get_visible, (disk, seg_id, snapshot), Ok(all)),
        call_ensures(DeltaL2Disk::get_cell, (disk, seg_id, row, column, snapshot), r),
    ensures
        r is Ok,
        match r->Ok_0 {
            None => forall|i: int|
                #![trigger all@[i]]
                0 <= i < all@.len() ==> all@[i].row_offset != row || all@[i].column@ != column@,
            Some(c) => c.row_offset == row && c.column@ == column@ && (exists|k: int|
                #![trigger all@[k]]
                0 <= k < all@.len() && all@[k]@ == c@) && forall|i: int|
                #![trigger all@[i]]
                0 <= i < all@.len() && all@[i].row_offset == row && all@[i].column@ == column@
                    ==> all@[i].txn_id <= c.txn_id,
        },
{
    let list = disk.guard_list();
    let files = disk@.files;
    let part = column_guards(list, column@);
    let whole = gather(list, files, seg_id@, snapshot).0;
    let mine = gather(part, files, seg_id@, snapshot).0;
    let views = cell_views(all@);
    assert(views == whole);
    lemma_part_of_gathered(disk, seg_id@, column@, snapshot, views[0]);
    assert(r is Ok);
    assert forall|i: int|
        #![trigger all@[i]]
        0 <= i < all@.len() && all@[i].row_offset == row && all@[i].column@ == column@ implies mine.contains(
        all@[i]@,
    ) by {
        assert(views[i] == all@[i]@);
        assert(whole.contains(views[i]));
        lemma_part_of_gathered(disk, seg_id@, column@, snapshot, views[i]);
    }
    match r->Ok_0 {
        None => {
            assert forall|i: int| #![trigger all@[i]] 0 <= i < all@.len() implies all@[i].row_offset != row
                || all@[i].column@ != column@ by {
                if all@[i].row_offset == row && all@[i].column@ == column@ {
                    let k = mine.index_of(all@[i]@);
                    assert(mine[k] == all@[i]@);
                }
            }
        },
        Some(c) => {
            let b = choose|b: int| best_at(mine, row, column@, b) && c@ == mine[b];
            assert(mine.contains(mine[b]));
            lemma_part_of_gathered(disk, seg_id@, column@, snapshot, mine[b]);
            let k = whole.index_of(mine[b]);
            assert(views[k] == c@);
            assert(all@[k]@ == c@);
            assert forall|i: int|
                #![trigger all@[i]]
                0 <= i < all@.len() && all@[i].row_offset == row && all@[i].column@ == column@ implies all@[i].txn_id
                <= c.txn_id by {
                let m = mine.index_of(all@[i]@);
                assert(mine[m] == all@[i]@);
            }
        },
    }
}

/// The cells of the guards of a column are those of its guards that have the column.
proof fn lemma_part_of_gathered(disk: &DeltaL2Disk, seg_id: Seq<char>, column: Seq<char>, snapshot: u64, c: CellView)
    requires
        gather(disk.guard_list(), disk@.files, seg_id, snapshot).1 is None,
    ensures
        gather(column_guards(disk.guard_list(), column), disk@.files, seg_id, snapshot).1 is None,
        gather(column_guards(disk.guard_list(), column), disk@.files, seg_id, snapshot).0.contains(c) == (gather(
            disk.guard_list(),
            disk@.files,
            seg_id,
            snapshot,
        ).0.contains(c) && c.column == column),
{
    let list = disk.guard_list();
    let files = disk@.files;
    let part = column_guards(list, column);
    lemma_gathered(list, files, seg_id, snapshot, c);
    lemma_gathered(part, files, seg_id, snapshot, c);
    assert forall|m: int| #![trigger part[m]] 0 <= m < part.len() implies part[m].key.col == column && list.contains(
        part[m],
    ) by {
        lemma_column_guards(list, column, part[m]);
        assert(part.contains(part[m]));
    }
    assert forall|m: int| #![trigger part[m]] 0 <= m < part.len() && part[m].key.seg_id == seg_id implies crate::storage::delta::disk_store::guard_cells(
        part[m],
        files,
        snapshot,
    ) is Ok by {
        let i = list.index_of(part[m]);
        assert(list[i] == part[m]);
    }
    if gather(part, files, seg_id, snapshot).0.contains(c) {
        let m = choose|m: int|
            #![trigger part[m]]
            0 <= m < part.len() && part[m].key.seg_id == seg_id && (crate::storage::delta::disk_store::guard_cells(
                part[m],
                files,
                snapshot,
            ) matches Ok(cells) && cells.contains(c));
        let i = list.index_of(part[m]);
        assert(list[i] == part[m]);
        let cells = crate::storage::delta::disk_store::guard_cells(part[m], files, snapshot)->Ok_0;
        let k = cells.index_of(c);
        assert(cells[k].column == column);
    }
    if gather(list, files, seg_id, snapshot).0.contains(c) && c.column == column {
        let i = choose|i: int|
            #![trigger list[i]]
            0 <= i < list.len() && list[i].key.seg_id == seg_id && (crate::storage::delta::disk_store::guard_cells(
                list[i],
                files,
                snapshot,
            ) matches Ok(cells) && cells.contains(c));
        let g = list[i];
        let cells = crate::storage::delta::disk_store::guard_cells(g, files, snapshot)->Ok_0;
        let k = cells.index_of(c);
        assert(cells[k].column == g.key.col);
        lemma_column_guards(list, column, g);
        assert(list.contains(g));
        let m = part.index_of(g);
        assert(part[m] == g);
    }
}

/// One cell of the frozen layer: of the cells that the layer shows of a row and column the
/// one of the latest transaction; none when none is shown.
pub proof fn law_frozen_layer_gives_the_latest_cell(
    frozen: &DeltaL3Frozen,
    seg_id: &str,
    row: u64,
    column: &str,
    snapshot: u64,
    all: Vec<DeltaCell>,
    r: Result<Option<DeltaCell>, RockDuckError>,
)
    requires
        frozen.wf(),
        call_ensures(DeltaL3Frozen::get_visible, (frozen, seg_id, snapshot), Ok(all)),
        call_ensures(DeltaL3Frozen::get_cell, (frozen, seg_id, row, column, snapshot), r),
    ensures
        r is Ok,
        match r->Ok_0 {
            None => forall|i: int|
                #![trigger all@[i]]
                0 <= i < all@.len() ==> all@[i].row_offset != row || all@[i].column@ != column@,
            Some(c) => c.row_offset == row && c.column@ == column@ && (exists|k: int|
                #![trigger all@[k]]
                0 <= k < all@.len() && all@[k]@ == c@) && forall|i: int|
                #![trigger all@[i]]
                0 <= i < all@.len() && all@[i].row_offset == row && all@[i].column@ == column@
                    ==> all@[i].txn_id <= c.txn_id,
        },
{
    let views = cell_views(all@);
    assert(frozen_gather(frozen.entries(), frozen@.files, seg_id@, snapshot) == Ok::<
        Seq<CellView>,
        RockDuckError,
    >(views));
    assert forall|i: int| #![trigger all@[i]] 0 <= i < all@.len() implies views[i] == all@[i]@ by {}
    if let Some(c) = r->Ok_0 {
        let b = choose|b: int| best_at(views, row, column@, b) && c@ == views[b];
        assert(all@[b]@ == c@);
        assert forall|i: int|
            #![trigger all@[i]]
            0 <= i < all@.len() && all@[i].row_offset == row && all@[i].column@ == column@ implies all@[i].txn_id
            <= c.txn_id by {
            assert(views[i] == all@[i]@);
        }
    }
}

/// Removing the frozen patches of some keys leaves those of all others, and every file that
/// is none of theirs.
pub proof fn law_removed_patches_are_gone(d: FrozenView, gone: Set<FrozenKey>, key: FrozenKey, path: Seq<char>)
    ensures
        frozen_without(d, gone).index.dom().contains(key) <==> d.index.dom().contains(key) && !gone.contains(
            key,
        ),
        frozen_without(d, gone).index.dom().contains(key) ==> frozen_without(d, gone).index[key]
            == d.index[key],
        d.files.dom().contains(path) && (forall|k: FrozenKey| #[trigger]
            gone.contains(k) && d.index.dom().contains(k) ==> d.index[k].0 != path) ==> frozen_without(
            d,
            gone,
        ).files.dom().contains(path) && frozen_without(d, gone).files[path] == d.files[path],
        gone.contains(key) && d.index.dom().contains(key) ==> !frozen_without(d, gone).files.dom().contains(
            d.index[key].0,
        ),
{
}

/// The number of a merged patch is the highest of the patches.
pub proof fn law_merged_patch_has_the_highest_number(patches: Seq<PatchRefView>, i: int)
    requires
        0 <= i < patches.len(),
    ensures
        patches[i].patch_id <= max_patch_id(patches),
        exists|k: int| #![trigger patches[k]] 0 <= k < patches.len() && patches[k].patch_id == max_patch_id(
            patches,
        ),
    decreases patches.len(),
{
    let front = patches.drop_last();
    let n = patches.len() - 1;
    if n > 0 {
        law_merged_patch_has_the_highest_number(front, if i < n { i } else { 0 });
        let k = choose|k: int|
            #![trigger front[k]]
            0 <= k < front.len() && front[k].patch_id == max_patch_id(front);
        assert(patches[k] == front[k]);
        if i < n {
            assert(front[i] == patches[i]);
        }
    } else {
        assert(max_patch_id(front) == 0);
    }
    assert(patches[n] == patches.last());
}

/// A write changes one version in the hot buffer and no other, and a stopped store nothing.
pub proof fn law_write_changes_one_version(
    config: MemConfig,
    before: MemView,
    after: MemView,
    delta: DeltaCell,
    elapsed_ms: u64,
    appends: Seq<WalAppend>,
    key: ((Seq<char>, u64), (Seq<char>, u64)),
)
    requires
        put_done(config, before, after, delta, elapsed_ms, appends),
    ensures
        config.stopped ==> after == before && appends.len() == 0,
        !config.stopped ==> after.hot.dom().contains(mem_key(delta@)) && after.hot[mem_key(delta@)] == delta@,
        !config.stopped && key != mem_key(delta@) ==> after.hot.dom().contains(key) == before.hot.dom().contains(
            key,
        ) && (before.hot.dom().contains(key) ==> after.hot[key] == before.hot[key]),
        after.cold == before.cold && after.cold_cells == before.cold_cells && after.swapped == before.swapped,
        !(config.sync_level is Batch) ==> after.pending == before.pending && appends.len() == 0,
        !config.stopped && config.sync_level is Batch ==> after.pending.len() == 0 || after.pending
            == before.pending.push(delta@),
{
}

/// Writes that are logged in groups are logged once there are as many as a group holds, or
/// the time of a group has passed; nothing is logged when nothing waits or writes are not
/// grouped.
pub proof fn law_groups_are_logged_when_full_or_late(config: MemConfig, pending: nat, elapsed_ms: u64)
    ensures
        !(config.sync_level is Batch) || pending == 0 ==> !batch_due(config, pending, elapsed_ms),
        config.sync_level is Batch && pending > 0 && pending >= config.batch_max_pending ==> batch_due(
            config,
            pending,
            elapsed_ms,
        ),
        config.sync_level is Batch && pending > 0 && elapsed_ms > config.batch_ms ==> batch_due(
            config,
            pending,
            elapsed_ms,
        ),
        pending < config.batch_max_pending && elapsed_ms <= config.batch_ms ==> !batch_due(
            config,
            pending,
            elapsed_ms,
        ),
{
}

/// A write with an image is logged before it counts, unless there is no log, the store is
/// stopped or writes are logged in groups; durably when every write is to be.
pub proof fn law_writes_are_logged_ahead(config: MemConfig, c: CellView, r: Option<WalAppend>)
    requires
        write_ahead(config, c, r),
    ensures
        config.stopped || !config.has_wal || config.sync_level is Batch ==> r is None,
        c.before is None && c.after is None ==> r is None,
        !config.stopped && config.has_wal && !(config.sync_level is Batch) && (c.before is Some || c.after is Some)
            ==> r is Some && (r->0).txn_id == c.txn_id && (r->0).durable == (config.sync_level is Immediate),
{
}

/// A store begins empty; hot columns may take half as much again as others before they are
/// flushed, cold ones half as much.
pub proof fn law_thresholds_of_a_store(threshold: usize, level: SyncLevel, store: DeltaMemStore)
    requires
        call_ensures(DeltaMemStore::new, (threshold, level), store),
        threshold + threshold / 2 <= usize::MAX,
    ensures
        store.config().flush_threshold == threshold,
        store.config().hot_flush_threshold == threshold + threshold / 2,
        store.config().cold_flush_threshold == threshold / 2,
        store.config().sync_level == level,
        !store.config().has_wal && !store.config().stopped,
        store@.hot_cells.len() == 0 && store@.cold_cells.len() == 0 && store@.swapped.len() == 0,
        level matches SyncLevel::Batch { ms, max_pending } ==> store.config().batch_ms == ms
            && store.config().batch_max_pending == max_pending,
{
}

/// The size of a cell is that of its names and images and 32 bytes more.
pub proof fn law_size_of_a_cell(delta: &DeltaCell, n: u64, before: Seq<u8>, after: Seq<u8>)
    requires
        call_ensures(estimate_size, (delta,), n),
        delta@.before == Some(before),
        delta@.after == Some(after),
        encode_utf8(delta@.column).len() + encode_utf8(delta@.seg_id).len() + before.len() + after.len() + 32
            <= u64::MAX,
    ensures
        n == encode_utf8(delta@.column).len() + encode_utf8(delta@.seg_id).len() + before.len() + after.len() + 32,
{
}

/// A cell is visible to a snapshot when its transaction is not later, not active, and known
/// to be committed in time.
pub proof fn law_cells_are_seen_by_commit(
    cell: &DeltaCell,
    snapshot: u64,
    commits: &HashMap<u64, u64>,
    active: &HashSet<u64>,
    r: bool,
)
    requires
        call_ensures(DeltaCell::is_visible_at_commit, (cell, snapshot, commits, active), r),
    ensures
        cell.txn_id > snapshot ==> !r,
        active@.contains(cell.txn_id) ==> !r,
        !commits@.dom().contains(cell.txn_id) ==> !r,
        commits@.dom().contains(cell.txn_id) && commits@[cell.txn_id] > snapshot ==> !r,
        cell.txn_id <= snapshot && !active@.contains(cell.txn_id) && commits@.dom().contains(cell.txn_id)
            && commits@[cell.txn_id] <= snapshot ==> r,
{
}

/// A flush of the memory layer is due when the load leaves room, the layer is above its
/// threshold, and the last flush is long enough ago.
pub proof fn law_flush_is_due_above_the_threshold(
    engine: &FlushEngine,
    stack: &DeltaLayerStack,
    since_ms: u64,
    r: Option<crate::storage::delta::flush_engine::CompactionDecision>,
)
    requires
        call_ensures(FlushEngine::check_p0_flush, (engine, stack, since_ms), r),
    ensures
        r is Some ==> stack.l1@.size > stack.l1.config().flush_threshold,
        r is Some ==> since_ms >= engine.min_flush_interval_ms,
        r matches Some(d) ==> d.action is L1Flush,
        engine.fg_monitor.samples().len() == 0 && stack.l1@.size > stack.l1.config().flush_threshold && since_ms
            >= engine.min_flush_interval_ms ==> r is Some,
        engine.fg_monitor.samples().len() > 0 && engine.fg_monitor.samples()[0] >= 70_000 ==> r is None,
{
    lemma_peak(engine.fg_monitor.samples(), 0);
}

} // verus!
