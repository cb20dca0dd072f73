//! What the layers of deltas answer, and how their settings decide.
use vstd::prelude::*;
use std::collections::{HashMap, HashSet};
use crate::bitmap::{lemma_listing, lists};
use crate::error::RockDuckError;
use crate::ipc::cells_view;
use crate::ratio::Ratio;
use crate::storage::delta::heat::{class_of, consecutive, policy_of, windowed, ColumnClass, ColumnHeatTracker, FlushPolicy};
use crate::storage::delta::mem_store::{best_at, lemma_select_contains, mem_key, seen_in, select, DeltaMemStore};
use crate::storage::delta::merge::{all_cells, cell_key, is_merge, is_winner, k_way_merge, last_place, lemma_last_place, lemma_latest_wins, wins};
use crate::storage::delta::patch_file::patch_value;
use crate::storage::delta::sparsity::SparsitySelector;
use crate::storage::delta::stack::{by_identity, flush_ended, moved_down, recovered, StackView};
use crate::storage::delta::types::{cell_views, CellView, DeltaCell, DeltaPatchFormat};
use crate::write::{op_type_of, replayed, OpType, WalOp};

verus! {

/// The memory layer shows exactly the cells that it holds of a segment, committed and not
/// later than the snapshot.
pub proof fn law_memory_shows_committed_cells(
    store: &DeltaMemStore,
    seg_id: &str,
    snapshot: u64,
    r: Vec<DeltaCell>,
    c: CellView,
)
    requires
        call_ensures(DeltaMemStore::visible, (store, seg_id, snapshot), r) || call_ensures(
            DeltaMemStore::get_patches,
            (store, seg_id, snapshot),
            r,
        ),
    ensures
        (exists|i: int| #![trigger r@[i]] 0 <= i < r@.len() && r@[i]@ == c) <==> (store@.hot_cells.contains(c)
            || store@.cold_cells.contains(c) || store@.swapped.contains(c)) && c.seg_id == seg_id@ && c.txn_id
            <= snapshot && c.committed,
{
    let keep = seen_in(seg_id@, snapshot);
    let a = select(store@.hot_cells, keep);
    let b = select(store@.cold_cells, keep);
    let d = select(store@.swapped, keep);
    lemma_select_contains(store@.hot_cells, keep, c);
    lemma_select_contains(store@.cold_cells, keep, c);
    lemma_select_contains(store@.swapped, keep, c);
    let all = cell_views(r@);
    assert(all == a + b + d);
    if exists|i: int| #![trigger r@[i]] 0 <= i < r@.len() && r@[i]@ == c {
        let i = choose|i: int| #![trigger r@[i]] 0 <= i < r@.len() && r@[i]@ == c;
        assert(all[i] == c);
        if i < a.len() {
            assert(a[i] == c);
        } else if i < a.len() + b.len() {
            assert(b[i - a.len()] == c);
        } else {
            assert(d[i - a.len() - b.len()] == c);
        }
    }
    if a.contains(c) {
        let i = a.index_of(c);
        assert(all[i] == c);
        assert(r@[i]@ == c);
    }
    if b.contains(c) {
        let i = b.index_of(c);
        assert(all[a.len() + i] == c);
        assert(r@[a.len() + i]@ == c);
    }
    if d.contains(c) {
        let i = d.index_of(c);
        assert(all[a.len() + b.len() + i] == c);
        assert(r@[a.len() + b.len() + i]@ == c);
    }
}

/// One cell of the memory layer: of the shown cells of a row and column the one of the latest
/// transaction; none when none is shown.
pub proof fn law_memory_gives_the_latest_cell(
    store: &DeltaMemStore,
    seg_id: &str,
    row: u64,
    column: &str,
    snapshot: u64,
    all: Vec<DeltaCell>,
    r: Option<DeltaCell>,
)
    requires
        call_ensures(DeltaMemStore::visible, (store, seg_id, snapshot), all),
        call_ensures(DeltaMemStore::get_cell, (store, seg_id, row, column, snapshot), r),
    ensures
        match r {
            None => forall|i: int|
                #![trigger all@[i]]
                0 <= i < all@.len() ==> all@[i].row_offset != row || all@[i].column@ != column@,
            Some(c) => c.row_offset == row && c.column@ == column@ && (exists|k: int|
                #![trigger all@[k]]
                0 <= k < all@.len() && all@[k]@ == c@) && forall|i: int|
                #![trigger all@[i]]
                0 <= i < all@.len() && all@[i].row_offset == row && all@[i].column@ == column@
                    ==> all@[i].txn_id <= c.txn_id,
        },
{
    let views = cell_views(all@);
    assert forall|i: int| #![trigger all@[i]] 0 <= i < all@.len() implies views[i] == all@[i]@ by {}
    if let Some(c) = r {
        let b = choose|b: int| best_at(views, row, column@, b) && c@ == views[b];
        assert(all@[b]@ == c@);
        assert forall|i: int|
            #![trigger all@[i]]
            0 <= i < all@.len() && all@[i].row_offset == row && all@[i].column@ == column@ implies all@[i].txn_id
            <= c.txn_id by {
            assert(views[i] == all@[i]@);
        }
    }
}

/// A merge of cells has one cell for each place that a cell which counts has: a cell that
/// counts, and none that counts for the place is of a later transaction. It has no others.
pub proof fn law_merge_has_the_latest_of_each_place(
    merged: Seq<CellView>,
    cells: Seq<CellView>,
    ok: spec_fn(CellView) -> bool,
    i: int,
    a: int,
    b: int,
)
    requires
        is_merge(merged, cells, ok),
    ensures
        0 <= i < cells.len() && ok(cells[i]) ==> exists|k: int|
            #![trigger merged[k]]
            0 <= k < merged.len() && merged[k].seg_id == cells[i].seg_id && merged[k].column
                == cells[i].column && merged[k].row_offset == cells[i].row_offset && merged[k].txn_id
                >= cells[i].txn_id,
        0 <= a < merged.len() ==> cells.contains(merged[a]) && ok(merged[a]),
        0 <= a < merged.len() && 0 <= i < cells.len() && ok(cells[i]) && cells[i].seg_id == merged[a].seg_id
            && cells[i].column == merged[a].column && cells[i].row_offset == merged[a].row_offset
            ==> cells[i].txn_id <= merged[a].txn_id,
        0 <= a < b < merged.len() ==> merged[a].seg_id != merged[b].seg_id || merged[a].column
            != merged[b].column || merged[a].row_offset != merged[b].row_offset,
{
    if 0 <= i < cells.len() && ok(cells[i]) {
        let w = lemma_latest_wins(cells, ok, i);
        assert(merged.contains(cells[w]));
        let k = merged.index_of(cells[w]);
        assert(merged[k] == cells[w]);
        assert(cell_key(merged[k]) == cell_key(cells[i]));
    }
    if 0 <= a < merged.len() {
        assert(is_winner(cells, ok, merged[a]));
        let w = choose|w: int| wins(cells, ok, w) && cells[w] == merged[a];
        assert(cells[w] == merged[a]);
        if 0 <= i < cells.len() && i != w && ok(cells[i]) && cell_key(cells[i]) == cell_key(merged[a]) {
            assert(cells[i].txn_id <= cells[w].txn_id);
        }
    }
    if 0 <= a < b < merged.len() {
        let x = merged[a];
        let y = merged[b];
        if cell_key(x) == cell_key(y) {
            <crate::storage::delta::merge::CellKey as crate::ordmap::OrdKey>::before_irreflexive(cell_key(x));
        }
    }
}

proof fn lemma_all_cells(layers: Seq<Vec<DeltaCell>>, c: CellView)
    ensures
        all_cells(layers).contains(c) <==> exists|l: int, i: int|
            0 <= l < layers.len() && 0 <= i < layers[l]@.len() && (#[trigger] layers[l]@[i])@ == c,
    decreases layers.len(),
{
    if layers.len() > 0 {
        let front = layers.drop_last();
        let n = layers.len() - 1;
        lemma_all_cells(front, c);
        let a = all_cells(front);
        let b = cell_views(layers[n]@);
        let all = all_cells(layers);
        assert(all == a + b);
        if all.contains(c) {
            let k = all.index_of(c);
            assert(all[k] == c);
            if k < a.len() {
                assert(a[k] == c);
                assert(a.contains(c));
                let (l, i) = choose|l: int, i: int|
                    0 <= l < front.len() && 0 <= i < front[l]@.len() && (#[trigger] front[l]@[i])@ == c;
                assert(layers[l]@[i]@ == c);
            } else {
                assert(b[k - a.len()] == c);
                assert(layers[n]@[k - a.len()]@ == c);
            }
        }
        if exists|l: int, i: int|
            0 <= l < layers.len() && 0 <= i < layers[l]@.len() && (#[trigger] layers[l]@[i])@ == c {
            let (l, i) = choose|l: int, i: int|
                0 <= l < layers.len() && 0 <= i < layers[l]@.len() && (#[trigger] layers[l]@[i])@ == c;
            if l < n {
                assert(front[l]@[i]@ == c);
                let k = a.index_of(c);
                assert(all[k] == c);
            } else {
                assert(b[i] == c);
                assert(all[a.len() + i] == c);
            }
        }
    }
}

/// Merging layers gives, for every cell of a layer that the snapshot sees, one of the same
/// place that is not older; what it gives are cells of the layers that the snapshot sees, one
/// for each place. A snapshot sees what is not later, not active, and committed in time.
pub proof fn law_merged_layers_have_the_latest_cells(
    layers: Vec<Vec<DeltaCell>>,
    snapshot: u64,
    commits: &HashMap<u64, u64>,
    active: &HashSet<u64>,
    r: Vec<DeltaCell>,
    l: int,
    i: int,
    a: int,
    b: int,
)
    requires
        call_ensures(k_way_merge, (layers, snapshot, commits, active), r),
    ensures
        0 <= l < layers@.len() && 0 <= i < layers@[l]@.len() && layers@[l]@[i].txn_id <= snapshot
            && !active@.contains(layers@[l]@[i].txn_id) && commits@.dom().contains(layers@[l]@[i].txn_id)
            && commits@[layers@[l]@[i].txn_id] <= snapshot ==> exists|k: int|
            #![trigger r@[k]]
            0 <= k < r@.len() && r@[k].seg_id@ == layers@[l]@[i].seg_id@ && r@[k].column@
                == layers@[l]@[i].column@ && r@[k].row_offset == layers@[l]@[i].row_offset && r@[k].txn_id
                >= layers@[l]@[i].txn_id,
        0 <= a < r@.len() ==> r@[a].txn_id <= snapshot && !active@.contains(r@[a].txn_id)
            && commits@.dom().contains(r@[a].txn_id) && commits@[r@[a].txn_id] <= snapshot && exists|
            x: int,
            y: int,
        |
            0 <= x < layers@.len() && 0 <= y < layers@[x]@.len() && (#[trigger] layers@[x]@[y])@ == r@[a]@,
        0 <= a < b < r@.len() ==> r@[a].seg_id@ != r@[b].seg_id@ || r@[a].column@ != r@[b].column@
            || r@[a].row_offset != r@[b].row_offset,
{
    let ok = crate::storage::delta::merge::seen_by(snapshot, commits@, active@);
    let cells = all_cells(layers@);
    let merged = cell_views(r@);
    if 0 <= l < layers@.len() && 0 <= i < layers@[l]@.len() {
        let c = layers@[l]@[i]@;
        lemma_all_cells(layers@, c);
        assert(cells.contains(c));
        let k = cells.index_of(c);
        assert(cells[k] == c);
        law_merge_has_the_latest_of_each_place(merged, cells, ok, k, a, b);
        if ok(c) {
            let x = choose|x: int|
                #![trigger merged[x]]
                0 <= x < merged.len() && merged[x].seg_id == c.seg_id && merged[x].column == c.column
                    && merged[x].row_offset == c.row_offset && merged[x].txn_id >= c.txn_id;
            assert(r@[x]@ == merged[x]);
        }
    }
    law_merge_has_the_latest_of_each_place(merged, cells, ok, 0, a, b);
    if 0 <= a < r@.len() {
        assert(merged[a] == r@[a]@);
        lemma_all_cells(layers@, merged[a]);
    }
    if 0 <= a < b < r@.len() {
        assert(merged[b] == r@[b]@);
    }
}

/// A list of cells by place keeps the last cell of each.
pub proof fn law_last_cell_of_a_place_is_kept(cells: Seq<CellView>, i: int)
    requires
        0 <= i < cells.len(),
        forall|j: int|
            #![trigger cells[j]]
            i < j < cells.len() ==> cells[j].seg_id != cells[i].seg_id || cells[j].column != cells[i].column
                || cells[j].row_offset != cells[i].row_offset,
    ensures
        by_identity(cells).dom().contains((cells[i].seg_id, cells[i].column, cells[i].row_offset)),
        by_identity(cells)[(cells[i].seg_id, cells[i].column, cells[i].row_offset)] == cells[i],
    decreases cells.len(),
{
    let n = cells.len() - 1;
    if i < n {
        let front = cells.drop_last();
        assert(front[i] == cells[i]);
        assert forall|j: int| #![trigger front[j]] i < j < front.len() implies front[j].seg_id
            != front[i].seg_id || front[j].column != front[i].column || front[j].row_offset
            != front[i].row_offset by {
            assert(front[j] == cells[j]);
        }
        law_last_cell_of_a_place_is_kept(front, i);
        let x = cells[n];
    }
}

/// Recovery from a log: of the operations on one version of a cell the last one stays, and
/// what no operation touches stays as it was.
pub proof fn law_recovery_keeps_the_last_operation(
    hot: Map<((Seq<char>, u64), (Seq<char>, u64)), CellView>,
    ops: Seq<WalOp>,
    i: int,
    key: ((Seq<char>, u64), (Seq<char>, u64)),
)
    ensures
        0 <= i < ops.len() && (replayed(ops[i]) matches Some(c) && mem_key(c) == key) && (forall|j: int|
            #![trigger ops[j]]
            i < j < ops.len() ==> !(replayed(ops[j]) matches Some(d) && mem_key(d) == key)) ==> recovered(
            hot,
            ops,
            false,
        ).dom().contains(key) && recovered(hot, ops, false)[key] == replayed(ops[i])->0,
        (forall|j: int|
            #![trigger ops[j]]
            0 <= j < ops.len() ==> !(replayed(ops[j]) matches Some(d) && mem_key(d) == key)) ==> recovered(
            hot,
            ops,
            false,
        ).dom().contains(key) == hot.dom().contains(key) && (hot.dom().contains(key) ==> recovered(
            hot,
            ops,
            false,
        )[key] == hot[key]),
        recovered(hot, ops, true) == hot,
    decreases ops.len(),
{
    if ops.len() > 0 {
        let front = ops.drop_last();
        let n = ops.len() - 1;
        law_recovery_keeps_the_last_operation(hot, front, i, key);
        assert forall|j: int| #![trigger front[j]] 0 <= j < front.len() implies front[j] == ops[j] by {}
        let last = ops[n];
        if 0 <= i < n {
            assert(front[i] == ops[i]);
        }
    }
}

/// Version keys tell the place and the transaction of a cell.
pub proof fn law_versions_have_keys_of_their_own(a: CellView, b: CellView)
    ensures
        mem_key(a) == mem_key(b) <==> a.seg_id == b.seg_id && a.row_offset == b.row_offset && a.column
            == b.column && a.txn_id == b.txn_id,
{
}

/// A cell with both images is an update, one with a new image alone an insertion, and any
/// other a deletion.
pub proof fn law_operations_follow_the_images(delta: &DeltaCell, r: OpType)
    requires
        call_ensures(op_type_of, (delta,), r),
    ensures
        r == OpType::Update <==> delta.before is Some && delta.after is Some,
        r == OpType::Insert <==> delta.before is None && delta.after is Some,
        r == OpType::Delete <==> delta.after is None,
{
}

/// How many steps of a list of transactions go up by one.
pub proof fn law_consecutive_transactions(txns: Seq<u64>)
    ensures
        (forall|i: int| #![trigger txns[i]] 0 < i < txns.len() ==> txns[i] == txns[i - 1] + 1) && txns.len() > 0
            ==> consecutive(txns) == txns.len() - 1,
        (forall|i: int| #![trigger txns[i]] 0 < i < txns.len() ==> txns[i] != txns[i - 1] + 1) ==> consecutive(
            txns,
        ) == 0,
        txns.len() > 0 ==> consecutive(txns) < txns.len(),
    decreases txns.len(),
{
    if txns.len() >= 2 {
        let front = txns.drop_last();
        assert forall|i: int| #![trigger front[i]] 0 <= i < front.len() implies front[i] == txns[i] by {}
        law_consecutive_transactions(front);
    }
}

/// A column that is written in every transaction of a full window is hot whenever anything
/// short of always counts as hot; one that fills a hundredth of the window with writes far
/// apart is cold under the usual limits; too few writes tell nothing.
pub proof fn law_classes_follow_the_writes(txns: Seq<u64>, window: u32, hot: Ratio, cold: Ratio)
    requires
        hot.den > 0,
        cold.den > 0,
        hot.num < hot.den,
    ensures
        txns.len() < 3 ==> class_of(txns, window, hot, cold) == ColumnClass::Warm,
        txns.len() >= 3 && txns.len() == window && (forall|i: int|
            #![trigger txns[i]]
            0 < i < txns.len() ==> txns[i] == txns[i - 1] + 1) ==> class_of(txns, window, hot, cold)
            == ColumnClass::Hot,
        txns.len() >= 3 && 50 * txns.len() <= window && hot == (Ratio { num: 7, den: 10 }) && cold == (Ratio {
            num: 1,
            den: 10,
        }) && (forall|i: int| #![trigger txns[i]] 0 < i < txns.len() ==> txns[i] != txns[i - 1] + 1)
            ==> class_of(txns, window, hot, cold) == ColumnClass::Cold,
{
    law_consecutive_transactions(txns);
    let n = txns.len() as int;
    let w = window as int;
    if n >= 3 && n == w && consecutive(txns) == n - 1 {
        let t = 2 * (n - 1) * w;
        assert((n - 1) * w + n * (n - 1) == t) by (nonlinear_arith)
            requires
                n == w,
                t == 2 * (n - 1) * w,
        ;
        assert(t > 0) by (nonlinear_arith)
            requires
                n >= 3,
                n == w,
                t == 2 * (n - 1) * w,
        ;
        assert(t * hot.den > t * hot.num) by (nonlinear_arith)
            requires
                t > 0,
                hot.num < hot.den,
        ;
    }
    if n >= 3 && 50 * n <= w && consecutive(txns) == 0 {
        let x = n * (n - 1);
        let y = (n - 1) * w;
        assert(50 * x <= y) by (nonlinear_arith)
            requires
                x == n * (n - 1),
                y == (n - 1) * w,
                50 * n <= w,
                n >= 3,
        ;
        assert(x > 0) by (nonlinear_arith)
            requires
                x == n * (n - 1),
                n >= 3,
        ;
        assert(0 * w == 0);
        let z = 2 * (n - 1) * w;
        assert(z == 2 * y) by (nonlinear_arith)
            requires
                y == (n - 1) * w,
                z == 2 * (n - 1) * w,
        ;
        if hot == (Ratio { num: 7, den: 10 }) && cold == (Ratio { num: 1, den: 10 }) {
            let p = consecutive(txns) * w + x;
            assert(p == x) by (nonlinear_arith)
                requires
                    p == consecutive(txns) * w + x,
                    consecutive(txns) == 0,
            ;
            assert(p * hot.den == 10 * p && z * hot.num == 7 * z && p * cold.den == 10 * p && z * cold.num == z)
                by (nonlinear_arith)
                requires
                    hot.den == 10,
                    hot.num == 7,
                    cold.den == 10,
                    cold.num == 1,
            ;
        }
    }
}

/// The limits at which a column is hot or cold are compared with the mean of two shares: of
/// the steps that go up by one, and of the window that is filled.
pub proof fn law_scores_are_means_of_two_shares(tracker: &ColumnHeatTracker, column: &str, r: ColumnClass)
    requires
        tracker.wf(),
        call_ensures(ColumnHeatTracker::classify, (tracker, column), r),
    ensures
        !tracker.txns().dom().contains(column@) ==> r == ColumnClass::Warm,
        tracker.txns().dom().contains(column@) && tracker.txns()[column@].len() < 3 ==> r == ColumnClass::Warm,
        tracker.txns().dom().contains(column@) && tracker.txns()[column@].len() >= 3 ==> {
            let txns = tracker.txns()[column@];
            let steps = txns.len() - 1;
            let up = consecutive(txns) * tracker.window() + txns.len() * steps;
            let whole = 2 * steps * tracker.window();
            let hot = tracker.hot_threshold();
            let cold = tracker.cold_threshold();
            &&& (r == ColumnClass::Hot) == (up * hot.den > whole * hot.num)
            &&& r == ColumnClass::Cold ==> up * cold.den < whole * cold.num
            &&& up * hot.den <= whole * hot.num && up * cold.den < whole * cold.num ==> r == ColumnClass::Cold
        },
{
}

/// Hot columns wait, cold ones are flushed early.
pub proof fn law_policies_follow_the_classes(class: ColumnClass)
    ensures
        class == ColumnClass::Hot <==> policy_of(class) == FlushPolicy::Hot,
        class == ColumnClass::Cold <==> policy_of(class) == FlushPolicy::Cold,
        class == ColumnClass::Warm <==> policy_of(class) == FlushPolicy::Normal,
{
}

/// A window of writes ends with the newest, keeps the ones before it in order, and loses the
/// oldest when it is full.
pub proof fn law_window_keeps_the_latest_writes(txns: Seq<u64>, txn: u64, window: u32, i: int)
    requires
        window > 0,
        txns.len() <= window,
    ensures
        windowed(txns, txn, window).len() <= window,
        windowed(txns, txn, window).last() == txn,
        txns.len() < window ==> windowed(txns, txn, window).len() == txns.len() + 1 && (0 <= i < txns.len()
            ==> windowed(txns, txn, window)[i] == txns[i]),
        txns.len() == window ==> windowed(txns, txn, window).len() == window && (0 < i < txns.len()
            ==> windowed(txns, txn, window)[i - 1] == txns[i]),
{
}

/// A patch is sparse when it touches some rows, the rows are within the limit of dense
/// patches, and it touches less than the threshold's share of them or less than a thousand.
pub proof fn law_sparse_patches_touch_few_rows(sel: &SparsitySelector, total: u64, affected: usize, r: bool)
    requires
        call_ensures(SparsitySelector::should_use_sparse, (sel, total, affected), r),
    ensures
        r ==> 0 < affected && 0 < total <= sel.dense_force_rows && affected < sel.dense_force_rows,
        r ==> affected < 1000 || affected * sel.threshold.den < sel.threshold.num * total,
        0 < affected < 1000 && 0 < total <= sel.dense_force_rows && affected < sel.dense_force_rows ==> r,
        0 < affected < sel.dense_force_rows && 0 < total <= sel.dense_force_rows && affected
            * sel.threshold.den < sel.threshold.num * total ==> r,
{
}

/// A format built for ascending rows below the number of rows gives back the value of each,
/// and of every other row none.
pub proof fn law_format_gives_back_its_values(
    sel: &SparsitySelector,
    positions: &[u32],
    values: &Vec<Option<Vec<u8>>>,
    total: u64,
    txn: u64,
    f: DeltaPatchFormat,
    k: int,
    row: u64,
)
    requires
        call_ensures(SparsitySelector::build_format, (sel, positions, values, total, txn), Ok(f)),
        positions@.len() == values@.len(),
        forall|a: int, b: int|
            #![trigger positions@[a], positions@[b]]
            0 <= a < b < positions@.len() ==> positions@[a] < positions@[b],
        forall|a: int| #![trigger positions@[a]] 0 <= a < positions@.len() ==> positions@[a] < total,
        0 <= k < values@.len(),
        values@[k] is Some,
    ensures
        patch_value(f@, positions@[k] as u64) == Ok::<Option<Seq<u8>>, RockDuckError>(Some((values@[k]->0)@)),
        (row > u32::MAX || !positions@.contains(row as u32)) ==> patch_value(f@, row) == Ok::<
            Option<Seq<u8>>,
            RockDuckError,
        >(None),
{
    let p = positions@[k];
    let cells = cells_view(values@);
    assert(cells[k] == Some((values@[k]->0)@));
    let set = positions@.to_set();
    assert(lists(positions@, set)) by {
        assert forall|x: u32| #[trigger] set.contains(x) <==> positions@.contains(x) by {}
    }
    lemma_listing(positions@, set);
    assert(positions@.contains(p));
    let at = positions@.index_of(p);
    assert(positions@[at] == p);
    if at < k {
        assert(positions@[at] < positions@[k]);
    } else if k < at {
        assert(positions@[k] < positions@[at]);
    }
    lemma_last_place(positions@, p as int);
    let last = last_place(positions@, p as int);
    assert(last is Some);
    let y = last->0;
    assert(positions@[y] == p);
    if y < k {
        assert(positions@[y] < positions@[k]);
    } else if k < y {
        assert(positions@[k] < positions@[y]);
    }
    lemma_last_place(positions@, row as int);
    if let Some(z) = last_place(positions@, row as int) {
        assert(positions@[z] == row);
        assert(positions@.contains(positions@[z]));
    }
}

/// Moving patches down changes no number but those of the two layers, and loses none while
/// the counts can hold them.
pub proof fn law_moved_patches_are_counted(s: StackView, patches: usize)
    requires
        patches <= s.l2_patch_count,
        s.l3_patch_count + patches <= usize::MAX,
    ensures
        moved_down(s, patches).l2_patch_count == s.l2_patch_count - patches,
        moved_down(s, patches).l3_patch_count == s.l3_patch_count + patches,
        moved_down(s, patches).recent == s.recent,
        moved_down(s, patches).recent_cells == s.recent_cells,
        moved_down(s, patches).flush_epoch == s.flush_epoch,
{
}

/// The end of a flush forgets the cells of the flush and begins the next epoch.
pub proof fn law_ended_flush_begins_an_epoch(s: StackView)
    requires
        s.flush_epoch < u64::MAX,
    ensures
        flush_ended(s).flush_epoch == s.flush_epoch + 1,
        flush_ended(s).recent_cells.len() == 0,
        flush_ended(s).recent.dom() == Set::<(Seq<char>, Seq<char>, u64)>::empty(),
        flush_ended(s).l2_patch_count == s.l2_patch_count,
        flush_ended(s).l3_patch_count == s.l3_patch_count,
{
    assert(flush_ended(s).recent.dom() =~= Set::empty());
}

} // verus!
