//! What the masks, stores, projections and statistics of a segment are for.
use vstd::prelude::*;
use crate::bitmap::lists;
use crate::codec::le_value;
use crate::column::{column_fits, is_nan, value_before, Column, ColumnType, ColumnView};
use crate::mvcc::{TxnSnapshot, VisFilter, VisibilityContext, VisibilityManager, VisibilityProjection};
use crate::error::RockDuckError;
use crate::forms::law_decimal_is_read_back;
use crate::numeral::{first_of, is_digit, is_space, trimmed, trimmed_end, trimmed_start};
use crate::ratio::Ratio;
use crate::segment::adaptive_del_mask::AdaptiveDelMask;
use crate::segment::del_mask::{adds_all, bit_set, delete_added, form_for, DelMask, MaskForm};
use crate::ordmap::OrdMap;
use crate::segment::delta_store::{changed, groups_has, has_row, has_value, is_seen, rows_view, pruned, sees, with_before, CellDelta, DeltaKey, DeltaStore, DeltaStoreManager, DeltaView, StoreView};
use crate::segment::encoding::{extract_array_max, extract_array_min, missing, present};
use crate::segment::meta::{rows_left, CompareOp};
use crate::segment::overlay::SegmentOverlay;
use crate::segment::projection::{compares, ends, extract_column_from_predicate, filter_by_comparison, number_at, number_beside, parse_sort_predicate, selected, starts};
use crate::text::decimal;

verus! {

/// Of the rows of a segment, a deletion marks its own and no other.
pub proof fn law_deletion_marks_its_row(before: DelMask, after: DelMask, pos: u64, p: u64)
    requires
        delete_added(before, after, pos),
        pos <= u32::MAX,
        p < before.total_rows,
    ensures
        after.positions().contains(p) <==> before.positions().contains(p) || p == pos,
{
}

/// After a list of deletions, of the rows of a segment those are marked that were marked
/// before or are in the list.
pub proof fn law_deletions_mark_their_rows(
    before: DelMask,
    after: DelMask,
    positions: Seq<u64>,
    steps: Seq<DelMask>,
    p: u64,
)
    requires
        adds_all(before, after, positions, steps),
        forall|i: int| #![trigger positions[i]] 0 <= i < positions.len() ==> positions[i] <= u32::MAX,
        p < before.total_rows,
    ensures
        after.positions().contains(p) <==> before.positions().contains(p) || positions.contains(p),
    decreases positions.len(),
{
    if positions.len() == 0 {
        assert(steps[0] == steps.last());
    } else {
        let n = positions.len() - 1;
        let front = positions.drop_last();
        let fewer = steps.drop_last();
        assert forall|k: int| #![trigger fewer[k + 1]] 0 <= k < front.len() implies delete_added(
            fewer[k],
            fewer[k + 1],
            front[k],
        ) by {
            assert(fewer[k + 1] == steps[k + 1]);
            assert(fewer[k] == steps[k]);
        }
        assert forall|k: int| #![trigger fewer[k]] 0 <= k < fewer.len() implies fewer[k].total_rows
            == before.total_rows && fewer[k].compaction_threshold == before.compaction_threshold by {
            assert(fewer[k] == steps[k]);
        }
        assert(fewer.last() == steps[n]);
        law_deletions_mark_their_rows(before, steps[n], front, fewer, p);
        assert(steps[n + 1] == after);
        assert(delete_added(steps[n], steps[n + 1], positions[n]));
        law_deletion_marks_its_row(steps[n], after, positions[n], p);
        if positions.contains(p) {
            let i = positions.index_of(p);
            assert(positions[i] == p);
            if i < n {
                assert(front[i] == p);
            }
        }
        if front.contains(p) {
            let i = front.index_of(p);
            assert(positions[i] == p);
        }
    }
}

/// What a mask answers for a row, what it lists and what it counts agree.
pub proof fn law_mask_answers_agree(mask: &DelMask, pos: u64, deleted: bool, list: Vec<u64>, count: u64)
    requires
        mask.wf(),
        pos < mask.total_rows,
        call_ensures(DelMask::is_deleted, (mask, pos), deleted),
        call_ensures(DelMask::deleted_positions, (mask,), list),
        call_ensures(DelMask::deleted_count, (mask,), count),
    ensures
        deleted == list@.contains(pos),
        forall|i: int, j: int| #![trigger list@[i], list@[j]] 0 <= i < j < list@.len() ==> list@[i] < list@[j],
        count == list@.len(),
{
    let set = mask.positions();
    assert(list@.no_duplicates());
    list@.unique_seq_to_set();
    assert(list@.to_set() =~= set) by {
        assert forall|p: u64| list@.to_set().contains(p) <==> set.contains(p) by {
            assert(set.contains(p) <==> list@.contains(p));
        }
    }
}

/// Rows beyond the segment are not deleted.
pub proof fn law_no_row_beyond_is_deleted(mask: &DelMask, pos: u64, deleted: bool)
    requires
        pos >= mask.total_rows,
        call_ensures(DelMask::is_deleted, (mask, pos), deleted),
    ensures
        !deleted,
{
}

/// Less than one deleted row in a hundred is listed, more than the threshold makes a full
/// bitmap, and anything between a compressed one.
pub proof fn law_mask_takes_the_form_of_its_share(deleted: nat, total: u32, threshold: Ratio)
    requires
        total > 0,
    ensures
        100 * deleted < total ==> form_for(deleted as int, total, threshold) == MaskForm::SkipList,
        100 * deleted >= total && deleted * threshold.den > threshold.num * total ==> form_for(
            deleted as int,
            total,
            threshold,
        ) == MaskForm::FullBitmap,
        100 * deleted >= total && deleted * threshold.den <= threshold.num * total ==> form_for(
            deleted as int,
            total,
            threshold,
        ) == MaskForm::Roaring,
{
}

/// A segment is to be compacted when the share of its deleted rows is above the threshold.
pub proof fn law_compaction_is_due_above_the_threshold(mask: &DelMask, count: u64, due: bool)
    requires
        mask.wf(),
        mask.total_rows > 0,
        call_ensures(DelMask::deleted_count, (mask,), count),
        call_ensures(DelMask::needs_compaction, (mask,), due),
    ensures
        due == (count * mask.compaction_threshold.den > mask.compaction_threshold.num * mask.total_rows),
{
}

/// A full bitmap has eight rows to a byte, the first in the lowest place.
pub proof fn law_full_bitmap_has_eight_rows_to_a_byte(data: Seq<u8>, at: int)
    requires
        0 <= at < data.len(),
        8 * at + 7 <= u64::MAX,
    ensures
        bit_set(data, (8 * at) as u64) == (data[at] % 2 == 1),
        bit_set(data, (8 * at + 1) as u64) == (data[at] / 2 % 2 == 1),
        bit_set(data, (8 * at + 2) as u64) == (data[at] / 4 % 2 == 1),
        bit_set(data, (8 * at + 3) as u64) == (data[at] / 8 % 2 == 1),
        bit_set(data, (8 * at + 4) as u64) == (data[at] / 16 % 2 == 1),
        bit_set(data, (8 * at + 5) as u64) == (data[at] / 32 % 2 == 1),
        bit_set(data, (8 * at + 6) as u64) == (data[at] / 64 % 2 == 1),
        bit_set(data, (8 * at + 7) as u64) == (data[at] / 128 % 2 == 1),
{
    let b = data[at];
    assert((b >> 0u8) & 1 == b % 2 && (b >> 1u8) & 1 == b / 2 % 2 && (b >> 2u8) & 1 == b / 4 % 2 && (b >> 3u8)
        & 1 == b / 8 % 2 && (b >> 4u8) & 1 == b / 16 % 2 && (b >> 5u8) & 1 == b / 32 % 2 && (b >> 6u8) & 1 == b
        / 64 % 2 && (b >> 7u8) & 1 == b / 128 % 2) by (bit_vector);
}

/// The rows of a range that a mask keeps are those that it does not list as deleted.
pub proof fn law_rows_are_kept_or_deleted(
    mask: &AdaptiveDelMask,
    start: u32,
    end: u32,
    kept: Vec<u32>,
    deleted: Vec<u32>,
    row: u32,
    gone: bool,
    count: u64,
)
    requires
        mask.wf(),
        call_ensures(AdaptiveDelMask::filter_not_deleted, (mask, start, end), kept),
        call_ensures(AdaptiveDelMask::to_vec, (mask,), deleted),
        call_ensures(AdaptiveDelMask::is_deleted, (mask, row), gone),
        call_ensures(AdaptiveDelMask::deleted_count, (mask,), count),
    ensures
        kept@.contains(row) <==> start <= row < end && !deleted@.contains(row),
        gone == deleted@.contains(row),
        count == deleted@.len(),
        forall|i: int, j: int| #![trigger kept@[i], kept@[j]] 0 <= i < j < kept@.len() ==> kept@[i] < kept@[j],
        forall|i: int, j: int|
            #![trigger deleted@[i], deleted@[j]]
            0 <= i < j < deleted@.len() ==> deleted@[i] < deleted@[j],
{
    let set = mask@;
    assert(set.contains(row) <==> deleted@.contains(row));
    let left = crate::segment::adaptive_del_mask::rows_kept(set, start, end);
    assert(left.contains(row) <==> kept@.contains(row));
    crate::bitmap::lemma_lists_len(deleted@, set);
}

/// Whether the work of a transaction counts for a snapshot: it is not later, was not active,
/// and did not commit later.
pub open spec fn counts_for(txn: u64, snapshot: u64, active: Set<u64>, commits: Map<u64, u64>) -> bool {
    txn <= snapshot && !active.contains(txn) && !(commits.dom().contains(txn) && commits[txn] > snapshot)
}

/// A row is seen when the transaction that created it counts for the snapshot, and none
/// deleted it or the one that did does not count.
pub proof fn law_rows_are_seen_by_their_transactions(
    overlay: &SegmentOverlay,
    created: u64,
    deleted: Option<u64>,
    seen: bool,
)
    requires
        call_ensures(
            SegmentOverlay::is_row_visible::<VisibilityManager>,
            (overlay, &VisibilityManager {  }, created, deleted),
            seen,
        ),
    ensures
        !counts_for(created, overlay@.snapshot_id, overlay@.active, overlay@.commits) ==> !seen,
        counts_for(created, overlay@.snapshot_id, overlay@.active, overlay@.commits) && deleted is None
            ==> seen,
        counts_for(created, overlay@.snapshot_id, overlay@.active, overlay@.commits) && deleted is Some
            ==> seen == !counts_for(deleted->0, overlay@.snapshot_id, overlay@.active, overlay@.commits),
{
}

/// A reader is given the change of the latest committed transaction that changed a value;
/// none when no committed transaction did.
pub proof fn law_latest_committed_change_is_seen(
    store: &DeltaStore,
    col: &str,
    row: u64,
    r: Option<&CellDelta>,
)
    requires
        store.wf(),
        call_ensures(DeltaStore::get_visible_delta, (store, col, row), r),
    ensures
        match r {
            None => forall|t: u64|
                #![trigger store@.deltas.dom().contains((t, col@, row))]
                store@.committed.contains(t) ==> !store@.deltas.dom().contains((t, col@, row)),
            Some(d) => exists|t: u64|
                #![trigger store@.deltas.dom().contains((t, col@, row))]
                store@.deltas.dom().contains((t, col@, row)) && store@.committed.contains(t) && d@
                    == store@.deltas[(t, col@, row)] && forall|other: u64|
                    #![trigger store@.deltas.dom().contains((other, col@, row))]
                    store@.committed.contains(other) && store@.deltas.dom().contains((other, col@, row))
                        ==> other <= t,
        },
{
    match r {
        None => {
            assert forall|t: u64|
                #![trigger store@.deltas.dom().contains((t, col@, row))]
                store@.committed.contains(t) implies !store@.deltas.dom().contains((t, col@, row)) by {}
        },
        Some(d) => {
            let t = choose|t: u64| #[trigger] sees(store@, (t, col@, row)) && d@ == store@.deltas[(t, col@, row)];
            assert(store@.deltas.dom().contains((t, col@, row)));
            let key = (t, col@, row);
            assert forall|other: u64|
                #![trigger store@.deltas.dom().contains((other, col@, row))]
                store@.committed.contains(other) && store@.deltas.dom().contains((other, col@, row)) implies other
                <= t by {
                assert(store@.deltas.dom().contains((other, key.1, key.2)));
            }
        },
    }
}

/// The changes of a column that a reader is given are, row by row, those that it is given
/// for each row.
pub proof fn law_column_lists_what_each_row_shows(
    store: &DeltaStore,
    col: &str,
    row: u64,
    list: Vec<(u64, CellDelta)>,
    one: Option<&CellDelta>,
)
    requires
        store.wf(),
        call_ensures(DeltaStore::get_visible_deltas_for_column, (store, col), list),
        call_ensures(DeltaStore::get_visible_delta, (store, col, row), one),
    ensures
        forall|i: int, j: int|
            #![trigger list@[i], list@[j]]
            0 <= i < j < list@.len() ==> list@[i].0 < list@[j].0,
        one is None ==> forall|i: int| #![trigger list@[i]] 0 <= i < list@.len() ==> list@[i].0 != row,
        one matches Some(d) ==> exists|i: int|
            #![trigger list@[i]]
            0 <= i < list@.len() && list@[i].0 == row && list@[i].1@ == d@,
{
    let view = crate::segment::delta_store::rows_view(list@);
    let s = store@;
    assert forall|i: int| #![trigger list@[i]] 0 <= i < list@.len() implies view[i] == (list@[i].0, list@[i].1@) by {}
    assert forall|i: int, j: int| #![trigger list@[i], list@[j]] 0 <= i < j < list@.len() implies list@[i].0
        < list@[j].0 by {
        assert(view[i].0 < view[j].0);
    }
    match one {
        None => {
            assert forall|i: int| #![trigger list@[i]] 0 <= i < list@.len() implies list@[i].0 != row by {
                if list@[i].0 == row {
                    assert(is_seen(s, col@, view[i].0, Some(view[i].1)));
                    let t = choose|t: u64| #[trigger]
                        sees(s, (t, col@, view[i].0)) && view[i].1 == s.deltas[(t, col@, view[i].0)];
                    assert(s.deltas.dom().contains((t, col@, row)));
                    assert(changed(s, col@, row));
                }
            }
        },
        Some(d) => {
            let t = choose|t: u64| #[trigger] sees(s, (t, col@, row)) && d@ == s.deltas[(t, col@, row)];
            assert(s.deltas.dom().contains((t, col@, row)) && s.committed.contains(t));
            assert(changed(s, col@, row));
            assert(has_row(view, row));
            let i = choose|i: int| 0 <= i < view.len() && #[trigger] view[i].0 == row;
            assert(is_seen(s, col@, view[i].0, Some(view[i].1)));
            let u = choose|u: u64| #[trigger]
                sees(s, (u, col@, view[i].0)) && view[i].1 == s.deltas[(u, col@, view[i].0)];
            crate::segment::delta_store::law_one_change_is_seen(s, col@, row, t, u);
            assert(list@[i].0 == row);
        },
    }
}

/// Pruning removes the transactions up to one with their changes and no others; what a reader
/// saw of a later transaction it still sees.
pub proof fn law_pruning_removes_old_transactions(s: StoreView, cutoff: u64, key: DeltaKey)
    ensures
        pruned(s, cutoff).deltas.dom().contains(key) <==> s.deltas.dom().contains(key) && key.0 > cutoff,
        pruned(s, cutoff).deltas.dom().contains(key) ==> pruned(s, cutoff).deltas[key] == s.deltas[key],
        pruned(s, cutoff).committed.contains(key.0) <==> s.committed.contains(key.0) && key.0 > cutoff,
        pruned(s, cutoff).txns.contains(key.0) <==> s.txns.contains(key.0) && key.0 > cutoff,
        key.0 > cutoff ==> sees(pruned(s, cutoff), key) == sees(s, key),
        key.0 <= cutoff ==> !sees(pruned(s, cutoff), key),
{
    let n = pruned(s, cutoff);
    if key.0 > cutoff {
        if sees(n, key) {
            assert forall|t: u64|
                #![trigger s.deltas.dom().contains((t, key.1, key.2))]
                t > key.0 && s.committed.contains(t) implies !s.deltas.dom().contains((t, key.1, key.2)) by {
                assert(n.committed.contains(t));
                assert(!n.deltas.dom().contains((t, key.1, key.2)));
            }
        }
        if sees(s, key) {
            assert forall|t: u64|
                #![trigger n.deltas.dom().contains((t, key.1, key.2))]
                t > key.0 && n.committed.contains(t) implies !n.deltas.dom().contains((t, key.1, key.2)) by {
                assert(!s.deltas.dom().contains((t, key.1, key.2)));
            }
        }
    }
}

proof fn lemma_with_before(deltas: Map<DeltaKey, DeltaView>, keys: Seq<DeltaKey>, d: DeltaView)
    ensures
        with_before(deltas, keys).contains(d) <==> d.before is Some && exists|i: int|
            #![trigger keys[i]]
            0 <= i < keys.len() && deltas[keys[i]] == d,
    decreases keys.len(),
{
    if keys.len() > 0 {
        let front = keys.drop_last();
        let n = keys.len() - 1;
        lemma_with_before(deltas, front, d);
        let a = with_before(deltas, front);
        let b = with_before(deltas, keys);
        if b.contains(d) {
            let i = b.index_of(d);
            assert(b[i] == d);
            if i < a.len() {
                assert(a[i] == d);
                assert(a.contains(d));
                let k = choose|k: int| #![trigger front[k]] 0 <= k < front.len() && deltas[front[k]] == d;
                assert(keys[k] == front[k]);
            } else {
                assert(deltas[keys[n]] == d);
            }
        }
        if d.before is Some && exists|i: int| #![trigger keys[i]] 0 <= i < keys.len() && deltas[keys[i]] == d {
            let i = choose|i: int| #![trigger keys[i]] 0 <= i < keys.len() && deltas[keys[i]] == d;
            if i < n {
                assert(front[i] == keys[i]);
                assert(a.contains(d));
                let k = a.index_of(d);
                assert(b[k] == d);
            } else {
                assert(b[a.len() as int] == d);
            }
        }
    }
}

/// The images for taking back are the changes of the store that have an image of what was
/// there before, and no others.
pub proof fn law_before_images_are_complete(store: &DeltaStore, r: Vec<CellDelta>, d: DeltaView)
    requires
        store.wf(),
        call_ensures(DeltaStore::get_before_images, (store,), r),
    ensures
        (exists|i: int| #![trigger r@[i]] 0 <= i < r@.len() && r@[i]@ == d) <==> d.before is Some && exists|key:
            DeltaKey| #[trigger] store@.deltas.dom().contains(key) && store@.deltas[key] == d,
{
    let keys = store.keys();
    let deltas = store@.deltas;
    let list = r@.map_values(|d: CellDelta| d@);
    store.lemma_keys();
    lemma_with_before(deltas, keys, d);
    if exists|i: int| #![trigger r@[i]] 0 <= i < r@.len() && r@[i]@ == d {
        let i = choose|i: int| #![trigger r@[i]] 0 <= i < r@.len() && r@[i]@ == d;
        assert(list[i] == d);
        assert(list.contains(d));
        let k = choose|k: int| #![trigger keys[k]] 0 <= k < keys.len() && deltas[keys[k]] == d;
        assert(keys.contains(keys[k]));
        assert(keys.to_set().contains(keys[k]));
        assert(deltas.dom().contains(keys[k]));
    }
    if d.before is Some && exists|key: DeltaKey| #[trigger] deltas.dom().contains(key) && deltas[key] == d {
        let key = choose|key: DeltaKey| #[trigger] deltas.dom().contains(key) && deltas[key] == d;
        assert(keys.to_set().contains(key));
        assert(keys.contains(key));
        let k = keys.index_of(key);
        assert(keys[k] == key);
        assert(list.contains(d));
        let i = list.index_of(d);
        assert(r@[i]@ == d);
    }
}

/// A filter by comparison gives, in ascending order, exactly the rows whose number stands in
/// the relation to the value; a missing number counts as zero.
pub proof fn law_filter_gives_the_matching_rows(
    data: &Column,
    op: &CompareOp,
    value: i64,
    rows: Vec<u64>,
    row: u64,
)
    requires
        data.wf(),
        call_ensures(filter_by_comparison, (data, op, value), Ok(rows)),
        data@.cells.len() <= u64::MAX,
    ensures
        forall|i: int, j: int| #![trigger rows@[i], rows@[j]] 0 <= i < j < rows@.len() ==> rows@[i] < rows@[j],
        rows@.contains(row) <==> row < data@.cells.len() && {
            let n = match data@.cells[row as int] {
                Some(b) => crate::codec::signed_value(le_value(b), 8),
                None => 0,
            };
            match *op {
                CompareOp::Eq => n == value,
                CompareOp::Ne => n != value,
                CompareOp::Lt => n < value,
                CompareOp::Le => n <= value,
                CompareOp::Gt => n > value,
                CompareOp::Ge => n >= value,
            }
        },
{
    lemma_selected_rows(data@, *op, value as int, data@.cells.len(), row);
}

proof fn lemma_selected_rows(c: ColumnView, op: CompareOp, value: int, n: nat, row: u64)
    requires
        n <= c.cells.len() <= u64::MAX,
    ensures
        selected(c, op, value, n).contains(row) <==> row < n && compares(op, number_at(c, row as int), value),
        forall|i: int| #![trigger selected(c, op, value, n)[i]] 0 <= i < selected(c, op, value, n).len() ==> selected(
            c,
            op,
            value,
            n,
        )[i] < n,
        forall|i: int, j: int|
            #![trigger selected(c, op, value, n)[i], selected(c, op, value, n)[j]]
            0 <= i < j < selected(c, op, value, n).len() ==> selected(c, op, value, n)[i] < selected(
                c,
                op,
                value,
                n,
            )[j],
    decreases n,
{
    if n > 0 {
        let m = (n - 1) as nat;
        lemma_selected_rows(c, op, value, m, row);
        let a = selected(c, op, value, m);
        let b = selected(c, op, value, n);
        if b.contains(row) {
            let i = b.index_of(row);
            assert(b[i] == row);
            if i < a.len() {
                assert(a[i] == row);
            }
        }
        if a.contains(row) {
            let i = a.index_of(row);
            assert(b[i] == row);
        }
        if compares(op, number_at(c, n - 1), value) && row == n - 1 {
            assert(b[a.len() as int] == row);
        }
        assert forall|i: int| #![trigger b[i]] 0 <= i < b.len() implies b[i] < n by {
            if i < a.len() {
                assert(b[i] == a[i]);
            }
        }
        assert forall|i: int, j: int| #![trigger b[i], b[j]] 0 <= i < j < b.len() implies b[i] < b[j] by {
            assert(b[i] == a[i]);
            if j < a.len() {
                assert(b[j] == a[j]);
            }
        }
    }
}

/// The least value of a column is one of its numbers or texts, and none of them comes before
/// it; there is none only when the column has no value. Patterns that are no numbers do not
/// count.
pub proof fn law_minimum_is_the_least_value(column: &Column, r: Option<Vec<u8>>, i: int)
    requires
        column.wf(),
        column@.dtype != ColumnType::Boolean,
        column@.dtype != ColumnType::Other,
        call_ensures(extract_array_min, (column,), r),
    ensures
        r matches Some(m) ==> exists|k: int|
            #![trigger column@.cells[k]]
            0 <= k < column@.cells.len() && column@.cells[k] == Some(m@) && !is_nan(column@.dtype, m@),
        0 <= i < column@.cells.len() && column@.cells[i] is Some && !is_nan(
            column@.dtype,
            column@.cells[i]->0,
        ) ==> r is Some && !value_before(column@.dtype, column@.cells[i]->0, (r->0)@),
{
    let c = column@;
    if r is Some {
        let k = choose|k: int|
            #![trigger c.cells[k]]
            crate::segment::encoding::ranked(c, k) && c.cells[k]->0 == (r->0)@;
        assert(c.cells[k] == Some((r->0)@));
    }
}

/// The greatest value of a column is one of its numbers or texts, and comes before none of
/// them.
pub proof fn law_maximum_is_the_greatest_value(column: &Column, r: Option<Vec<u8>>, i: int)
    requires
        column.wf(),
        column@.dtype != ColumnType::Boolean,
        column@.dtype != ColumnType::Other,
        call_ensures(extract_array_max, (column,), r),
    ensures
        r matches Some(m) ==> exists|k: int|
            #![trigger column@.cells[k]]
            0 <= k < column@.cells.len() && column@.cells[k] == Some(m@) && !is_nan(column@.dtype, m@),
        0 <= i < column@.cells.len() && column@.cells[i] is Some && !is_nan(
            column@.dtype,
            column@.cells[i]->0,
        ) ==> r is Some && !value_before(column@.dtype, (r->0)@, column@.cells[i]->0),
{
    let c = column@;
    if r is Some {
        let k = choose|k: int|
            #![trigger c.cells[k]]
            crate::segment::encoding::ranked(c, k) && c.cells[k]->0 == (r->0)@;
        assert(c.cells[k] == Some((r->0)@));
    }
}

/// A truth value in a column lies between the least and the greatest one.
pub proof fn law_truth_values_lie_in_the_range(
    column: &Column,
    least: Option<Vec<u8>>,
    greatest: Option<Vec<u8>>,
    i: int,
)
    requires
        column.wf(),
        column@.dtype == ColumnType::Boolean,
        call_ensures(extract_array_min, (column,), least),
        call_ensures(extract_array_max, (column,), greatest),
        0 <= i < column@.cells.len(),
        column@.cells[i] is Some,
    ensures
        least is Some && greatest is Some,
        (least->0)@.len() == 1 && (greatest->0)@.len() == 1,
        (least->0)@[0] <= (column@.cells[i]->0)[0] <= (greatest->0)@[0],
        (least->0)@[0] == 0 ==> exists|k: int|
            #![trigger column@.cells[k]]
            0 <= k < column@.cells.len() && column@.cells[k] is Some && (column@.cells[k]->0)[0] == 0,
        (greatest->0)@[0] == 1 ==> exists|k: int|
            #![trigger column@.cells[k]]
            0 <= k < column@.cells.len() && column@.cells[k] is Some && (column@.cells[k]->0)[0] == 1,
{
    let c = column@;
    assert(column_fits(c));
    let b = c.cells[i]->0;
    assert(crate::column::fits(c.dtype, b));
}

/// Every cell of a column is present or missing.
pub proof fn law_cells_are_present_or_missing(cells: Seq<Option<Seq<u8>>>, i: int)
    ensures
        present(cells).len() + missing(cells) == cells.len(),
        0 <= i < cells.len() && cells[i] is Some ==> present(cells).contains(cells[i]->0),
        forall|k: int|
            #![trigger present(cells)[k]]
            0 <= k < present(cells).len() ==> cells.contains(Some(present(cells)[k])),
    decreases cells.len(),
{
    if cells.len() > 0 {
        let front = cells.drop_last();
        let n = cells.len() - 1;
        law_cells_are_present_or_missing(front, i);
        let a = present(front);
        let b = present(cells);
        if 0 <= i < n && cells[i] is Some {
            assert(front[i] == cells[i]);
            let k = a.index_of(cells[i]->0);
            assert(b[k] == cells[i]->0);
        }
        if i == n && cells[i] is Some {
            assert(b[a.len() as int] == cells[i]->0);
        }
        assert forall|k: int| #![trigger b[k]] 0 <= k < b.len() implies cells.contains(Some(b[k])) by {
            if k < a.len() {
                assert(b[k] == a[k]);
                assert(front.contains(Some(a[k])));
                let x = front.index_of(Some(a[k]));
                assert(cells[x] == Some(b[k]));
            } else {
                assert(cells[n] == Some(b[k]));
            }
        }
    }
}

/// The rows that are left are those that a share leaves, rounded down.
pub proof fn law_rows_left_are_the_share_that_is_not_deleted(rows: nat, deleted: Ratio)
    requires
        deleted.den > 0,
        deleted.num <= deleted.den,
    ensures
        rows_left(rows, deleted) <= rows,
        rows_left(rows, deleted) * deleted.den <= rows * (deleted.den - deleted.num),
        rows * (deleted.den - deleted.num) < (rows_left(rows, deleted) + 1) * deleted.den,
{
    let d = deleted.den as int;
    let p = rows * (d - deleted.num);
    let q = rows_left(rows, deleted) as int;
    assert(rows * (d - d) == 0) by (nonlinear_arith);
    if deleted.num == 0 {
        assert(q == rows);
        assert(rows * d < (rows + 1) * d) by (nonlinear_arith)
            requires
                d > 0,
        ;
    } else if deleted.num < deleted.den {
        assert(0 <= p <= rows * d) by (nonlinear_arith)
            requires
                p == rows * (d - deleted.num),
                0 <= deleted.num <= d,
        ;
        assert(q == p / d);
        assert(q * d <= p < (q + 1) * d && q <= rows) by (nonlinear_arith)
            requires
                q == p / d,
                d > 0,
                0 <= p <= rows * d,
        ;
    } else {
        assert(p == 0 && (q + 1) * d == d) by (nonlinear_arith)
            requires
                q == 0,
                p == rows * (d - deleted.num),
                deleted.num == d,
        ;
    }
}

/// The first and the last character of a text are white space, or those of the trimmed text.
proof fn lemma_trimmed_ends(s: Seq<char>)
    requires
        trimmed(s).len() > 0,
    ensures
        s.len() > 0,
        is_space(s[0]) || s[0] == trimmed(s)[0],
        is_space(s.last()) || s.last() == trimmed(s).last(),
{
    let t = trimmed_start(s);
    lemma_start(s);
    lemma_end(t);
}

proof fn lemma_start(s: Seq<char>)
    ensures
        trimmed_start(s).len() <= s.len(),
        trimmed_start(s).len() > 0 ==> s.len() > 0 && trimmed_start(s).last() == s.last() && (is_space(s[0])
            || trimmed_start(s)[0] == s[0]),
    decreases s.len(),
{
    if s.len() > 0 && is_space(s[0]) {
        lemma_start(s.skip(1));
        if s.len() > 1 {
            assert(s.skip(1).last() == s.last());
        }
    }
}

proof fn lemma_end(s: Seq<char>)
    ensures
        trimmed_end(s).len() <= s.len(),
        trimmed_end(s).len() > 0 ==> s.len() > 0 && trimmed_end(s)[0] == s[0] && (is_space(s.last())
            || trimmed_end(s).last() == s.last()),
    decreases s.len(),
{
    if s.len() > 0 && is_space(s.last()) {
        lemma_end(s.drop_last());
    }
}

/// The mark of a comparison.
pub open spec fn mark_of(op: CompareOp) -> Seq<char> {
    match op {
        CompareOp::Ge => seq!['>', '='],
        CompareOp::Le => seq!['<', '='],
        CompareOp::Gt => seq!['>'],
        CompareOp::Lt => seq!['<'],
        _ => seq!['='],
    }
}

/// A text that has a number behind the mark `mark` has no mark but `mark`.
proof fn lemma_no_mark(s: Seq<char>, op: CompareOp, rest: Seq<char>, other: CompareOp)
    requires
        op != CompareOp::Ne,
        other != CompareOp::Ne,
        s == mark_of(op) + rest,
        rest.len() > 0,
        is_space(rest[0]) || is_digit(rest[0]),
        is_space(rest.last()) || is_digit(rest.last()),
        op != other,
        other != CompareOp::Gt || op != CompareOp::Ge,
        other != CompareOp::Lt || op != CompareOp::Le,
    ensures
        number_beside(s, mark_of(other)) is None,
{
    let m = mark_of(other);
    assert(s.last() == rest.last());
    if starts(s, m) {
        assert(s.take(m.len() as int)[0] == m[0]);
        assert(s[0] == mark_of(op)[0]);
        if m.len() == 2 {
            assert(s.take(2)[1] == m[1]);
            if mark_of(op).len() == 1 {
                assert(s[1] == rest[0]);
            }
        }
    }
    if ends(s, m) {
        assert(s.skip(s.len() - m.len()).last() == s.last());
        assert(m.last() == s.last());
    }
}

/// A comparison is read as its mark says, with the number behind it.
pub proof fn law_predicates_are_read(
    predicate: &str,
    op: CompareOp,
    rest: Seq<char>,
    n: nat,
    r: Result<(CompareOp, i64), RockDuckError>,
)
    requires
        call_ensures(parse_sort_predicate, (predicate,), r),
        op != CompareOp::Ne,
        trimmed(predicate@) == mark_of(op) + rest,
        trimmed(rest) == decimal(n),
        n <= i64::MAX,
    ensures
        r == Ok::<(CompareOp, i64), RockDuckError>((op, n as i64)),
{
    let s = trimmed(predicate@);
    reveal_strlit(">=");
    reveal_strlit("<=");
    reveal_strlit(">");
    reveal_strlit("<");
    reveal_strlit("=");
    assert(">="@ =~= mark_of(CompareOp::Ge));
    assert("<="@ =~= mark_of(CompareOp::Le));
    assert(">"@ =~= mark_of(CompareOp::Gt));
    assert("<"@ =~= mark_of(CompareOp::Lt));
    assert("="@ =~= mark_of(CompareOp::Eq));
    law_decimal_is_read_back(n);
    lemma_trimmed_ends(rest);
    let m = mark_of(op);
    assert(s.take(m.len() as int) =~= m);
    assert(s.skip(m.len() as int) =~= rest);
    assert(number_beside(s, m) == Some(n as i64));
    if op != CompareOp::Ge {
        lemma_no_mark(s, op, rest, CompareOp::Ge);
        if op != CompareOp::Le {
            lemma_no_mark(s, op, rest, CompareOp::Le);
            if op != CompareOp::Gt {
                lemma_no_mark(s, op, rest, CompareOp::Gt);
                if op != CompareOp::Lt {
                    lemma_no_mark(s, op, rest, CompareOp::Lt);
                }
            }
        }
    }
}

proof fn lemma_first_of_at(s: Seq<char>, c: char, at: int)
    requires
        0 <= at < s.len(),
        s[at] == c,
        forall|i: int| #![trigger s[i]] 0 <= i < at ==> s[i] != c,
    ensures
        first_of(s, c, c) == at,
    decreases at,
{
    if at > 0 {
        assert(s[0] != c);
        let t = s.skip(1);
        assert(t[at - 1] == s[at]);
        assert forall|i: int| #![trigger t[i]] 0 <= i < at - 1 implies t[i] != c by {
            assert(t[i] == s[i + 1]);
        }
        lemma_first_of_at(t, c, at - 1);
    }
}

/// The column of a predicate is what stands before its first blank, and the comparison what
/// follows.
pub proof fn law_column_stands_before_the_blank(
    predicate: &str,
    column: Seq<char>,
    rest: Seq<char>,
    r: Option<(String, String)>,
)
    requires
        call_ensures(extract_column_from_predicate, (predicate,), r),
        trimmed(predicate@) == column + seq![' '] + rest,
        column.len() > 0,
        !column.contains(' '),
    ensures
        r is Some,
        (r->0).0@ == trimmed(column),
        (r->0).1@ == trimmed(seq![' '] + rest),
{
    let s = trimmed(predicate@);
    let at = column.len() as int;
    assert(s[at] == ' ');
    assert forall|i: int| #![trigger s[i]] 0 <= i < at implies s[i] != ' ' by {
        assert(column[i] == s[i]);
        assert(column.contains(column[i]));
    }
    lemma_first_of_at(s, ' ', at);
    assert(s.take(at) =~= column);
    assert(s.skip(at) =~= seq![' '] + rest);
}

/// The changes of a range of rows are those of the latest committed transactions, each value
/// once, from the first row up to the last, which is not among them.
pub proof fn law_range_lists_the_latest_changes(
    store: &DeltaStore,
    start: u64,
    end: u64,
    list: Vec<(u64, CellDelta)>,
    i: int,
    key: DeltaKey,
)
    requires
        store.wf(),
        call_ensures(DeltaStore::scan_deltas_in_range, (store, start, end), list),
    ensures
        0 <= i < list@.len() ==> start <= list@[i].0 < end && exists|t: u64|
            #![trigger store@.deltas.dom().contains((t, list@[i].1@.col, list@[i].0))]
            store@.committed.contains(t) && store@.deltas.dom().contains((t, list@[i].1@.col, list@[i].0))
                && list@[i].1@ == store@.deltas[(t, list@[i].1@.col, list@[i].0)] && forall|other: u64|
                #![trigger store@.deltas.dom().contains((other, list@[i].1@.col, list@[i].0))]
                store@.committed.contains(other) && store@.deltas.dom().contains(
                    (other, list@[i].1@.col, list@[i].0),
                ) ==> other <= t,
        forall|a: int, b: int|
            #![trigger list@[a], list@[b]]
            0 <= a < b < list@.len() ==> list@[a].0 < list@[b].0 || list@[a].0 == list@[b].0
                && list@[a].1@.col != list@[b].1@.col,
        store@.committed.contains(key.0) && store@.deltas.dom().contains(key) && start <= key.2 < end
            ==> exists|k: int|
            #![trigger list@[k]]
            0 <= k < list@.len() && list@[k].0 == key.2 && list@[k].1@.col == key.1,
{
    let view = rows_view(list@);
    let s = store@;
    assert forall|k: int| #![trigger list@[k]] 0 <= k < list@.len() implies view[k] == (list@[k].0, list@[k].1@) by {}
    if 0 <= i < list@.len() {
        let col = view[i].1.col;
        let row = view[i].0;
        assert(is_seen(s, col, row, Some(view[i].1)));
        let t = choose|t: u64| #[trigger] sees(s, (t, col, row)) && view[i].1 == s.deltas[(t, col, row)];
        let seen = (t, col, row);
        assert(s.deltas.dom().contains((t, list@[i].1@.col, list@[i].0)));
        assert forall|other: u64|
            #![trigger s.deltas.dom().contains((other, list@[i].1@.col, list@[i].0))]
            s.committed.contains(other) && s.deltas.dom().contains((other, list@[i].1@.col, list@[i].0)) implies other
            <= t by {
            assert(s.deltas.dom().contains((other, seen.1, seen.2)));
        }
    }
    assert forall|a: int, b: int| #![trigger list@[a], list@[b]] 0 <= a < b < list@.len() implies list@[a].0
        < list@[b].0 || list@[a].0 == list@[b].0 && list@[a].1@.col != list@[b].1@.col by {
        assert(view[a].0 == list@[a].0 && view[b].0 == list@[b].0);
        if list@[a].0 == list@[b].0 && list@[a].1@.col == list@[b].1@.col {
            crate::codec::lemma_bytes_irreflexive(vstd::utf8::encode_utf8(view[a].1.col));
        }
    }
    if s.committed.contains(key.0) && s.deltas.dom().contains(key) && start <= key.2 < end {
        assert(key == (key.0, key.1, key.2));
        assert(changed(s, key.1, key.2));
        assert(has_value(view, key.1, key.2));
        let k = choose|k: int| 0 <= k < view.len() && #[trigger] view[k].0 == key.2 && view[k].1.col == key.1;
        assert(list@[k].0 == key.2);
    }
}

/// The changes by column and row are, place by place, those that a reader is given for each.
pub proof fn law_groups_show_what_each_row_shows(
    store: &DeltaStore,
    groups: OrdMap<String, OrdMap<u64, CellDelta>>,
    col: &str,
    row: u64,
    one: Option<&CellDelta>,
)
    requires
        store.wf(),
        call_ensures(DeltaStore::get_all_visible_deltas, (store,), groups),
        call_ensures(DeltaStore::get_visible_delta, (store, col, row), one),
    ensures
        one is Some <==> groups@.dom().contains(col@) && groups@[col@]@.dom().contains(row),
        one matches Some(d) ==> groups@[col@]@[row]@ == d@,
{
    let s = store@;
    let has = groups_has(groups@, col@, row);
    match one {
        None => {
            assert(!changed(s, col@, row));
        },
        Some(d) => {
            let t = choose|t: u64| #[trigger] sees(s, (t, col@, row)) && d@ == s.deltas[(t, col@, row)];
            assert(s.deltas.dom().contains((t, col@, row)) && s.committed.contains(t));
            assert(changed(s, col@, row));
            let g = groups@[col@]@[row]@;
            assert(is_seen(s, col@, row, Some(g)));
            let u = choose|u: u64| #[trigger] sees(s, (u, col@, row)) && g == s.deltas[(u, col@, row)];
            crate::segment::delta_store::law_one_change_is_seen(s, col@, row, t, u);
        },
    }
}

/// A segment is listed, once, when its store holds a change.
pub proof fn law_changed_segments_are_listed(
    manager: &DeltaStoreManager,
    list: Vec<String>,
    seg_id: Seq<char>,
    key: DeltaKey,
    i: int,
    j: int,
)
    requires
        manager.wf(),
        call_ensures(DeltaStoreManager::segments_with_deltas, (manager,), list),
    ensures
        manager@.dom().contains(seg_id) && manager@[seg_id]@.deltas.dom().contains(key) ==> exists|k: int|
            #![trigger list@[k]]
            0 <= k < list@.len() && list@[k]@ == seg_id,
        0 <= i < list@.len() ==> manager@.dom().contains(list@[i]@) && exists|k: DeltaKey|
            #![trigger manager@[list@[i]@]@.deltas.dom().contains(k)]
            manager@[list@[i]@]@.deltas.dom().contains(k),
        0 <= i < j < list@.len() ==> list@[i]@ != list@[j]@,
{
    if manager@.dom().contains(seg_id) && manager@[seg_id]@.deltas.dom().contains(key) {
        assert(crate::text::lists_text(list@, seg_id));
    }
    if 0 <= i < list@.len() {
        let name = list@[i]@;
        assert(crate::text::lists_text(list@, name));
        let deltas = manager@[name]@.deltas;
        if forall|k: DeltaKey| !deltas.dom().contains(k) {
            assert(deltas =~= Map::<DeltaKey, DeltaView>::empty());
        }
        let k = choose|k: DeltaKey| deltas.dom().contains(k);
        assert(deltas.dom().contains(k));
    }
}

/// An overlay carries its snapshot: what is made of one gives it back, as a snapshot and as the
/// context of a reader.
pub proof fn law_overlay_carries_its_snapshot(
    snapshot: &TxnSnapshot,
    overlay: SegmentOverlay,
    back: TxnSnapshot,
    context: VisibilityContext,
    again: SegmentOverlay,
)
    requires
        call_ensures(SegmentOverlay::from_snapshot, (snapshot,), overlay),
        call_ensures(SegmentOverlay::as_snapshot, (&overlay,), back),
        call_ensures(SegmentOverlay::as_context, (&overlay,), context),
        call_ensures(SegmentOverlay::from_context, (context,), again),
    ensures
        back.snapshot_id == snapshot.snapshot_id,
        back.active_txns@ == snapshot.active_txns@,
        back.commit_ts_map@ == snapshot.commit_ts_map@,
        context.projection == VisibilityProjection::Online,
        context.snapshot_id == snapshot.snapshot_id,
        context.active_txns@ == snapshot.active_txns@,
        context.commit_ts_map@ == snapshot.commit_ts_map@,
        again@ == overlay@,
{
}

} // verus!
