//! What patches, deltas and delete masks do to the rows of a batch.
use vstd::prelude::*;
use crate::bitmap::{bitmap_rows, lemma_has_listing, lemma_listing, listing, lists};
use crate::column::{Batch, Column, ColumnType, ColumnView};
use crate::error::RockDuckError;
use crate::ipc::column_in;
use crate::ordmap::{is_stable_order, lemma_order_distinct};
use crate::storage::delta::mem_store::select;
use crate::storage::delta::merge::{apply_deltas_to_batch, apply_sparse_patch, cell_applied, cell_txns, cells_applied, column_merged, lemma_last_place, last_place, of_column, unmasked, DeltaMerger};
use crate::storage::delta::types::{cell_views, CellView, DeltaCell};

verus! {

/// Whether a delta has a value of a type for a row of a column.
pub open spec fn sets_row(d: CellView, name: Seq<char>, dtype: ColumnType, row: int) -> bool {
    &&& d.column == name
    &&& d.row_offset as u32 == row
    &&& d.after is Some
    &&& column_in(d.after->0) matches Ok(image) && image.dtype == dtype && image.cells.len() > 0
}

/// The value that a delta has.
pub open spec fn value_set(d: CellView) -> Option<Seq<u8>> {
    column_in(d.after->0)->Ok_0.cells[0]
}

/// One cell changes no row but its own.
proof fn lemma_cell_applied(c: ColumnView, d: CellView, row: int)
    requires
        0 <= row < c.cells.len(),
    ensures
        cell_applied(c, d).dtype == c.dtype,
        cell_applied(c, d).cells.len() == c.cells.len(),
        cell_applied(c, d).cells[row] == if sets_row(d, d.column, c.dtype, row) {
            value_set(d)
        } else {
            c.cells[row]
        },
{
    let x = d.row_offset as u32;
    let set = Set::<u32>::empty().insert(x);
    let list = seq![x];
    assert(lists(list, set)) by {
        assert(list[0] == x);
        assert forall|y: u32| #[trigger] set.contains(y) <==> list.contains(y) by {
            if list.contains(y) {
                let k = list.index_of(y);
                assert(list[k] == y);
            }
        }
    }
    lemma_listing(list, set);
    lemma_last_place(list, row);
}

/// After some cells, a row has the value of the last one that sets it.
proof fn lemma_cells_applied(c: ColumnView, cells: Seq<CellView>, order: Seq<usize>, row: int, k: int)
    requires
        0 <= row < c.cells.len(),
    ensures
        cells_applied(c, cells, order).dtype == c.dtype,
        cells_applied(c, cells, order).cells.len() == c.cells.len(),
        (forall|m: int|
            #![trigger order[m]]
            0 <= m < order.len() ==> !sets_row(
                cells[order[m] as int],
                cells[order[m] as int].column,
                c.dtype,
                row,
            )) ==> cells_applied(c, cells, order).cells[row] == c.cells[row],
        0 <= k < order.len() && sets_row(
            cells[order[k] as int],
            cells[order[k] as int].column,
            c.dtype,
            row,
        ) && (forall|m: int|
            #![trigger order[m]]
            k < m < order.len() ==> !sets_row(
                cells[order[m] as int],
                cells[order[m] as int].column,
                c.dtype,
                row,
            )) ==> cells_applied(c, cells, order).cells[row] == value_set(cells[order[k] as int]),
    decreases order.len(),
{
    if order.len() > 0 {
        let front = order.drop_last();
        let last = order.len() - 1;
        lemma_cells_applied(c, cells, front, row, k);
        lemma_cell_applied(cells_applied(c, cells, front), cells[order[last] as int], row);
        assert forall|m: int| #![trigger front[m]] 0 <= m < front.len() implies front[m] == order[m] by {}
        assert(order[last] == order.last());
        if 0 <= k < front.len() {
            assert(front[k] == order[k]);
        }
    }
}

/// Where the selected cells stand.
proof fn lemma_select_places(cells: Seq<CellView>, keep: spec_fn(CellView) -> bool) -> (places: Seq<int>)
    ensures
        places.len() == select(cells, keep).len() <= cells.len(),
        forall|k: int|
            #![trigger places[k]]
            0 <= k < places.len() ==> 0 <= places[k] < cells.len() && select(cells, keep)[k] == cells[places[k]]
                && keep(cells[places[k]]),
        forall|a: int, b: int|
            #![trigger places[a], places[b]]
            0 <= a < b < places.len() ==> places[a] < places[b],
        forall|i: int|
            #![trigger cells[i]]
            0 <= i < cells.len() && keep(cells[i]) ==> places.contains(i),
    decreases cells.len(),
{
    if cells.len() == 0 {
        Seq::empty()
    } else {
        let front = cells.drop_last();
        let n = cells.len() - 1;
        let was = lemma_select_places(front, keep);
        let places = if keep(cells[n]) {
            was.push(n)
        } else {
            was
        };
        assert forall|k: int| #![trigger places[k]] 0 <= k < places.len() implies 0 <= places[k]
            < cells.len() && select(cells, keep)[k] == cells[places[k]] && keep(cells[places[k]]) by {
            if k < was.len() {
                assert(places[k] == was[k]);
                assert(front[was[k]] == cells[was[k]]);
            }
        }
        assert forall|a: int, b: int|
            #![trigger places[a], places[b]]
            0 <= a < b < places.len() implies places[a] < places[b] by {
            assert(places[a] == was[a]);
            if b < was.len() {
                assert(places[b] == was[b]);
            }
        }
        assert forall|i: int| #![trigger cells[i]] 0 <= i < cells.len() && keep(cells[i]) implies places.contains(
            i,
        ) by {
            if i < n {
                assert(front[i] == cells[i]);
                let k = was.index_of(i);
                assert(places[k] == i);
            } else {
                assert(places[was.len() as int] == i);
            }
        }
        places
    }
}

/// Whether no delta for a row stands above the one at `w`: none has a later transaction,
/// and none of the same transaction is listed behind it.
pub open spec fn is_newest_delta(
    deltas: Seq<DeltaCell>,
    name: Seq<char>,
    dtype: ColumnType,
    row: int,
    w: int,
) -> bool {
    &&& 0 <= w < deltas.len()
    &&& sets_row(deltas[w]@, name, dtype, row)
    &&& forall|j: int|
        #![trigger deltas[j]]
        0 <= j < deltas.len() && j != w && sets_row(deltas[j]@, name, dtype, row) ==> deltas[j].txn_id
            < deltas[w].txn_id || deltas[j].txn_id == deltas[w].txn_id && j < w
}

/// Among deltas of which one sets a row there is a newest one.
proof fn lemma_newest_delta(deltas: Seq<DeltaCell>, name: Seq<char>, dtype: ColumnType, row: int, j: int) -> (w: int)
    requires
        0 <= j < deltas.len(),
        sets_row(deltas[j]@, name, dtype, row),
    ensures
        is_newest_delta(deltas, name, dtype, row, w),
    decreases deltas.len(),
{
    let front = deltas.drop_last();
    let n = deltas.len() - 1;
    assert forall|x: int| #![trigger deltas[x]] 0 <= x < n implies deltas[x] == front[x] by {}
    if exists|x: int| #![trigger front[x]] 0 <= x < n && sets_row(front[x]@, name, dtype, row) {
        let x = choose|x: int| #![trigger front[x]] 0 <= x < n && sets_row(front[x]@, name, dtype, row);
        let w = lemma_newest_delta(front, name, dtype, row, x);
        if sets_row(deltas[n]@, name, dtype, row) && deltas[n].txn_id >= deltas[w].txn_id {
            n
        } else {
            w
        }
    } else {
        assert(j < n ==> front[j] == deltas[j]);
        n
    }
}

/// The newest cell is the last one in the order of the transactions.
proof fn lemma_newest_is_last(
    deltas: Seq<DeltaCell>,
    name: Seq<char>,
    dtype: ColumnType,
    row: int,
    order: Seq<usize>,
    places: Seq<int>,
    w: int,
) -> (k: int)
    requires
        is_newest_delta(deltas, name, dtype, row, w),
        is_stable_order::<u64>(order, cell_txns(select(cell_views(deltas), of_column(name)))),
        places.len() == order.len() <= usize::MAX,
        forall|k: int|
            #![trigger places[k]]
            0 <= k < places.len() ==> 0 <= places[k] < deltas.len() && select(
                cell_views(deltas),
                of_column(name),
            )[k] == deltas[places[k]]@,
        forall|a: int, b: int|
            #![trigger places[a], places[b]]
            0 <= a < b < places.len() ==> places[a] < places[b],
        places.contains(w),
    ensures
        0 <= k < order.len(),
        places[order[k] as int] == w,
        forall|m: int|
            #![trigger order[m]]
            k < m < order.len() ==> !sets_row(deltas[places[order[m] as int]]@, name, dtype, row),
{
    let mine = select(cell_views(deltas), of_column(name));
    let keys = cell_txns(mine);
    let at = places.index_of(w);
    assert(places[at] == w);
    lemma_order_distinct::<u64>(order, keys);
    assert(order.contains(at as usize));
    let k = order.index_of(at as usize);
    assert(order[k] == at);
    assert forall|m: int| #![trigger order[m]] k < m < order.len() implies !sets_row(
        deltas[places[order[m] as int]]@,
        name,
        dtype,
        row,
    ) by {
        let x = order[m] as int;
        assert(order[k] < keys.len() && order[m] < keys.len());
        assert(places[x] < deltas.len());
        assert(keys[at] == deltas[w].txn_id);
        assert(keys[x] == deltas[places[x]].txn_id);
        if keys[x] == keys[at] {
            assert(at < x);
            assert(places[at] < places[x]);
        }
    }
    k
}

/// After deltas are applied to a batch, a cell has the value of the newest delta that has
/// one of the column's type for its row: of those of the latest transaction the one listed
/// last. A cell for which there is none stays as it was, and so do names, types and the
/// number of rows.
pub proof fn law_newest_delta_stays(
    merger: &DeltaMerger,
    batch: &Batch,
    deltas: &Vec<DeltaCell>,
    r: Batch,
    i: int,
    row: int,
)
    requires
        batch.wf(),
        call_ensures(apply_deltas_to_batch, (batch, deltas), r) || call_ensures(
            DeltaMerger::apply_deltas_to_batch,
            (merger, batch, deltas),
            r,
        ),
        0 <= i < batch@.columns.len(),
        0 <= row < batch@.columns[i].cells.len(),
    ensures
        r@.names == batch@.names,
        r@.columns.len() == batch@.columns.len(),
        r@.columns[i].dtype == batch@.columns[i].dtype,
        r@.columns[i].cells.len() == batch@.columns[i].cells.len(),
        forall|w: int| #[trigger]
            is_newest_delta(deltas@, batch@.names[i], batch@.columns[i].dtype, row, w)
                ==> r@.columns[i].cells[row] == value_set(deltas@[w]@),
        (exists|w: int| #[trigger]
            is_newest_delta(deltas@, batch@.names[i], batch@.columns[i].dtype, row, w)) || (forall|j: int|
            #![trigger deltas@[j]]
            0 <= j < deltas@.len() ==> !sets_row(
                deltas@[j]@,
                batch@.names[i],
                batch@.columns[i].dtype,
                row,
            )) && r@.columns[i].cells[row] == batch@.columns[i].cells[row],
{
    let name = batch@.names[i];
    let c = batch@.columns[i];
    let dtype = c.dtype;
    let all = cell_views(deltas@);
    let mine = select(all, of_column(name));
    let after = r@.columns[i];
    let order = choose|order: Seq<usize>| #[trigger] column_merged(c, after, mine, order);
    let places = lemma_select_places(all, of_column(name));
    assert(deltas.len() == all.len());
    assert forall|k: int| #![trigger places[k]] 0 <= k < places.len() implies mine[k] == deltas@[places[k]]@
        && deltas@[places[k]]@.column == name by {
        assert(all[places[k]] == deltas@[places[k]]@);
    }
    lemma_cells_applied(c, mine, order, row, 0);
    assert forall|w: int| #[trigger] is_newest_delta(deltas@, name, dtype, row, w) implies after.cells[row]
        == value_set(deltas@[w]@) by {
        assert(all[w] == deltas@[w]@);
        assert(places.contains(w));
        let k = lemma_newest_is_last(deltas@, name, dtype, row, order, places, w);
        assert(order[k] < mine.len());
        assert forall|m: int| #![trigger order[m]] k < m < order.len() implies !sets_row(
            mine[order[m] as int],
            mine[order[m] as int].column,
            dtype,
            row,
        ) by {
            let p = places[order[m] as int];
        }
        lemma_cells_applied(c, mine, order, row, k);
    }
    if exists|j: int| #![trigger deltas@[j]] 0 <= j < deltas@.len() && sets_row(deltas@[j]@, name, dtype, row) {
        let j = choose|j: int|
            #![trigger deltas@[j]]
            0 <= j < deltas@.len() && sets_row(deltas@[j]@, name, dtype, row);
        let w = lemma_newest_delta(deltas@, name, dtype, row, j);
    } else {
        assert forall|m: int| #![trigger order[m]] 0 <= m < order.len() implies !sets_row(
            mine[order[m] as int],
            mine[order[m] as int].column,
            dtype,
            row,
        ) by {
            assert(order[m] < mine.len());
            let p = places[order[m] as int];
            assert(deltas@[p]@.column == name);
        }
    }
}

/// The rows of a column that a mask leaves.
proof fn lemma_unmasked(cells: Seq<Option<Seq<u8>>>, mask: Set<u32>) -> (kept: Seq<int>)
    ensures
        unmasked(cells, mask).len() == kept.len(),
        forall|j: int|
            #![trigger kept[j]]
            0 <= j < kept.len() ==> 0 <= kept[j] < cells.len() && !(kept[j] <= u32::MAX && mask.contains(
                kept[j] as u32,
            )) && unmasked(cells, mask)[j] == cells[kept[j]],
        forall|a: int, b: int|
            #![trigger kept[a], kept[b]]
            0 <= a < b < kept.len() ==> kept[a] < kept[b],
        forall|k: int|
            0 <= k < cells.len() && !(k <= u32::MAX && mask.contains(k as u32)) ==> #[trigger] kept.contains(k),
    decreases cells.len(),
{
    if cells.len() == 0 {
        Seq::empty()
    } else {
        let front = cells.drop_last();
        let n = cells.len() - 1;
        let was = lemma_unmasked(front, mask);
        let marked = n <= u32::MAX && mask.contains(n as u32);
        let kept = if marked {
            was
        } else {
            was.push(n)
        };
        assert forall|j: int| #![trigger kept[j]] 0 <= j < kept.len() implies 0 <= kept[j] < cells.len() && !(
        kept[j] <= u32::MAX && mask.contains(kept[j] as u32)) && unmasked(cells, mask)[j] == cells[kept[j]] by {
            if j < was.len() {
                assert(kept[j] == was[j]);
                assert(front[was[j]] == cells[was[j]]);
            }
        }
        assert forall|a: int, b: int| #![trigger kept[a], kept[b]] 0 <= a < b < kept.len() implies kept[a]
            < kept[b] by {
            assert(kept[a] == was[a]);
            if b < was.len() {
                assert(kept[b] == was[b]);
            }
        }
        assert forall|k: int|
            0 <= k < cells.len() && !(k <= u32::MAX && mask.contains(k as u32)) implies #[trigger] kept.contains(
            k,
        ) by {
            if k < n {
                assert(was.contains(k));
                let j = was.index_of(k);
                assert(kept[j] == k);
            } else {
                assert(kept[was.len() as int] == k);
            }
        }
        kept
    }
}

/// Two ascending lists of the same numbers are equal.
proof fn lemma_same_rows(a: Seq<int>, b: Seq<int>)
    requires
        forall|i: int, j: int| #![trigger a[i], a[j]] 0 <= i < j < a.len() ==> a[i] < a[j],
        forall|i: int, j: int| #![trigger b[i], b[j]] 0 <= i < j < b.len() ==> b[i] < b[j],
        forall|k: int| #![trigger a.contains(k)] #![trigger b.contains(k)] a.contains(k) <==> b.contains(k),
    ensures
        a == b,
    decreases a.len(),
{
    if a.len() == 0 {
        if b.len() > 0 {
            assert(b.contains(b[0]));
        }
        assert(a =~= b);
    } else {
        assert(a.contains(a.last()));
        assert(b.contains(a.last()));
        assert(b.contains(b.last()));
        assert(a.contains(b.last()));
        let i = a.index_of(b.last());
        let j = b.index_of(a.last());
        assert(a[i] == b.last() && b[j] == a.last());
        if i < a.len() - 1 {
            assert(a[i] < a[a.len() - 1]);
        }
        if j < b.len() - 1 {
            assert(b[j] < b[b.len() - 1]);
        }
        let x = a.drop_last();
        let y = b.drop_last();
        assert forall|k: int| #![trigger x.contains(k)] #![trigger y.contains(k)] x.contains(k) <==> y.contains(k) by {
            if x.contains(k) {
                let p = x.index_of(k);
                assert(a[p] == k);
                assert(a[p] < a[a.len() - 1]);
                assert(a.contains(k));
                let q = b.index_of(k);
                assert(b[q] == k);
                assert(y[q] == k);
            }
            if y.contains(k) {
                let q = y.index_of(k);
                assert(b[q] == k);
                assert(b[q] < b[b.len() - 1]);
                assert(b.contains(k));
                let p = a.index_of(k);
                assert(a[p] == k);
                assert(x[p] == k);
            }
        }
        lemma_same_rows(x, y);
        assert(a =~= x.push(a.last()));
        assert(b =~= y.push(b.last()));
    }
}

/// A delete mask removes exactly the rows that it contains: `kept` lists in ascending order
/// the rows below the number of rows that the mask does not contain, and in every column
/// the result has, place by place, the cells of those rows.
pub proof fn law_delete_mask_keeps_the_other_rows(
    merger: &DeltaMerger,
    batch: &Batch,
    mask: &croaring::Bitmap,
    r: Batch,
) -> (kept: Seq<int>)
    requires
        batch.wf(),
        batch@.columns.len() > 0,
        call_ensures(DeltaMerger::apply_delete_mask, (merger, batch, mask), r),
    ensures
        forall|a: int, b: int|
            #![trigger kept[a], kept[b]]
            0 <= a < b < kept.len() ==> kept[a] < kept[b],
        forall|k: int| #[trigger]
            kept.contains(k) <==> 0 <= k < batch@.columns[0].cells.len() && !(k <= u32::MAX && bitmap_rows(
                *mask,
            ).contains(k as u32)),
        r@.names == batch@.names,
        r@.columns.len() == batch@.columns.len(),
        forall|i: int|
            #![trigger r@.columns[i]]
            0 <= i < r@.columns.len() ==> r@.columns[i].dtype == batch@.columns[i].dtype
                && r@.columns[i].cells.len() == kept.len(),
        forall|i: int, j: int|
            0 <= i < r@.columns.len() && 0 <= j < kept.len() ==> #[trigger] r@.columns[i].cells[j]
                == batch@.columns[i].cells[kept[j]],
{
    let set = bitmap_rows(*mask);
    let kept = lemma_unmasked(batch@.columns[0].cells, set);
    assert forall|k: int| #[trigger] kept.contains(k) <==> 0 <= k < batch@.columns[0].cells.len() && !(k
        <= u32::MAX && set.contains(k as u32)) by {
        if kept.contains(k) {
            let j = kept.index_of(k);
            assert(kept[j] == k);
        }
    }
    assert forall|i: int| #![trigger r@.columns[i]] 0 <= i < r@.columns.len() implies r@.columns[i].dtype
        == batch@.columns[i].dtype && r@.columns[i].cells == unmasked(batch@.columns[i].cells, set)
        && r@.columns[i].cells.len() == kept.len() && (forall|j: int|
        0 <= j < kept.len() ==> #[trigger] r@.columns[i].cells[j] == batch@.columns[i].cells[kept[j]]) by {
        let mine = lemma_unmasked(batch@.columns[i].cells, set);
        assert(batch@.columns[i].cells.len() == batch@.columns[0].cells.len());
        assert forall|k: int| #![trigger mine.contains(k)] #![trigger kept.contains(k)] mine.contains(k) <==> kept.contains(k) by {
            if mine.contains(k) {
                let j = mine.index_of(k);
                assert(mine[j] == k);
            }
        }
        lemma_same_rows(mine, kept);
        assert forall|j: int| 0 <= j < kept.len() implies #[trigger] r@.columns[i].cells[j]
            == batch@.columns[i].cells[kept[j]] by {
            assert(mine[j] == kept[j]);
        }
    }
    kept
}

/// A patch of some rows of a column: the rows of the set, in ascending order, take the values
/// of the patch one by one; every other row, and one for which there is no value, stays. The
/// patch has to be of the type of the column.
pub proof fn law_patched_rows_take_their_values(
    merger: &DeltaMerger,
    base: &Column,
    positions: &croaring::Bitmap,
    values: &[u8],
    r: Column,
    rows: Seq<u32>,
    k: int,
    row: int,
)
    requires
        base.wf(),
        call_ensures(apply_sparse_patch, (base, positions, values), Ok(r)) || call_ensures(
            DeltaMerger::apply_sparse_patch_vectorized,
            (merger, base, positions, values),
            Ok(r),
        ),
        lists(rows, bitmap_rows(*positions)),
    ensures
        r@.dtype == base@.dtype,
        r@.cells.len() == base@.cells.len(),
        0 <= k < rows.len() && rows[k] < base@.cells.len() ==> (column_in(values@) matches Ok(patch) && patch.dtype
            == base@.dtype && r@.cells[rows[k] as int] == if k < patch.cells.len() {
            patch.cells[k]
        } else {
            base@.cells[rows[k] as int]
        }),
        0 <= row < base@.cells.len() && (row > u32::MAX || !bitmap_rows(*positions).contains(row as u32))
            ==> r@.cells[row] == base@.cells[row],
{
    let set = bitmap_rows(*positions);
    lemma_listing(rows, set);
    if 0 <= k < rows.len() && rows[k] < base@.cells.len() {
        let at = rows[k] as int;
        lemma_last_place(rows, at);
        let p = last_place(rows, at)->0;
        assert(rows[p] == rows[k]);
        if p < k {
            assert(rows[p] < rows[k]);
        } else if k < p {
            assert(rows[k] < rows[p]);
        }
    }
    if 0 <= row < base@.cells.len() {
        lemma_last_place(rows, row);
        if let Some(p) = last_place(rows, row) {
            assert(rows.contains(rows[p]));
        }
    }
}

/// A patch of rows, of which some are in the column, has to be of the type of the column.
pub proof fn law_patch_has_the_type_of_the_column(
    base: &Column,
    positions: &croaring::Bitmap,
    values: &[u8],
    r: Result<Column, RockDuckError>,
    row: u32,
)
    requires
        base.wf(),
        call_ensures(apply_sparse_patch, (base, positions, values), r),
        base@.cells.len() > 0,
        bitmap_rows(*positions).contains(row),
    ensures
        r is Ok <==> (column_in(values@) matches Ok(patch) && patch.dtype == base@.dtype),
        column_in(values@) matches Ok(patch) ==> patch.dtype != base@.dtype ==> r == Err::<
            Column,
            RockDuckError,
        >(RockDuckError::TypeMismatch),
        column_in(values@) matches Err(e) ==> r == Err::<Column, RockDuckError>(e),
{
    let set = bitmap_rows(*positions);
    lemma_has_listing(set);
    assert(listing(set).contains(row));
    if listing(set).len() == 0 {
        assert(false);
    }
}

/// A patch of a batch changes the column of its name alone, as it would change that column by
/// itself; a name that no column has is refused.
pub proof fn law_batch_patch_changes_one_column(
    merger: &DeltaMerger,
    batch: &Batch,
    name: &str,
    positions: &croaring::Bitmap,
    values: &[u8],
    r: Result<Batch, RockDuckError>,
    i: int,
    alone: Result<Column, RockDuckError>,
)
    requires
        batch.wf(),
        call_ensures(
            DeltaMerger::apply_sparse_patch_to_batch,
            (merger, batch, name, positions, values),
            r,
        ),
        0 <= i < batch@.columns.len(),
        call_ensures(apply_sparse_patch, (&batch.columns@[i], positions, values), alone),
    ensures
        !batch@.names.contains(name@) ==> r == Err::<Batch, RockDuckError>(RockDuckError::ColumnNotFound),
        r matches Ok(b) ==> b@.names == batch@.names && b@.columns.len() == batch@.columns.len(),
        batch@.names[i] == name@ ==> (match (r, alone) {
            (Ok(b), Ok(c)) => b@.columns[i] == c@,
            (Err(e), Err(f)) => e == f,
            _ => false,
        }),
        batch@.names[i] != name@ ==> (r matches Ok(b) ==> b@.columns[i] == batch@.columns[i]),
{
    assert(batch@.columns[i] == batch.columns@[i]@);
    let names = batch@.names;
    if names[i] == name@ {
        assert(names.contains(name@));
        let k = names.index_of(name@);
        assert(names[k] == names[i]);
    }
    if names.contains(name@) {
        let k = names.index_of(name@);
        assert(names[k] == name@);
    }
}

/// A column that replaces one of a batch is that of the file, and every other column stays;
/// it has to be of the same type, and as long where there are others.
pub proof fn law_dense_patch_replaces_one_column(
    merger: &DeltaMerger,
    batch: &Batch,
    name: &str,
    values: &[u8],
    r: Result<Batch, RockDuckError>,
    i: int,
)
    requires
        batch.wf(),
        call_ensures(DeltaMerger::apply_dense_patch_to_batch, (merger, batch, name, values), r),
        0 <= i < batch@.columns.len(),
    ensures
        !batch@.names.contains(name@) ==> r == Err::<Batch, RockDuckError>(RockDuckError::ColumnNotFound),
        r matches Ok(b) ==> b@.names == batch@.names && b@.columns.len() == batch@.columns.len(),
        r is Ok && batch@.names[i] == name@ ==> (column_in(values@) matches Ok(c) && (r->Ok_0)@.columns[i] == c
            && c.dtype == batch@.columns[i].dtype),
        r is Ok && batch@.names[i] != name@ ==> (r->Ok_0)@.columns[i] == batch@.columns[i],
        batch@.names[i] == name@ ==> (r is Ok <==> (column_in(values@) matches Ok(c) && c.dtype
            == batch@.columns[i].dtype && (c.cells.len() == batch@.columns[i].cells.len()
            || batch@.columns.len() == 1))),
{
    let names = batch@.names;
    if names[i] == name@ {
        assert(names.contains(name@));
        let k = names.index_of(name@);
        assert(names[k] == names[i]);
    }
    if names.contains(name@) {
        let k = names.index_of(name@);
        assert(names[k] == name@);
    }
}

/// Nothing behind the last place of a row is the row.
proof fn lemma_behind_last_place(rows: Seq<u32>, row: int, k: int)
    requires
        0 <= k < rows.len(),
        rows[k] == row,
    ensures
        last_place(rows, row) matches Some(p) && k <= p < rows.len(),
    decreases rows.len(),
{
    if rows.last() != row {
        let front = rows.drop_last();
        assert(front[k] == rows[k]);
        lemma_behind_last_place(front, row, k);
    }
}

/// Of two lists of cells, a row takes the cell of the patch that is listed last for it, and
/// keeps its own where none is.
pub proof fn law_blended_rows_take_the_last_value(
    merger: &DeltaMerger,
    base: &Column,
    patch: &Column,
    rows: &Vec<u32>,
    r: Column,
    row: int,
    k: int,
)
    requires
        call_ensures(DeltaMerger::apply_sparse_filter, (merger, base, patch, rows), r) || call_ensures(
            DeltaMerger::blend_arrays,
            (merger, base, patch, rows),
            r,
        ),
        0 <= row < base@.cells.len(),
    ensures
        r@.dtype == base@.dtype,
        r@.cells.len() == base@.cells.len(),
        (forall|x: int| #![trigger rows@[x]] 0 <= x < rows@.len() ==> rows@[x] != row) ==> r@.cells[row]
            == base@.cells[row],
        0 <= k < rows@.len() && rows@[k] == row && (forall|x: int|
            #![trigger rows@[x]]
            k < x < rows@.len() ==> rows@[x] != row) ==> r@.cells[row] == if k < patch@.cells.len() {
            patch@.cells[k]
        } else {
            base@.cells[row]
        },
{
    lemma_last_place(rows@, row);
    if let Some(p) = last_place(rows@, row) {
        assert(rows@[p] == row);
        if 0 <= k < rows@.len() && rows@[k] == row {
            lemma_behind_last_place(rows@, row, k);
        }
    }
}

} // verus!
