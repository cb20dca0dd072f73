//! Merging of deltas from several layers.
//!
//! Cells are identified by segment, column and row; among the cells of one
//! identity the one with the highest transaction wins.
use vstd::prelude::*;
use std::collections::{HashMap, HashSet};
use crate::bitmap::{bitmap_add, bitmap_contains, bitmap_list, bitmap_new, bitmap_rows, lemma_listing, listing, lists};
use crate::column::{batch_fits, column_fits, copy_cell, fits, Batch, BatchView, Column, ColumnType, ColumnView};
use crate::error::RockDuckError;
use crate::ipc::{cell_view, cells_view, column_in, decode_ipc_column};
use crate::ordmap::{is_stable_order, key_views, stable_order, OrdKey, OrdMap};
use crate::ratio::{is_below, Ratio};
use crate::storage::delta::mem_store::select;
use crate::storage::delta::types::{cell_views, txn_visible, CellView, DeltaCell};
use crate::text::text_same;

verus! {

/// Segment, column and row of a cell.
pub type CellKey = (String, String, u64);

/// The identity of a cell.
pub open spec fn cell_key(c: CellView) -> (Seq<char>, Seq<char>, u64) {
    (c.seg_id, c.column, c.row_offset)
}

/// The cell at `i` wins its identity: it passes `ok`, every earlier cell of the
/// identity that passes has a lower transaction, and no later one a higher.
pub open spec fn wins(cells: Seq<CellView>, ok: spec_fn(CellView) -> bool, i: int) -> bool {
    &&& 0 <= i < cells.len()
    &&& ok(cells[i])
    &&& forall|j: int|
        #![trigger cells[j]]
        0 <= j < cells.len() && j != i && ok(cells[j]) && cell_key(cells[j]) == cell_key(cells[i])
            ==> if j < i {
            cells[j].txn_id < cells[i].txn_id
        } else {
            cells[j].txn_id <= cells[i].txn_id
        }
}

/// `c` is one of the winners among `cells`.
pub open spec fn is_winner(cells: Seq<CellView>, ok: spec_fn(CellView) -> bool, c: CellView) -> bool {
    exists|i: int| wins(cells, ok, i) && cells[i] == c
}

/// `merged` lists the winners among `cells`, in ascending order of identity.
pub open spec fn is_merge(
    merged: Seq<CellView>,
    cells: Seq<CellView>,
    ok: spec_fn(CellView) -> bool,
) -> bool {
    &&& forall|a: int, b: int|
        #![trigger merged[a], merged[b]]
        0 <= a < b < merged.len() ==> <CellKey as OrdKey>::before(
            cell_key(merged[a]),
            cell_key(merged[b]),
        )
    &&& forall|a: int|
        #![trigger merged[a]]
        0 <= a < merged.len() ==> is_winner(cells, ok, merged[a])
    &&& forall|i: int| #[trigger] wins(cells, ok, i) ==> merged.contains(cells[i])
}

/// The cells of all layers, one layer after the other.
pub open spec fn all_cells(layers: Seq<Vec<DeltaCell>>) -> Seq<CellView>
    decreases layers.len(),
{
    if layers.len() == 0 {
        Seq::empty()
    } else {
        all_cells(layers.drop_last()) + cell_views(layers.last()@)
    }
}

/// The cells that a snapshot sees.
pub open spec fn seen_by(
    snapshot: u64,
    commits: Map<u64, u64>,
    active: Set<u64>,
) -> spec_fn(CellView) -> bool {
    |c: CellView| txn_visible(c.txn_id, snapshot, commits, active)
}

/// The winners so far, by identity.
spec fn tracks(m: Map<(Seq<char>, Seq<char>, u64), DeltaCell>, cells: Seq<CellView>, ok: spec_fn(CellView) -> bool) -> bool {
    &&& forall|k: (Seq<char>, Seq<char>, u64)| #[trigger]
        m.dom().contains(k) ==> cell_key(m[k]@) == k && is_winner(cells, ok, m[k]@)
    &&& forall|i: int|
        #![trigger cells[i]]
        0 <= i < cells.len() && ok(cells[i]) ==> m.dom().contains(cell_key(cells[i]))
}

/// Of the cells of one identity that pass, one wins, and it is not older than any.
pub proof fn lemma_latest_wins(cells: Seq<CellView>, ok: spec_fn(CellView) -> bool, j: int) -> (w: int)
    requires
        0 <= j < cells.len(),
        ok(cells[j]),
    ensures
        wins(cells, ok, w),
        cell_key(cells[w]) == cell_key(cells[j]),
        cells[w].txn_id >= cells[j].txn_id,
    decreases cells.len(),
{
    let n = cells.len() - 1;
    let front = cells.drop_last();
    let key = cell_key(cells[j]);
    assert forall|x: int| #![trigger cells[x]] 0 <= x < n implies cells[x] == front[x] by {}
    if exists|x: int| #![trigger front[x]] 0 <= x < n && ok(front[x]) && cell_key(front[x]) == key {
        let x = if j < n {
            j
        } else {
            choose|x: int| #![trigger front[x]] 0 <= x < n && ok(front[x]) && cell_key(front[x]) == key
        };
        let w = lemma_latest_wins(front, ok, x);
        if ok(cells[n]) && cell_key(cells[n]) == key && cells[n].txn_id > front[w].txn_id {
            n
        } else {
            w
        }
    } else {
        assert(j < n ==> front[j] == cells[j]);
        n
    }
}

/// Cells of distinct winners have distinct identities.
pub proof fn lemma_wins_unique(
    cells: Seq<CellView>,
    ok: spec_fn(CellView) -> bool,
    i: int,
    j: int,
)
    requires
        wins(cells, ok, i),
        wins(cells, ok, j),
        cell_key(cells[i]) == cell_key(cells[j]),
    ensures
        i == j,
{
}

/// Collects the winners of a growing sequence of cells.
pub(crate) struct Latest {
    map: OrdMap<CellKey, DeltaCell>,
    seen: Ghost<Seq<CellView>>,
    ok: Ghost<spec_fn(CellView) -> bool>,
}

impl Latest {
    pub(crate) closed spec fn seen(&self) -> Seq<CellView> {
        self.seen@
    }

    pub(crate) closed spec fn ok(&self) -> spec_fn(CellView) -> bool {
        self.ok@
    }

    pub(crate) closed spec fn wf(&self) -> bool {
        self.map.wf() && tracks(self.map@, self.seen@, self.ok@)
    }

    pub(crate) fn new(Ghost(ok): Ghost<spec_fn(CellView) -> bool>) -> (r: Self)
        ensures
            r.wf(),
            r.seen() == Seq::<CellView>::empty(),
            r.ok() == ok,
    {
        Latest { map: OrdMap::new(), seen: Ghost(Seq::empty()), ok: Ghost(ok) }
    }

    /// Takes in one more cell; `passes` says whether it counts.
    pub(crate) fn offer(&mut self, cell: &DeltaCell, passes: bool)
        requires
            old(self).wf(),
            passes == old(self).ok()(cell@),
        ensures
            final(self).wf(),
            final(self).ok() == old(self).ok(),
            final(self).seen() == old(self).seen().push(cell@),
    {
        let ghost cells = self.seen@;
        let ghost next = cells.push(cell@);
        let ghost ok = self.ok@;
        let ghost m = self.map@;
        proof {
            assert forall|i: int| #[trigger] wins(cells, ok, i) && (!passes || cell_key(cells[i])
                != cell_key(cell@) || cells[i].txn_id >= cell@.txn_id) implies wins(next, ok, i) by {
                assert(next[i] == cells[i]);
                assert forall|j: int|
                    #![trigger next[j]]
                    0 <= j < next.len() && j != i && ok(next[j]) && cell_key(next[j]) == cell_key(
                        next[i],
                    ) implies if j < i {
                    next[j].txn_id < next[i].txn_id
                } else {
                    next[j].txn_id <= next[i].txn_id
                } by {
                    if j < cells.len() {
                        assert(next[j] == cells[j]);
                    }
                }
            }
        }
        if passes {
            let key: CellKey = (cell.seg_id.clone(), cell.column.clone(), cell.row_offset);
            assert(key@ == cell_key(cell@));
            let take = match self.map.get(&key) {
                None => true,
                Some(held) => cell.txn_id > held.txn_id,
            };
            if take {
                let _ = self.map.insert(key, cell.clone());
                proof {
                    let n = cells.len() as int;
                    assert(next[n] == cell@);
                    assert(wins(next, ok, n)) by {
                        assert forall|j: int|
                            #![trigger next[j]]
                            0 <= j < next.len() && j != n && ok(next[j]) && cell_key(next[j])
                                == cell_key(next[n]) implies next[j].txn_id < next[n].txn_id by {
                            assert(next[j] == cells[j]);
                            let k = cell_key(cell@);
                            assert(m.dom().contains(k));
                            let w = choose|w: int| wins(cells, ok, w) && cells[w] == m[k]@;
                            assert(cells[j].txn_id <= cells[w].txn_id);
                        }
                    }
                }
            } else {
                proof {
                    let k = cell_key(cell@);
                    let w = choose|w: int| wins(cells, ok, w) && cells[w] == m[k]@;
                    assert(wins(next, ok, w));
                }
            }
        }
        self.seen = Ghost(next);
        proof {
            assert forall|k: (Seq<char>, Seq<char>, u64)| #[trigger]
                self.map@.dom().contains(k) implies cell_key(self.map@[k]@) == k && is_winner(
                next,
                ok,
                self.map@[k]@,
            ) by {
                if self.map@[k]@ != cell@ || !passes || m.dom().contains(k) && self.map@[k] == m[k] {
                    let w = choose|w: int| wins(cells, ok, w) && cells[w] == m[k]@;
                    assert(next[w] == cells[w]);
                    assert(wins(next, ok, w));
                } else {
                    assert(next[cells.len() as int] == cell@);
                }
            }
            assert forall|i: int|
                #![trigger next[i]]
                0 <= i < next.len() && ok(next[i]) implies self.map@.dom().contains(
                cell_key(next[i]),
            ) by {
                if i < cells.len() {
                    assert(next[i] == cells[i]);
                }
            }
        }
    }

    /// The winners in ascending order of identity.
    pub(crate) fn finish(self) -> (r: Vec<DeltaCell>)
        requires
            self.wf(),
        ensures
            is_merge(cell_views(r@), self.seen(), self.ok()),
    {
        let ghost map = self.map;
        let ghost cells = self.seen@;
        let ghost ok = self.ok@;
        let r = self.map.into_values();
        proof {
            let views = cell_views(r@);
            assert forall|a: int| #![trigger views[a]] 0 <= a < views.len() implies cell_key(views[a])
                == map.keys()[a] && is_winner(cells, ok, views[a]) by {
                map.lemma_index(a);
                assert(r@[a] == map.value_of(a));
                let k = map.keys()[a];
                assert(map@.dom().contains(k));
                let w = choose|w: int| wins(cells, ok, w) && cells[w] == map@[k]@;
                assert(wins(cells, ok, w) && cells[w] == views[a]);
            }
            assert forall|a: int, b: int|
                #![trigger views[a], views[b]]
                0 <= a < b < views.len() implies <CellKey as OrdKey>::before(
                cell_key(views[a]),
                cell_key(views[b]),
            ) by {
                assert(CellKey::before(map.keys()[a], map.keys()[b]));
            }
            assert forall|i: int| #[trigger] wins(cells, ok, i) implies views.contains(cells[i]) by {
                let k = cell_key(cells[i]);
                assert(map@.dom().contains(k));
                let a = map.lemma_key(k);
                let w = choose|w: int| wins(cells, ok, w) && cells[w] == map@[k]@;
                lemma_wins_unique(cells, ok, i, w);
                assert(r@[a] == map.value_of(a));
                assert(views[a] == cells[i]);
            }
        }
        r
    }
}

/// Merges deltas of several layers.
#[derive(Debug, Clone, Copy, PartialEq, Eq, Structural)]
pub struct DeltaMerger {}

impl Default for DeltaMerger {
    fn default() -> (r: Self)
        ensures
            r == (DeltaMerger {  }),
    {
        DeltaMerger {  }
    }
}

impl DeltaMerger {
    pub fn new() -> (r: Self)
        ensures
            r == (DeltaMerger {  }),
    {
        DeltaMerger {  }
    }

    /// Keeps, of all visible deltas of one identity, the one of the highest
    /// transaction, and lists what is kept by segment, column and row.
    pub fn k_way_merge(
        &self,
        layers: Vec<Vec<DeltaCell>>,
        snapshot_txn: u64,
        commit_ts_by_txn: &HashMap<u64, u64>,
        active_txns: &HashSet<u64>,
    ) -> (r: Vec<DeltaCell>)
        ensures
            is_merge(
                cell_views(r@),
                all_cells(layers@),
                seen_by(snapshot_txn, commit_ts_by_txn@, active_txns@),
            ),
    {
        let ghost ok = seen_by(snapshot_txn, commit_ts_by_txn@, active_txns@);
        let mut latest = Latest::new(Ghost(ok));
        let mut l: usize = 0;
        assert(layers@.take(0) =~= Seq::empty());
        while l < layers.len()
            invariant
                l <= layers@.len(),
                latest.wf(),
                latest.ok() == ok,
                ok == seen_by(snapshot_txn, commit_ts_by_txn@, active_txns@),
                latest.seen() == all_cells(layers@.take(l as int)),
            decreases layers@.len() - l,
        {
            let layer: &Vec<DeltaCell> = &layers[l];
            let ghost start = latest.seen();
            let mut i: usize = 0;
            assert(start + cell_views(layer@.take(0)) =~= start);
            while i < layer.len()
                invariant
                    i <= layer@.len(),
                    latest.wf(),
                    latest.ok() == ok,
                    ok == seen_by(snapshot_txn, commit_ts_by_txn@, active_txns@),
                    latest.seen() == start + cell_views(layer@.take(i as int)),
                decreases layer@.len() - i,
            {
                let cell: &DeltaCell = &layer[i];
                let passes = cell.is_visible_at_commit(snapshot_txn, commit_ts_by_txn, active_txns);
                latest.offer(cell, passes);
                i = i + 1;
                assert(start + cell_views(layer@.take(i as int)) =~= (start + cell_views(
                    layer@.take(i - 1),
                )).push(cell@));
            }
            assert(layer@.take(i as int) =~= layer@);
            l = l + 1;
            assert(layers@.take(l as int).drop_last() =~= layers@.take(l - 1));
        }
        assert(layers@.take(l as int) =~= layers@);
        latest.finish()
    }
}

/// Keeps the latest visible delta of each identity.
pub fn k_way_merge(
    layers: Vec<Vec<DeltaCell>>,
    snapshot_txn: u64,
    commit_ts_by_txn: &HashMap<u64, u64>,
    active_txns: &HashSet<u64>,
) -> (r: Vec<DeltaCell>)
    ensures
        is_merge(
            cell_views(r@),
            all_cells(layers@),
            seen_by(snapshot_txn, commit_ts_by_txn@, active_txns@),
        ),
{
    DeltaMerger::default().k_way_merge(layers, snapshot_txn, commit_ts_by_txn, active_txns)
}

/// The last place of a row in a list.
pub open spec fn last_place(rows: Seq<u32>, row: int) -> Option<int>
    decreases rows.len(),
{
    if rows.len() == 0 {
        None
    } else if rows.last() == row {
        Some(rows.len() - 1)
    } else {
        last_place(rows.drop_last(), row)
    }
}

/// A column after a patch: a row that is listed among the patched rows takes the
/// patch value of its place, of its last place if it is listed more than once;
/// every other row stays, and so does one for which there is no patch value.
pub open spec fn blended(base: Seq<Option<Seq<u8>>>, patch: Seq<Option<Seq<u8>>>, rows: Seq<u32>) -> Seq<
    Option<Seq<u8>>,
> {
    Seq::new(
        base.len(),
        |i: int|
            match last_place(rows, i) {
                Some(k) => if k < patch.len() {
                    patch[k]
                } else {
                    base[i]
                },
                None => base[i],
            },
    )
}

/// A row has a place in a list that holds it, and it is there.
pub proof fn lemma_last_place(rows: Seq<u32>, row: int)
    ensures
        match last_place(rows, row) {
            Some(k) => 0 <= k < rows.len() && rows[k] == row,
            None => forall|k: int| #![trigger rows[k]] 0 <= k < rows.len() ==> rows[k] != row,
        },
    decreases rows.len(),
{
    if rows.len() > 0 && rows.last() != row {
        let front = rows.drop_last();
        lemma_last_place(front, row);
        assert forall|k: int| #![trigger rows[k]] 0 <= k < rows.len() - 1 implies rows[k] == front[k] by {}
    }
}

/// A column after a patch of some rows, given as an IPC file of one value for
/// each of them, or why it cannot be patched.
pub open spec fn sparse_patched(base: ColumnView, rows: Set<u32>, patch: Seq<u8>) -> Result<
    ColumnView,
    RockDuckError,
> {
    if base.cells.len() == 0 || listing(rows).len() == 0 {
        Ok(base)
    } else {
        match column_in(patch) {
            Err(e) => Err(e),
            Ok(p) => if p.dtype != base.dtype {
                Err(RockDuckError::TypeMismatch)
            } else {
                Ok(
                    ColumnView {
                        dtype: base.dtype,
                        cells: blended(base.cells, p.cells, listing(rows)),
                    },
                )
            },
        }
    }
}

/// The cells of the rows that a mask does not mark.
pub open spec fn unmasked(cells: Seq<Option<Seq<u8>>>, mask: Set<u32>) -> Seq<Option<Seq<u8>>>
    decreases cells.len(),
{
    if cells.len() == 0 {
        Seq::empty()
    } else {
        let front = unmasked(cells.drop_last(), mask);
        let row = cells.len() - 1;
        if row <= u32::MAX && mask.contains(row as u32) {
            front
        } else {
            front.push(cells.last())
        }
    }
}

/// A batch without the rows that a mask marks.
pub open spec fn batch_unmasked(b: BatchView, mask: Set<u32>) -> BatchView {
    BatchView {
        names: b.names,
        columns: b.columns.map_values(
            |c: ColumnView| ColumnView { dtype: c.dtype, cells: unmasked(c.cells, mask) },
        ),
    }
}

proof fn lemma_unmasked_len(a: Seq<Option<Seq<u8>>>, b: Seq<Option<Seq<u8>>>, mask: Set<u32>)
    requires
        a.len() == b.len(),
    ensures
        unmasked(a, mask).len() == unmasked(b, mask).len(),
    decreases a.len(),
{
    if a.len() > 0 {
        lemma_unmasked_len(a.drop_last(), b.drop_last(), mask);
    }
}

/// What is left of a column is of its type.
proof fn lemma_unmasked_fits(dtype: ColumnType, cells: Seq<Option<Seq<u8>>>, mask: Set<u32>)
    requires
        column_fits(ColumnView { dtype, cells }),
    ensures
        column_fits(ColumnView { dtype, cells: unmasked(cells, mask) }),
    decreases cells.len(),
{
    if cells.len() > 0 {
        let front = ColumnView { dtype, cells: cells.drop_last() };
        let all = ColumnView { dtype, cells };
        assert forall|i: int| #![trigger front.cells[i]] 0 <= i < front.cells.len() implies match front.cells[i] {
            Some(b) => fits(dtype, b),
            None => true,
        } by {
            assert(front.cells[i] == all.cells[i]);
        }
        lemma_unmasked_fits(dtype, cells.drop_last(), mask);
        let left = ColumnView { dtype, cells: unmasked(cells, mask) };
        let was = ColumnView { dtype, cells: unmasked(cells.drop_last(), mask) };
        assert forall|i: int| #![trigger left.cells[i]] 0 <= i < left.cells.len() implies match left.cells[i] {
            Some(b) => fits(dtype, b),
            None => true,
        } by {
            if i < was.cells.len() {
                assert(left.cells[i] == was.cells[i]);
            } else {
                assert(left.cells[i] == all.cells[cells.len() - 1]);
            }
        }
    }
}

proof fn lemma_blended_fits(base: ColumnView, patch: ColumnView, rows: Seq<u32>)
    requires
        column_fits(base),
        column_fits(patch),
        patch.dtype == base.dtype,
    ensures
        column_fits(
            ColumnView { dtype: base.dtype, cells: blended(base.cells, patch.cells, rows) },
        ),
{
    let c = ColumnView { dtype: base.dtype, cells: blended(base.cells, patch.cells, rows) };
    assert forall|i: int| #![trigger c.cells[i]] 0 <= i < c.cells.len() implies match c.cells[i] {
        Some(b) => fits(c.dtype, b),
        None => true,
    } by {
        let r = base.cells[i];
        lemma_last_place(rows, i);
        if let Some(k) = last_place(rows, i) {
            if k < patch.cells.len() {
                let p = patch.cells[k];
                assert(c.cells[i] == p);
            }
        }
    }
}

impl DeltaMerger {
    /// Patches some rows of a column; the cells of all other rows stay as they
    /// are. Few rows are set one by one, many in one walk over the column.
    pub fn apply_sparse_patch_vectorized(
        &self,
        base: &Column,
        positions: &croaring::Bitmap,
        patch_values: &[u8],
    ) -> (r: Result<Column, RockDuckError>)
        requires
            base.wf(),
        ensures
            match r {
                Ok(c) => c.wf() && sparse_patched(base@, bitmap_rows(*positions), patch_values@)
                    == Ok::<ColumnView, RockDuckError>(c@),
                Err(e) => sparse_patched(base@, bitmap_rows(*positions), patch_values@) == Err::<
                    ColumnView,
                    RockDuckError,
                >(e),
            },
    {
        let rows = bitmap_list(positions);
        proof {
            lemma_listing(rows@, bitmap_rows(*positions));
        }
        if base.len() == 0 || rows.len() == 0 {
            return Ok(base.copy());
        }
        let patch = match decode_ipc_column(patch_values) {
            Ok(p) => p,
            Err(e) => return Err(e),
        };
        if patch.dtype != base.dtype {
            return Err(RockDuckError::TypeMismatch);
        }
        proof {
            lemma_blended_fits(base@, patch@, rows@);
        }
        if is_below(rows.len() as u64, base.len() as u64, Ratio { num: 1, den: 100 }) {
            Ok(self.apply_sparse_filter(base, &patch, &rows))
        } else {
            Ok(self.blend_arrays(base, &patch, &rows))
        }
    }

    /// Sets the patched rows one by one.
    pub fn apply_sparse_filter(&self, base: &Column, patch: &Column, rows: &Vec<u32>) -> (r: Column)
        ensures
            r@ == (ColumnView {
                dtype: base@.dtype,
                cells: blended(base@.cells, patch@.cells, rows@),
            }),
    {
        let mut r = base.copy();
        let ghost b = base@.cells;
        let ghost p = patch@.cells;
        let mut k: usize = 0;
        proof {
            assert(rows@.take(0) =~= Seq::empty());
            assert(r@.cells =~= blended(b, p, rows@.take(0)));
        }
        while k < rows.len()
            invariant
                k <= rows@.len(),
                b == base@.cells,
                p == patch@.cells,
                p.len() == patch.cells@.len(),
                b.len() == base.cells@.len(),
                r.dtype == base.dtype,
                r.cells@.len() == b.len(),
                r@.cells == blended(b, p, rows@.take(k as int)),
            decreases rows@.len() - k,
        {
            let row: u32 = rows[k];
            let ghost now = rows@.take(k as int);
            let ghost next = rows@.take(k + 1);
            let ghost before = r@.cells;
            proof {
                assert(next.drop_last() =~= now);
                assert(next.last() == row);
            }
            if (row as u64) < r.cells.len() as u64 {
                let cell = if k < patch.cells.len() {
                    assert(p[k as int] == cell_view(patch.cells@[k as int]));
                    copy_cell(&patch.cells[k])
                } else {
                    assert(b[row as int] == cell_view(base.cells@[row as int]));
                    copy_cell(&base.cells[row as usize])
                };
                r.cells.set(row as usize, cell);
            }
            proof {
                assert(r@.cells =~= blended(b, p, next)) by {
                    assert forall|i: int| 0 <= i < b.len() implies r@.cells[i] == blended(b, p, next)[i] by {
                        if i != row {
                            assert(r@.cells[i] == before[i]);
                            assert(before[i] == blended(b, p, now)[i]);
                        }
                    }
                }
            }
            k = k + 1;
        }
        assert(rows@.take(k as int) =~= rows@);
        r
    }

    /// The place of the patch value of each row, if it has one.
    fn patch_places(rows: &Vec<u32>, total: usize) -> (r: Vec<Option<usize>>)
        ensures
            r@.len() == total,
            forall|i: int|
                #![trigger r@[i]]
                0 <= i < total ==> match r@[i] {
                    Some(k) => last_place(rows@, i) == Some(k as int),
                    None => last_place(rows@, i) is None,
                },
    {
        let mut places: Vec<Option<usize>> = Vec::new();
        let mut i: usize = 0;
        while i < total
            invariant
                i <= total,
                places@.len() == i,
                forall|j: int| #![trigger places@[j]] 0 <= j < i ==> places@[j] is None,
            decreases total - i,
        {
            places.push(None);
            i = i + 1;
        }
        let mut k: usize = 0;
        assert(rows@.take(0) =~= Seq::empty());
        while k < rows.len()
            invariant
                k <= rows@.len(),
                places@.len() == total,
                forall|i: int|
                    #![trigger places@[i]]
                    0 <= i < total ==> match places@[i] {
                        Some(at) => last_place(rows@.take(k as int), i) == Some(at as int),
                        None => last_place(rows@.take(k as int), i) is None,
                    },
            decreases rows@.len() - k,
        {
            let row: u32 = rows[k];
            let ghost before = places@;
            proof {
                assert(rows@.take(k + 1).drop_last() =~= rows@.take(k as int));
                assert(rows@.take(k + 1).last() == row);
            }
            if (row as u64) < total as u64 {
                places.set(row as usize, Some(k));
            }
            assert forall|i: int| #![trigger places@[i]] 0 <= i < total implies match places@[i] {
                Some(at) => last_place(rows@.take(k + 1), i) == Some(at as int),
                None => last_place(rows@.take(k + 1), i) is None,
            } by {
                if i != row {
                    assert(places@[i] == before[i]);
                }
            }
            k = k + 1;
        }
        assert(rows@.take(k as int) =~= rows@);
        places
    }

    /// Walks over a column and takes the patch value at each patched row.
    pub fn blend_arrays(&self, base: &Column, patch: &Column, rows: &Vec<u32>) -> (r: Column)
        ensures
            r@ == (ColumnView {
                dtype: base@.dtype,
                cells: blended(base@.cells, patch@.cells, rows@),
            }),
    {
        let ghost b = base@.cells;
        let ghost p = patch@.cells;
        let places = Self::patch_places(rows, base.cells.len());
        let mut cells: Vec<Option<Vec<u8>>> = Vec::new();
        let mut i: usize = 0;
        while i < base.cells.len()
            invariant
                i <= base.cells@.len() == b.len(),
                b == base@.cells,
                p == patch@.cells,
                p.len() == patch.cells@.len(),
                places@.len() == b.len(),
                forall|j: int|
                    #![trigger places@[j]]
                    0 <= j < b.len() ==> match places@[j] {
                        Some(k) => last_place(rows@, j) == Some(k as int),
                        None => last_place(rows@, j) is None,
                    },
                cells@.len() == i,
                forall|j: int|
                    #![trigger cells@[j]]
                    0 <= j < i ==> cell_view(cells@[j]) == blended(b, p, rows@)[j],
            decreases base.cells@.len() - i,
        {
            assert(b[i as int] == cell_view(base.cells@[i as int]));
            let cell = match places[i] {
                Some(k) => if k < patch.cells.len() {
                    assert(p[k as int] == cell_view(patch.cells@[k as int]));
                    copy_cell(&patch.cells[k])
                } else {
                    copy_cell(&base.cells[i])
                },
                None => copy_cell(&base.cells[i]),
            };
            cells.push(cell);
            i = i + 1;
        }
        let r = Column { dtype: base.dtype, cells };
        assert(r@.cells =~= blended(b, p, rows@));
        r
    }

    /// A batch without the rows that a mask marks.
    pub fn apply_delete_mask(&self, batch: &Batch, mask: &croaring::Bitmap) -> (r: Batch)
        requires
            batch.wf(),
        ensures
            r.wf(),
            r@ == batch_unmasked(batch@, bitmap_rows(*mask)),
    {
        let ghost rows = bitmap_rows(*mask);
        let mut r = batch.copy();
        let mut columns: Vec<Column> = Vec::new();
        let mut i: usize = 0;
        while i < batch.columns.len()
            invariant
                i <= batch.columns@.len(),
                rows == bitmap_rows(*mask),
                columns@.len() == i,
                forall|k: int|
                    #![trigger columns@[k]]
                    0 <= k < i ==> columns@[k]@ == (ColumnView {
                        dtype: batch.columns@[k].dtype,
                        cells: unmasked(batch.columns@[k]@.cells, rows),
                    }),
            decreases batch.columns@.len() - i,
        {
            columns.push(self.filter_column(&batch.columns[i], mask));
            i = i + 1;
        }
        r.columns = columns;
        proof {
            let was = batch@;
            let now = r@;
            assert forall|k: int| #![trigger now.columns[k]] 0 <= k < now.columns.len() implies now.columns[k]
                == batch_unmasked(was, rows).columns[k] by {
                assert(was.columns[k] == batch.columns@[k]@);
                assert(columns@[k]@ == now.columns[k]);
            }
            assert(now =~= batch_unmasked(was, rows));
            assert forall|a: int, b: int|
                #![trigger now.columns[a], now.columns[b]]
                0 <= a < now.columns.len() && 0 <= b < now.columns.len() implies now.columns[a].cells.len()
                == now.columns[b].cells.len() by {
                lemma_unmasked_len(was.columns[a].cells, was.columns[b].cells, rows);
            }
            assert forall|a: int| #![trigger now.columns[a]] 0 <= a < now.columns.len() implies column_fits(
                now.columns[a],
            ) by {
                lemma_unmasked_fits(was.columns[a].dtype, was.columns[a].cells, rows);
            }
        }
        r
    }

    fn filter_column(&self, column: &Column, mask: &croaring::Bitmap) -> (r: Column)
        ensures
            r@ == (ColumnView {
                dtype: column.dtype,
                cells: unmasked(column@.cells, bitmap_rows(*mask)),
            }),
    {
        let ghost rows = bitmap_rows(*mask);
        let ghost all = column@.cells;
        let mut cells: Vec<Option<Vec<u8>>> = Vec::new();
        let mut i: usize = 0;
        proof {
            assert(all.take(0) =~= Seq::empty());
            assert(cells_view(cells@) =~= Seq::empty());
        }
        while i < column.cells.len()
            invariant
                i <= column.cells@.len() == all.len(),
                all == column@.cells,
                rows == bitmap_rows(*mask),
                cells_view(cells@) == unmasked(all.take(i as int), rows),
            decreases column.cells@.len() - i,
        {
            let marked = i as u64 <= 0xffff_ffff && bitmap_contains(mask, i as u32);
            proof {
                assert(all[i as int] == cell_view(column.cells@[i as int]));
                assert(all.take(i + 1).drop_last() =~= all.take(i as int));
            }
            if !marked {
                let cell = copy_cell(&column.cells[i]);
                assert(cells_view(cells@.push(cell)) =~= cells_view(cells@).push(cell_view(cell)));
                cells.push(cell);
            }
            i = i + 1;
        }
        assert(all.take(i as int) =~= all);
        Column { dtype: column.dtype, cells }
    }
}

/// A batch with another column in one place.
pub open spec fn with_column(b: BatchView, at: int, c: ColumnView) -> BatchView {
    BatchView { names: b.names, columns: b.columns.update(at, c) }
}

/// A batch after one of its columns was patched at some rows.
pub open spec fn batch_sparse_patched(
    b: BatchView,
    name: Seq<char>,
    rows: Set<u32>,
    patch: Seq<u8>,
) -> Result<BatchView, RockDuckError> {
    if !b.names.contains(name) {
        Err(RockDuckError::ColumnNotFound)
    } else {
        let at = b.names.index_of(name);
        match sparse_patched(b.columns[at], rows, patch) {
            Err(e) => Err(e),
            Ok(c) => Ok(with_column(b, at, c)),
        }
    }
}

/// A batch after one of its columns was replaced by the column of an IPC file,
/// which has to be as long and of the same type.
pub open spec fn batch_dense_patched(b: BatchView, name: Seq<char>, values: Seq<u8>) -> Result<
    BatchView,
    RockDuckError,
> {
    if !b.names.contains(name) {
        Err(RockDuckError::ColumnNotFound)
    } else {
        let at = b.names.index_of(name);
        match column_in(values) {
            Err(e) => Err(e),
            Ok(c) => if c.cells.len() != b.columns[at].cells.len() && b.columns.len() > 1 {
                Err(RockDuckError::LengthMismatch)
            } else if c.dtype != b.columns[at].dtype {
                Err(RockDuckError::TypeMismatch)
            } else {
                Ok(with_column(b, at, c))
            },
        }
    }
}

/// A column after one cell was applied to it: its after-image, if it has one, is
/// the patch of its row. A patch that cannot be applied changes nothing.
pub open spec fn cell_applied(c: ColumnView, cell: CellView) -> ColumnView {
    match cell.after {
        None => c,
        Some(image) => match sparse_patched(
            c,
            Set::empty().insert(cell.row_offset as u32),
            image,
        ) {
            Ok(patched) => patched,
            Err(_) => c,
        },
    }
}

/// A column after cells were applied to it in an order.
pub open spec fn cells_applied(c: ColumnView, cells: Seq<CellView>, order: Seq<usize>) -> ColumnView
    decreases order.len(),
{
    if order.len() == 0 {
        c
    } else {
        cell_applied(cells_applied(c, cells, order.drop_last()), cells[order.last() as int])
    }
}

/// The cells of a column.
pub open spec fn of_column(name: Seq<char>) -> spec_fn(CellView) -> bool {
    |c: CellView| c.column == name
}

/// The transactions of some cells.
pub open spec fn cell_txns(cells: Seq<CellView>) -> Seq<u64> {
    cells.map_values(|c: CellView| c.txn_id)
}

/// `after` is a column after the cells of its name were applied to it, in the
/// order of their transactions.
pub open spec fn column_merged(before: ColumnView, after: ColumnView, cells: Seq<CellView>, order: Seq<usize>) -> bool {
    is_stable_order::<u64>(order, cell_txns(cells)) && after == cells_applied(before, cells, order)
}

/// Some order of the cells' transactions leads from a column to another.
pub open spec fn merges_column(before: ColumnView, after: ColumnView, cells: Seq<CellView>) -> bool {
    exists|order: Seq<usize>| #[trigger] column_merged(before, after, cells, order)
}

/// `after` is a batch after deltas were applied to it, column by column.
pub open spec fn batch_merged(before: BatchView, after: BatchView, deltas: Seq<CellView>) -> bool {
    &&& after.names == before.names
    &&& after.columns.len() == before.columns.len()
    &&& forall|i: int|
        #![trigger after.columns[i]]
        0 <= i < after.columns.len() ==> merges_column(
            before.columns[i],
            after.columns[i],
            select(deltas, of_column(before.names[i])),
        )
}

proof fn lemma_place(names: Seq<Seq<char>>, i: int)
    requires
        names.no_duplicates(),
        0 <= i < names.len(),
    ensures
        names.contains(names[i]),
        names.index_of(names[i]) == i,
{
    let k = names.index_of(names[i]);
    assert(names[k] == names[i]);
}

proof fn lemma_with_column(b: BatchView, at: int, c: ColumnView)
    requires
        batch_fits(b),
        0 <= at < b.columns.len(),
        column_fits(c),
        c.cells.len() == b.columns[at].cells.len() || b.columns.len() == 1,
    ensures
        batch_fits(with_column(b, at, c)),
{
    let n = with_column(b, at, c);
    assert forall|i: int, j: int|
        #![trigger n.columns[i], n.columns[j]]
        0 <= i < n.columns.len() && 0 <= j < n.columns.len() implies n.columns[i].cells.len()
        == n.columns[j].cells.len() by {
        let x = b.columns[i];
        let y = b.columns[j];
        let z = b.columns[at];
    }
    assert forall|i: int| #![trigger n.columns[i]] 0 <= i < n.columns.len() implies column_fits(
        n.columns[i],
    ) by {
        let x = b.columns[i];
    }
}

/// The bitmap of one row.
fn row_bitmap(row: u32) -> (b: croaring::Bitmap)
    ensures
        bitmap_rows(b) == Set::empty().insert(row),
{
    let mut b = bitmap_new();
    bitmap_add(&mut b, row);
    b
}

impl DeltaMerger {
    /// Patches some rows of one column of a batch.
    pub fn apply_sparse_patch_to_batch(
        &self,
        batch: &Batch,
        column_name: &str,
        positions: &croaring::Bitmap,
        patch_values: &[u8],
    ) -> (r: Result<Batch, RockDuckError>)
        requires
            batch.wf(),
        ensures
            match r {
                Ok(b) => b.wf() && batch_sparse_patched(
                    batch@,
                    column_name@,
                    bitmap_rows(*positions),
                    patch_values@,
                ) == Ok::<BatchView, RockDuckError>(b@),
                Err(e) => batch_sparse_patched(
                    batch@,
                    column_name@,
                    bitmap_rows(*positions),
                    patch_values@,
                ) == Err::<BatchView, RockDuckError>(e),
            },
    {
        let at: usize = match batch.index_of(column_name) {
            Some(i) => i,
            None => return Err(RockDuckError::ColumnNotFound),
        };
        proof {
            lemma_place(batch@.names, at as int);
            assert(batch@.columns[at as int] == batch.columns@[at as int]@);
            assert(column_fits(batch@.columns[at as int]));
        }
        let patched = match self.apply_sparse_patch_vectorized(
            &batch.columns[at],
            positions,
            patch_values,
        ) {
            Ok(c) => c,
            Err(e) => return Err(e),
        };
        let mut r = batch.copy();
        let ghost c = patched@;
        r.columns.set(at, patched);
        proof {
            assert(r@ =~= with_column(batch@, at as int, c));
            lemma_with_column(batch@, at as int, c);
        }
        Ok(r)
    }

    /// Replaces one column of a batch.
    pub fn apply_dense_patch_to_batch(
        &self,
        batch: &Batch,
        column_name: &str,
        dense_values: &[u8],
    ) -> (r: Result<Batch, RockDuckError>)
        requires
            batch.wf(),
        ensures
            match r {
                Ok(b) => b.wf() && batch_dense_patched(batch@, column_name@, dense_values@) == Ok::<
                    BatchView,
                    RockDuckError,
                >(b@),
                Err(e) => batch_dense_patched(batch@, column_name@, dense_values@) == Err::<
                    BatchView,
                    RockDuckError,
                >(e),
            },
    {
        let at: usize = match batch.index_of(column_name) {
            Some(i) => i,
            None => return Err(RockDuckError::ColumnNotFound),
        };
        proof {
            lemma_place(batch@.names, at as int);
            assert(batch@.columns[at as int] == batch.columns@[at as int]@);
        }
        let column = match decode_ipc_column(dense_values) {
            Ok(c) => c,
            Err(e) => return Err(e),
        };
        if column.len() != batch.columns[at].len() && batch.columns.len() > 1 {
            return Err(RockDuckError::LengthMismatch);
        }
        if column.dtype != batch.columns[at].dtype {
            return Err(RockDuckError::TypeMismatch);
        }
        let mut r = batch.copy();
        let ghost c = column@;
        r.columns.set(at, column);
        proof {
            assert(r@ =~= with_column(batch@, at as int, c));
            lemma_with_column(batch@, at as int, c);
        }
        Ok(r)
    }

    /// Applies one cell to a column.
    fn apply_cell(&self, column: Column, cell: &DeltaCell) -> (r: Column)
        requires
            column.wf(),
        ensures
            r.wf(),
            r@ == cell_applied(column@, cell@),
    {
        match &cell.after {
            None => column,
            Some(image) => {
                #[verifier::truncate]
                let row: u32 = cell.row_offset as u32;
                let rows = row_bitmap(row);
                match self.apply_sparse_patch_vectorized(&column, &rows, image.as_slice()) {
                    Ok(patched) => patched,
                    Err(_) => column,
                }
            },
        }
    }

    /// Applies to a column the deltas of its name, in the order of their
    /// transactions.
    fn merge_column(&self, column: &Column, name: &String, deltas: &Vec<DeltaCell>) -> (r: Column)
        requires
            column.wf(),
        ensures
            r.wf(),
            r@.cells.len() == column@.cells.len(),
            merges_column(column@, r@, select(cell_views(deltas@), of_column(name@))),
    {
        let ghost all = cell_views(deltas@);
        let ghost mine = select(all, of_column(name@));
        let mut places: Vec<usize> = Vec::new();
        let mut txns: Vec<u64> = Vec::new();
        let mut i: usize = 0;
        assert(all.take(0) =~= Seq::empty());
        while i < deltas.len()
            invariant
                i <= deltas@.len(),
                all == cell_views(deltas@),
                places@.len() == txns@.len(),
                places@.len() == select(all.take(i as int), of_column(name@)).len(),
                forall|k: int|
                    #![trigger places@[k]]
                    0 <= k < places@.len() ==> places@[k] < i && all[places@[k] as int] == select(
                        all.take(i as int),
                        of_column(name@),
                    )[k] && txns@[k] == all[places@[k] as int].txn_id,
            decreases deltas@.len() - i,
        {
            let d: &DeltaCell = &deltas[i];
            let ghost now = select(all.take(i as int), of_column(name@));
            let ghost was = places@;
            proof {
                assert(all[i as int] == d@);
                assert(all.take(i + 1).drop_last() =~= all.take(i as int));
            }
            if text_same(d.column.as_str(), name.as_str()) {
                places.push(i);
                txns.push(d.txn_id);
                proof {
                    let next = select(all.take(i + 1), of_column(name@));
                    assert(next == now.push(d@));
                    assert forall|k: int| #![trigger places@[k]] 0 <= k < places@.len() implies places@[k] < i
                        + 1 && all[places@[k] as int] == next[k] && txns@[k]
                        == all[places@[k] as int].txn_id by {
                        if k < was.len() {
                            assert(places@[k] == was[k]);
                        }
                    }
                }
            }
            i = i + 1;
        }
        assert(all.take(i as int) =~= all);
        let order = stable_order(&txns);
        proof {
            assert(key_views(txns@) =~= cell_txns(mine)) by {
                assert forall|k: int| 0 <= k < txns@.len() implies txns@[k] == #[trigger] cell_txns(mine)[k] by {
                    let p = places@[k];
                }
            }
        }
        let mut r = column.copy();
        let mut k: usize = 0;
        assert(order@.take(0) =~= Seq::empty());
        while k < order.len()
            invariant
                k <= order@.len(),
                all == cell_views(deltas@),
                mine == select(all, of_column(name@)),
                is_stable_order::<u64>(order@, cell_txns(mine)),
                places@.len() == mine.len(),
                forall|j: int|
                    #![trigger places@[j]]
                    0 <= j < places@.len() ==> places@[j] < deltas@.len() && all[places@[j] as int]
                        == mine[j],
                r.wf(),
                r@.cells.len() == column@.cells.len(),
                r@ == cells_applied(column@, mine, order@.take(k as int)),
            decreases order@.len() - k,
        {
            let at: usize = order[k];
            assert(at < cell_txns(mine).len());
            let place: usize = places[at];
            let cell: &DeltaCell = &deltas[place];
            proof {
                assert(all[place as int] == cell@);
                assert(order@.take(k + 1).drop_last() =~= order@.take(k as int));
            }
            r = self.apply_cell(r, cell);
            k = k + 1;
        }
        assert(order@.take(k as int) =~= order@);
        assert(column_merged(column@, r@, mine, order@));
        r
    }

    /// Applies deltas to a batch: each to the column of its name, those of one
    /// column in the order of their transactions.
    pub fn apply_deltas_to_batch(&self, batch: &Batch, deltas: &Vec<DeltaCell>) -> (r: Batch)
        requires
            batch.wf(),
        ensures
            r.wf(),
            batch_merged(batch@, r@, cell_views(deltas@)),
    {
        let ghost all = cell_views(deltas@);
        let mut columns: Vec<Column> = Vec::new();
        let mut i: usize = 0;
        while i < batch.columns.len()
            invariant
                batch.wf(),
                i <= batch.columns@.len(),
                columns@.len() == i,
                all == cell_views(deltas@),
                forall|k: int|
                    #![trigger columns@[k]]
                    0 <= k < i ==> column_fits(columns@[k]@) && columns@[k]@.cells.len()
                        == batch@.columns[k].cells.len() && merges_column(
                        batch@.columns[k],
                        columns@[k]@,
                        select(all, of_column(batch@.names[k])),
                    ),
            decreases batch.columns@.len() - i,
        {
            assert(batch@.columns[i as int] == batch.columns@[i as int]@);
            assert(batch@.names[i as int] == batch.names@[i as int]@);
            assert(column_fits(batch@.columns[i as int]));
            columns.push(self.merge_column(&batch.columns[i], &batch.names[i], deltas));
            i = i + 1;
        }
        let mut r = batch.copy();
        r.columns = columns;
        proof {
            let now = r@;
            assert forall|k: int| #![trigger now.columns[k]] 0 <= k < now.columns.len() implies now.columns[k]
                == columns@[k]@ by {}
            assert forall|a: int, b: int|
                #![trigger now.columns[a], now.columns[b]]
                0 <= a < now.columns.len() && 0 <= b < now.columns.len() implies now.columns[a].cells.len()
                == now.columns[b].cells.len() by {
                assert(columns@[a]@ == now.columns[a]);
                assert(columns@[b]@ == now.columns[b]);
                assert(batch@.columns[a].cells.len() == batch@.columns[b].cells.len());
            }
            assert forall|a: int| #![trigger now.columns[a]] 0 <= a < now.columns.len() implies column_fits(
                now.columns[a],
            ) by {
                assert(columns@[a]@ == now.columns[a]);
            }
        }
        r
    }
}

/// Patches some rows of a column.
pub fn apply_sparse_patch(base: &Column, positions: &croaring::Bitmap, patch_values: &[u8]) -> (r:
    Result<Column, RockDuckError>)
    requires
        base.wf(),
    ensures
        match r {
            Ok(c) => c.wf() && sparse_patched(base@, bitmap_rows(*positions), patch_values@) == Ok::<
                ColumnView,
                RockDuckError,
            >(c@),
            Err(e) => sparse_patched(base@, bitmap_rows(*positions), patch_values@) == Err::<
                ColumnView,
                RockDuckError,
            >(e),
        },
{
    DeltaMerger::default().apply_sparse_patch_vectorized(base, positions, patch_values)
}

/// Applies deltas to a batch.
pub fn apply_deltas_to_batch(batch: &Batch, deltas: &Vec<DeltaCell>) -> (r: Batch)
    requires
        batch.wf(),
    ensures
        r.wf(),
        batch_merged(batch@, r@, cell_views(deltas@)),
{
    DeltaMerger::default().apply_deltas_to_batch(batch, deltas)
}

/// A patch changes no row but the patched ones.
pub proof fn law_patch_leaves_other_rows(base: ColumnView, rows: Set<u32>, patch: Seq<u8>, row: int)
    requires
        sparse_patched(base, rows, patch) is Ok,
        0 <= row < base.cells.len(),
        row > u32::MAX || !rows.contains(row as u32),
        exists|list: Seq<u32>| #[trigger] lists(list, rows),
    ensures
        sparse_patched(base, rows, patch)->Ok_0.cells[row] == base.cells[row],
{
    let list = choose|list: Seq<u32>| #[trigger] lists(list, rows);
    lemma_listing(list, rows);
    lemma_last_place(list, row);
    if let Some(k) = last_place(list, row) {
        assert(list.contains(list[k]));
    }
}

/// Deltas for no column of a batch leave it as it is.
pub proof fn law_deltas_of_other_columns_change_nothing(
    before: BatchView,
    after: BatchView,
    deltas: Seq<CellView>,
)
    requires
        batch_fits(before),
        batch_merged(before, after, deltas),
        forall|i: int| #![trigger deltas[i]] 0 <= i < deltas.len() ==> !before.names.contains(deltas[i].column),
    ensures
        after == before,
{
    assert forall|i: int| 0 <= i < after.columns.len() implies #[trigger] after.columns[i]
        == before.columns[i] by {
        let name = before.names[i];
        lemma_none_selected(deltas, name, before.names, i);
        let order = choose|order: Seq<usize>| #[trigger]
            column_merged(
                before.columns[i],
                after.columns[i],
                select(deltas, of_column(name)),
                order,
            );
        assert(order.len() == 0);
    }
    assert(after.columns =~= before.columns);
}

proof fn lemma_none_selected(deltas: Seq<CellView>, name: Seq<char>, names: Seq<Seq<char>>, at: int)
    requires
        0 <= at < names.len(),
        names[at] == name,
        forall|i: int| #![trigger deltas[i]] 0 <= i < deltas.len() ==> !names.contains(deltas[i].column),
    ensures
        select(deltas, of_column(name)).len() == 0,
    decreases deltas.len(),
{
    if deltas.len() > 0 {
        let front = deltas.drop_last();
        assert forall|i: int| #![trigger front[i]] 0 <= i < front.len() implies !names.contains(
            front[i].column,
        ) by {
            assert(front[i] == deltas[i]);
        }
        lemma_none_selected(front, name, names, at);
        assert(!names.contains(deltas[deltas.len() - 1].column));
    }
}

} // verus!
