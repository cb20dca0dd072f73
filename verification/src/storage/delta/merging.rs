//! What a merge of the patches of a guard keeps: of every row, the newest value.
use vstd::prelude::*;
use crate::bitmap::{lemma_has_listing, lemma_listing, lemma_lists_len, listing, lists, portable_rows};
use crate::codec::lemma_le_len;
use crate::error::RockDuckError;
use crate::ipc::ipc_column;
use crate::storage::delta::descent::{guards_apart, is_freezable, lemma_file_parts, ref_shows, refs_show};
use crate::storage::delta::disk_store::{any_covers, column_merged, gather, guard_cells, guard_file_path, guard_merged, is_merged_file, is_merged_index, is_merged_path, is_newest_first, lemma_newest_values, max_patch_id, merged_key, newer, newest_value, newest_values, patch_index, patch_of, patch_views, patches_from, patches_of, plan_executed, plans_merge, row_set, spans, stale_index, stale_path, without, DeltaL2Disk, DiskView, GuardKeyView, MergePlan, PatchRefView};
use crate::storage::delta::flush_engine::{is_patch_of, lemma_patch_rows, makes_patch};
use crate::storage::delta::mem_store::lemma_select_contains;
use crate::storage::delta::merge::cell_key;
use crate::storage::delta::patch_file::{covers, file_header, has_image, law_append_is_read_back, law_new_file_is_whole, load_file, patch_cell, patch_value, placed, record_at, record_bytes, record_cells, MAX_PAYLOAD_SIZE};
use crate::storage::delta::sparsity::{value_at, SparsitySelector};
use crate::storage::delta::types::{law_patch_round_trip, parse_payload, patch_payload, CellView, DeltaPatch, FormatView};
use crate::storage::delta::visibility::{filed, lemma_gather_sees, lemma_new_file_shows_nothing, sees, shows, unharmed, GuardIndex};
use crate::text::decimal;
use crate::write::image_bytes;

verus! {

/// A patch as a flush makes it: its rows are numbers of 32 bits, and a dense one has the
/// last transaction of its record.
pub open spec fn is_regular(f: FormatView, txn: u64) -> bool {
    match f {
        FormatView::Sparse { .. } => true,
        FormatView::Dense { values, txn_id, .. } => txn_id == txn && (ipc_column(values) matches Some((n, _))
            ==> n <= 0x1_0000_0000),
    }
}

/// Every patch that a flush makes is regular.
pub proof fn law_flushed_patch_is_regular(patch: DeltaPatch, cells: Seq<CellView>, selector: SparsitySelector)
    requires
        makes_patch(patch, cells, selector),
    ensures
        is_regular(patch.format@, patch.txn_range.1),
{
    let (rows, values) = choose|rows: Seq<u64>, values: Seq<Option<Seq<u8>>>| #[trigger]
        is_patch_of(patch, cells, selector, rows, values);
    lemma_patch_rows(patch, cells, selector, rows, values);
}

/// A cell of a patch is the value that the patch has for its row.
proof fn lemma_cell_value(f: FormatView, txn: u64, c: CellView)
    requires
        record_cells(f, txn) is Ok,
        is_regular(f, txn),
        record_cells(f, txn)->Ok_0.contains(c),
    ensures
        covers(f, c.row_offset),
        patch_value(f, c.row_offset) == Ok::<Option<Seq<u8>>, RockDuckError>(Some(image_bytes(c.after))),
        c == patch_cell(c.row_offset, txn, c.after),
        c.row_offset <= u32::MAX,
{
    let cells = record_cells(f, txn)->Ok_0;
    let i = choose|i: int| 0 <= i < cells.len() && cells[i] == c;
    match f {
        FormatView::Sparse { positions, values, .. } => {
            let set = portable_rows(positions);
            let rows = listing(set);
            lemma_has_listing(set);
            assert(rows.contains(rows[i]));
            let k = rows.index_of(rows[i]);
            assert(rows[k] == rows[i]);
            if k < i {
                assert(rows[k] < rows[i]);
            } else if i < k {
                assert(rows[i] < rows[k]);
            }
            assert(set.contains(rows[i]));
        },
        FormatView::Dense { values, txn_id, .. } => {
            let (n, _) = ipc_column(values)->0;
            let all = Seq::new(n, |i: int| patch_cell(i as u64, txn_id, value_at(values, i)));
            lemma_select_contains(all, has_image(), c);
            let k = choose|k: int| 0 <= k < all.len() && all[k] == c;
            assert(c.row_offset == k);
        },
    }
}

/// A row for which a patch has a value has a cell.
proof fn lemma_covered_row(f: FormatView, txn: u64, row: u64) -> (c: CellView)
    requires
        record_cells(f, txn) is Ok,
        is_regular(f, txn),
        covers(f, row),
    ensures
        record_cells(f, txn)->Ok_0.contains(c),
        c.row_offset == row,
{
    let cells = record_cells(f, txn)->Ok_0;
    match f {
        FormatView::Sparse { positions, .. } => {
            let set = portable_rows(positions);
            let rows = listing(set);
            lemma_has_listing(set);
            assert(rows.contains(row as u32));
            let i = rows.index_of(row as u32);
            assert(rows[i] == row as u32);
            assert(cells[i].row_offset == row);
            cells[i]
        },
        FormatView::Dense { values, txn_id, .. } => {
            let (n, _) = ipc_column(values)->0;
            let all = Seq::new(n, |i: int| patch_cell(i as u64, txn_id, value_at(values, i)));
            let c = all[row as int];
            assert(all.contains(c));
            lemma_select_contains(all, has_image(), c);
            c
        },
    }
}

/// The order of the newest first has every patch.
proof fn lemma_order_has(order: Seq<usize>, patches: Seq<PatchRefView>, j: int) -> (a: int)
    requires
        is_newest_first(order, patches),
        0 <= j < patches.len(),
    ensures
        0 <= a < order.len(),
        order[a] == j,
{
    let n = patches.len() as int;
    let places = order.map_values(|x: usize| x as int);
    assert forall|x: int, y: int| 0 <= x < places.len() && 0 <= y < places.len() && x != y implies places[x]
        != places[y] by {
        if x < y {
            assert(newer(patches, order[x] as int, order[y] as int));
        } else {
            assert(newer(patches, order[y] as int, order[x] as int));
        }
    }
    places.unique_seq_to_set();
    let all = vstd::set_lib::set_int_range(0, n);
    vstd::set_lib::lemma_int_range(0, n);
    assert(places.to_set().subset_of(all)) by {
        assert forall|x: int| places.to_set().contains(x) implies all.contains(x) by {
            let k = places.index_of(x);
            assert(places[k] == x);
            assert(order[k] < patches.len());
        }
    }
    vstd::set_lib::lemma_subset_equality(places.to_set(), all);
    assert(places.to_set().contains(j));
    let a = places.index_of(j);
    assert(places[a] == j);
    a
}

/// Patches of one column that can be read, each as a flush makes it.
pub open spec fn are_regular(patches: Seq<PatchRefView>, col: Seq<char>) -> bool {
    forall|i: int|
        #![trigger patches[i]]
        0 <= i < patches.len() ==> patches[i].col == col && is_regular(
            patches[i].format,
            patches[i].txn_range.1,
        ) && record_cells(patches[i].format, patches[i].txn_range.1) is Ok
}

/// The value of a row is that of the first patch in the order that has one.
proof fn lemma_newest_from(
    patches: Seq<PatchRefView>,
    order: Seq<usize>,
    col: Seq<char>,
    row: u64,
    from: nat,
    a: int,
) -> (k: int)
    requires
        is_newest_first(order, patches),
        are_regular(patches, col),
        from <= a < order.len(),
        covers(patches[order[a] as int].format, row),
    ensures
        from <= k <= a,
        covers(patches[order[k] as int].format, row),
        newest_value(patches, order, col, row, from) == patch_value(patches[order[k] as int].format, row),
        newest_value(patches, order, col, row, from) matches Ok(Some(_)),
        forall|b: int|
            #![trigger order[b]]
            from <= b < k ==> !covers(patches[order[b] as int].format, row),
    decreases order.len() - from,
{
    let p = patches[order[from as int] as int];
    if covers(p.format, row) {
        let c = lemma_covered_row(p.format, p.txn_range.1, row);
        lemma_cell_value(p.format, p.txn_range.1, c);
        from as int
    } else {
        assert(patch_value(p.format, row) == Ok::<Option<Seq<u8>>, RockDuckError>(None));
        lemma_newest_from(patches, order, col, row, from + 1, a)
    }
}

/// The newest value of a row is that of a patch that is not older than any other that has
/// one.
proof fn lemma_newest(
    patches: Seq<PatchRefView>,
    order: Seq<usize>,
    col: Seq<char>,
    row: u64,
    i: int,
) -> (k: int)
    requires
        is_newest_first(order, patches),
        are_regular(patches, col),
        0 <= i < patches.len(),
        covers(patches[i].format, row),
    ensures
        0 <= k < patches.len(),
        covers(patches[k].format, row),
        newest_value(patches, order, col, row, 0) == patch_value(patches[k].format, row),
        newest_value(patches, order, col, row, 0) matches Ok(Some(_)),
        forall|j: int|
            #![trigger patches[j]]
            0 <= j < patches.len() && covers(patches[j].format, row) ==> patches[j].txn_range.1
                <= patches[k].txn_range.1,
{
    let a = lemma_order_has(order, patches, i);
    let x = lemma_newest_from(patches, order, col, row, 0, a);
    let k = order[x] as int;
    assert forall|j: int|
        #![trigger patches[j]]
        0 <= j < patches.len() && covers(patches[j].format, row) implies patches[j].txn_range.1
        <= patches[k].txn_range.1 by {
        let b = lemma_order_has(order, patches, j);
        if x < b {
            assert(newer(patches, order[x] as int, order[b] as int));
        }
    }
    k
}

/// What a snapshot that is not older than a merge sees in the merged file: of every kept row
/// the newest value, under the last transaction of the merge.
proof fn lemma_merged_load(
    bytes: Seq<u8>,
    patches: Seq<PatchRefView>,
    order: Seq<usize>,
    range: (u64, u64),
    col: Seq<char>,
    rows: Seq<u64>,
    snapshot: u64,
)
    requires
        is_merged_file(bytes, patches, order, range, col, rows),
        bytes.len() <= MAX_PAYLOAD_SIZE,
        forall|a: int, b: int| #![auto] 0 <= a < b < rows.len() ==> rows[a] < rows[b],
        forall|a: int| #![trigger rows[a]] 0 <= a < rows.len() ==> rows[a] <= u32::MAX,
        range.1 <= snapshot,
    ensures
        newest_values(patches, order, col, rows) is Ok,
        load_file(bytes, snapshot) == Ok::<Seq<CellView>, RockDuckError>(
            Seq::new(
                rows.len(),
                |i: int| patch_cell(rows[i], range.1, newest_values(patches, order, col, rows)->Ok_0[i]),
            ),
        ),
{
    let (positions, values) = choose|positions: Seq<u8>, values: Seq<u8>|
        bytes == file_header() + record_bytes(
            max_patch_id(patches),
            range,
            0,
            rows.len(),
            patch_payload(#[trigger] patch_of(positions, values, rows.len())),
        ) && portable_rows(positions) == row_set(rows) && (newest_values(patches, order, col, rows)
            matches Ok(cells) && ipc_column(values) == Some((rows.len(), Some(cells))));
    let f = patch_of(positions, values, rows.len());
    let payload = patch_payload(f);
    let newest = newest_values(patches, order, col, rows)->Ok_0;
    let short = rows.map_values(|r: u64| r as u32);
    assert forall|a: int| #![trigger rows[a]] 0 <= a < rows.len() implies short[a] == rows[a] by {}
    assert(lists(short, row_set(rows))) by {
        assert forall|a: int, b: int| #![auto] 0 <= a < b < short.len() implies short[a] < short[b] by {
            assert(rows[a] < rows[b]);
        }
    }
    lemma_lists_len(short, row_set(rows));
    lemma_listing(short, row_set(rows));
    assert(payload.len() <= bytes.len());
    assert(positions.len() <= payload.len() && values.len() <= payload.len()) by {
        lemma_le_len(positions.len(), 4);
        lemma_le_len(values.len(), 4);
    }
    law_patch_round_trip(f);
    law_new_file_is_whole();
    lemma_new_file_shows_nothing(snapshot);
    law_append_is_read_back(file_header(), max_patch_id(patches), range, 0, rows.len(), payload, snapshot);
    let found = record_cells(f, range.1)->Ok_0;
    let want = Seq::new(rows.len(), |i: int| patch_cell(rows[i], range.1, newest[i]));
    assert forall|i: int| 0 <= i < rows.len() implies found[i] == want[i] by {
        assert(short[i] == rows[i]);
    }
    assert(found =~= want);
    assert(Seq::<CellView>::empty() + found =~= found);
}

/// The patches of a file name the guard that they were read for.
proof fn lemma_refs_of(key: GuardKeyView, path: Seq<char>, file: Seq<u8>, offset: nat, i: int)
    requires
        patches_from(key, path, file, offset) is Ok,
        0 <= i < patches_from(key, path, file, offset)->Ok_0.len(),
    ensures
        ({
            let p = patches_from(key, path, file, offset)->Ok_0[i];
            patch_index(p) == key.index() && p.col == key.col && p.file_path == path
        }),
    decreases file.len() - offset,
{
    let rec = record_at(file, offset)->0->Ok_0;
    let rest = patches_from(key, path, file, rec.end())->Ok_0;
    if parse_payload(rec.payload) is Some {
        if i > 0 {
            lemma_refs_of(key, path, file, rec.end(), i - 1);
            assert(patches_from(key, path, file, offset)->Ok_0[i] == rest[i - 1]);
        }
    } else {
        lemma_refs_of(key, path, file, rec.end(), i);
    }
}

/// The file of a guard is no statistics file.
proof fn lemma_no_statistics_file(root: Seq<char>, key: GuardKeyView, path: Seq<char>)
    ensures
        guard_file_path(root, key) != path + ".zm"@,
{
    reveal_strlit(".delta");
    reveal_strlit(".zm");
    let name = "guard_"@ + decimal(key.start_row as nat) + "_"@ + decimal(key.end_row as nat) + ".delta"@;
    assert(name.last() == 'a');
    let full = guard_file_path(root, key);
    assert(full.last() == name.last());
    assert((path + ".zm"@).last() == 'm');
}

/// The patches of a guard, as a merge takes them.
pub open spec fn guard_refs(d: DiskView, key: GuardKeyView) -> Seq<PatchRefView> {
    patches_of(d.guards[key.index()], d.files)->Ok_0
}

/// What a merge of a guard with patches did to L2.
pub open spec fn is_merge_of(
    d: DiskView,
    e: DiskView,
    key: GuardKeyView,
    rows: Seq<u64>,
    order: Seq<usize>,
    range: (u64, u64),
) -> bool {
    let index = key.index();
    let p = guard_refs(d, key);
    let path = d.guards[index].file_path;
    &&& forall|k: GuardIndex|
        #![trigger e.guards.dom().contains(k)]
        #![trigger d.guards.dom().contains(k)]
        k != index ==> e.guards.dom().contains(k) == d.guards.dom().contains(k) && (d.guards.dom().contains(k)
            ==> e.guards[k] == d.guards[k] && e.files.dom().contains(d.guards[k].file_path)
            == d.files.dom().contains(d.guards[k].file_path) && (d.files.dom().contains(
            d.guards[k].file_path,
        ) ==> e.files[d.guards[k].file_path] == d.files[d.guards[k].file_path]))
    &&& is_newest_first(order, p)
    &&& spans(p, range)
    &&& forall|a: int, b: int| #![auto] 0 <= a < b < rows.len() ==> rows[a] < rows[b]
    &&& forall|row: u64| #[trigger] rows.contains(row) <==> any_covers(p, row)
    &&& if rows.len() == 0 {
        !e.guards.dom().contains(index)
    } else {
        &&& e.guards.dom().contains(index)
        &&& e.guards[index].key == key
        &&& e.guards[index].file_path == path
        &&& e.files.dom().contains(path)
        &&& is_merged_file(e.files[path], p, order, range, key.col, rows)
    }
}

proof fn lemma_merge_parts(d: DiskView, e: DiskView, root: Seq<char>, key: GuardKeyView) -> (r: (
    Seq<u64>,
    Seq<usize>,
    (u64, u64),
))
    requires
        filed(d, root),
        guards_apart(d),
        d.guards.dom().contains(key.index()),
        d.guards[key.index()].key == key,
        patches_of(d.guards[key.index()], d.files) is Ok,
        guard_refs(d, key).len() > 0,
        guard_merged(d, e, root, key, Ok(())),
    ensures
        is_merge_of(d, e, key, r.0, r.1, r.2),
{
    let index = key.index();
    let g = d.guards[index];
    let p = guard_refs(d, key);
    let path = g.file_path;
    let (plan, states, order) = choose|plan: MergePlan, states: Seq<DiskView>, order: Seq<usize>| #[trigger]
        plan_executed(d, e, root, plan, Ok(()), states, order) && plans_merge(plan, key, g, p);
    let stale = Set::new(|x: (Seq<char>, Seq<char>, u64)| stale_index(plan, x));
    let paths = Set::new(|x: Seq<char>| stale_path(plan, root, x));
    assert forall|i: int| #![trigger plan.patches@[i]] 0 <= i < plan.patches@.len() implies {
        &&& patch_index(plan.patches@[i]@) == index
        &&& plan.patches@[i].file_path@ == path
    } by {
        assert(patch_views(plan.patches@)[i] == plan.patches@[i]@);
        lemma_refs_of(key, path, d.files[path], 64, i);
    }
    assert forall|x: GuardIndex| stale.contains(x) implies x == index by {}
    assert forall|x: Seq<char>| paths.contains(x) implies x == path || x == path + ".zm"@ by {}
    assert forall|k: GuardIndex| #[trigger] d.guards.dom().contains(k) && k != index implies d.guards[k].file_path
        != path && !paths.contains(d.guards[k].file_path) by {
        assert(d.guards.dom().contains(index));
        lemma_no_statistics_file(root, d.guards[k].key, path);
    }
    let last = states.last();
    if exists|row: u64| any_covers(p, row) {
        let c = plan.column_plans@[0];
        let row = choose|row: u64| any_covers(p, row);
        assert(c.kept_rows@.contains(row));
        assert(merged_key(plan, c.col@) == key);
        assert(is_merged_index(plan, index)) by {
            assert(merged_key(plan, plan.column_plans@[0].col@).index() == index);
        }
        assert(is_merged_path(plan, root, path)) by {
            assert(guard_file_path(root, merged_key(plan, plan.column_plans@[0].col@)) == path);
        }
        assert(states[1] == last);
        assert(column_merged(states[0], states[1], root, plan, order, c));
        assert(!stale.contains(index) && !paths.contains(path));
        (c.kept_rows@, order, plan.output_txn_range)
    } else {
        assert(states[0] == last);
        assert(!is_merged_index(plan, index));
        assert(plan.patches@.len() > 0) by {
            assert(patch_views(plan.patches@).len() == p.len());
        }
        assert(patch_index(plan.patches@[0]@) == index);
        assert(stale.contains(index));
        let none = Seq::<u64>::empty();
        (none, order, plan.output_txn_range)
    }
}

/// A guard whose merge a snapshot can follow: its patches are as a flush makes them, none is
/// newer than the snapshot, and the merged file is not larger than a payload may be.
pub open spec fn can_follow(d: DiskView, e: DiskView, key: GuardKeyView, snapshot: u64) -> bool {
    let path = d.guards[key.index()].file_path;
    &&& forall|i: int|
        #![trigger guard_refs(d, key)[i]]
        0 <= i < guard_refs(d, key).len() ==> guard_refs(d, key)[i].txn_range.1 <= snapshot && is_regular(
            guard_refs(d, key)[i].format,
            guard_refs(d, key)[i].txn_range.1,
        )
    &&& e.files.dom().contains(path) ==> e.files[path].len() <= MAX_PAYLOAD_SIZE
}

/// `c` has the newest value that a guard showed for its row: that of `b`, a null as no bytes.
pub open spec fn is_newest_of(
    d: DiskView,
    index: GuardIndex,
    seg_id: Seq<char>,
    snapshot: u64,
    b: CellView,
    c: CellView,
) -> bool {
    &&& shows(d, index, seg_id, snapshot, b)
    &&& cell_key(b) == cell_key(c)
    &&& c.after == Some(image_bytes(b.after))
    &&& forall|x: CellView| #[trigger]
        shows(d, index, seg_id, snapshot, x) && cell_key(x) == cell_key(b) ==> x.txn_id <= b.txn_id
}

/// What a guard shows, by its patches.
proof fn lemma_guard_shows(d: DiskView, key: GuardKeyView, snapshot: u64, c: CellView)
    requires
        d.guards.dom().contains(key.index()),
        d.guards[key.index()].key == key,
        patches_of(d.guards[key.index()], d.files) is Ok,
        guard_refs(d, key).len() > 0,
        guard_cells(d.guards[key.index()], d.files, snapshot) is Ok,
    ensures
        shows(d, key.index(), key.seg_id, snapshot, c) == refs_show(
            guard_refs(d, key),
            key.seg_id,
            key.col,
            snapshot,
            c,
        ),
        forall|i: int|
            #![trigger guard_refs(d, key)[i]]
            0 <= i < guard_refs(d, key).len() ==> guard_refs(d, key)[i].col == key.col && (guard_refs(
                d,
                key,
            )[i].txn_range.1 <= snapshot ==> record_cells(
                guard_refs(d, key)[i].format,
                guard_refs(d, key)[i].txn_range.1,
            ) is Ok),
{
    let g = d.guards[key.index()];
    let file = d.files[g.file_path];
    let p = guard_refs(d, key);
    lemma_file_parts(key, g.file_path, file, 64, key.seg_id, key.col, true, snapshot, c);
    assert(p == patches_from(key, g.file_path, file, 64)->Ok_0);
    assert forall|i: int| #![trigger p[i]] 0 <= i < p.len() implies p[i].col == key.col && (p[i].txn_range.1
        <= snapshot ==> record_cells(p[i].format, p[i].txn_range.1) is Ok) by {
        lemma_refs_of(key, g.file_path, file, 64, i);
        assert(is_freezable(p[i], true, snapshot));
        reveal(is_freezable);
    }
}

/// A cell that a patch shows, without its segment and column.
proof fn lemma_ref_cell(p: PatchRefView, seg_id: Seq<char>, col: Seq<char>, snapshot: u64, c: CellView) -> (x:
    CellView)
    requires
        ref_shows(p, seg_id, col, snapshot, c),
        is_regular(p.format, p.txn_range.1),
    ensures
        record_cells(p.format, p.txn_range.1) is Ok,
        covers(p.format, c.row_offset),
        patch_value(p.format, c.row_offset) == Ok::<Option<Seq<u8>>, RockDuckError>(
            Some(image_bytes(c.after)),
        ),
        c.txn_id == p.txn_range.1,
        c.row_offset <= u32::MAX,
        cell_key(c) == (seg_id, col, c.row_offset),
{
    reveal(ref_shows);
    let cells = record_cells(p.format, p.txn_range.1)->Ok_0;
    let all = placed(seg_id, col, cells);
    let i = choose|i: int| 0 <= i < all.len() && all[i] == c;
    let x = cells[i];
    assert(cells.contains(x));
    lemma_cell_value(p.format, p.txn_range.1, x);
    x
}

/// A patch shows a cell for every row that it has a value for.
proof fn lemma_ref_shows(p: PatchRefView, seg_id: Seq<char>, col: Seq<char>, snapshot: u64, row: u64) -> (c:
    CellView)
    requires
        record_cells(p.format, p.txn_range.1) is Ok,
        is_regular(p.format, p.txn_range.1),
        p.txn_range.1 <= snapshot,
        covers(p.format, row),
    ensures
        ref_shows(p, seg_id, col, snapshot, c),
        c.row_offset == row,
{
    reveal(ref_shows);
    let x = lemma_covered_row(p.format, p.txn_range.1, row);
    let cells = record_cells(p.format, p.txn_range.1)->Ok_0;
    let i = choose|i: int| 0 <= i < cells.len() && cells[i] == x;
    let all = placed(seg_id, col, cells);
    assert(all[i] == CellView { seg_id, column: col, ..x });
    assert(all.contains(all[i]));
    all[i]
}

/// The merged guard shows, for every row of the merge, the newest value.
proof fn lemma_merged_shows(
    d: DiskView,
    e: DiskView,
    key: GuardKeyView,
    rows: Seq<u64>,
    order: Seq<usize>,
    range: (u64, u64),
    snapshot: u64,
)
    requires
        is_merge_of(d, e, key, rows, order, range),
        rows.len() > 0,
        can_follow(d, e, key, snapshot),
        are_regular(guard_refs(d, key), key.col),
    ensures
        guard_cells(e.guards[key.index()], e.files, snapshot) is Ok,
        guard_cells(e.guards[key.index()], e.files, snapshot)->Ok_0.len() == rows.len(),
        forall|i: int|
            #![trigger rows[i]]
            0 <= i < rows.len() ==> (newest_value(guard_refs(d, key), order, key.col, rows[i], 0) matches Ok(Some(v))
                && guard_cells(e.guards[key.index()], e.files, snapshot)->Ok_0[i] == merged_cell(
                key,
                rows[i],
                range.1,
                v,
            )),
{
    let p = guard_refs(d, key);
    let path = d.guards[key.index()].file_path;
    assert forall|i: int| #![trigger rows[i]] 0 <= i < rows.len() implies rows[i] <= u32::MAX && (newest_value(
        p,
        order,
        key.col,
        rows[i],
        0,
    ) matches Ok(Some(_))) by {
        assert(rows.contains(rows[i]));
        let j = choose|j: int| 0 <= j < p.len() && covers(#[trigger] p[j].format, rows[i]);
        let x = lemma_covered_row(p[j].format, p[j].txn_range.1, rows[i]);
        lemma_cell_value(p[j].format, p[j].txn_range.1, x);
        let k = lemma_newest(p, order, key.col, rows[i], j);
    }
    assert(range.1 <= snapshot) by {
        let j = choose|j: int| 0 <= j < p.len() && (#[trigger] p[j]).txn_range.1 == range.1;
        assert(guard_refs(d, key)[j].txn_range.1 <= snapshot);
    }
    lemma_merged_load(e.files[path], p, order, range, key.col, rows, snapshot);
    let newest = newest_values(p, order, key.col, rows)->Ok_0;
    let cells = guard_cells(e.guards[key.index()], e.files, snapshot)->Ok_0;
    assert forall|i: int| #![trigger rows[i]] 0 <= i < rows.len() implies (newest_value(
        p,
        order,
        key.col,
        rows[i],
        0,
    ) matches Ok(Some(v)) && cells[i] == merged_cell(key, rows[i], range.1, v)) by {
        lemma_newest_values(p, order, key.col, rows, i);
    }
}

/// The cell of a merged guard for one row.
pub open spec fn merged_cell(key: GuardKeyView, row: u64, txn_id: u64, value: Seq<u8>) -> CellView {
    CellView {
        seg_id: key.seg_id,
        row_offset: row,
        column: key.col,
        txn_id,
        before: None,
        after: Some(value),
        committed: true,
        ts: 0,
    }
}

/// A cell that the guard showed: the merged guard has a cell of the same place that is not
/// older.
proof fn lemma_merge_keeps(
    d: DiskView,
    e: DiskView,
    key: GuardKeyView,
    rows: Seq<u64>,
    order: Seq<usize>,
    range: (u64, u64),
    snapshot: u64,
    c: CellView,
) -> (x: CellView)
    requires
        is_merge_of(d, e, key, rows, order, range),
        can_follow(d, e, key, snapshot),
        are_regular(guard_refs(d, key), key.col),
        refs_show(guard_refs(d, key), key.seg_id, key.col, snapshot, c),
    ensures
        shows(e, key.index(), key.seg_id, snapshot, x),
        cell_key(x) == cell_key(c),
        x.txn_id >= c.txn_id,
{
    let p = guard_refs(d, key);
    let i = choose|i: int| 0 <= i < p.len() && #[trigger] ref_shows(p[i], key.seg_id, key.col, snapshot, c);
    assert(is_regular(guard_refs(d, key)[i].format, p[i].txn_range.1));
    let bare = lemma_ref_cell(p[i], key.seg_id, key.col, snapshot, c);
    assert(any_covers(p, c.row_offset));
    assert(rows.contains(c.row_offset));
    let r = choose|r: int| 0 <= r < rows.len() && rows[r] == c.row_offset;
    lemma_merged_shows(d, e, key, rows, order, range, snapshot);
    let cells = guard_cells(e.guards[key.index()], e.files, snapshot)->Ok_0;
    assert(rows[r] == c.row_offset);
    let x = cells[r];
    assert(cells.contains(x));
    assert(p[i].txn_range.1 <= range.1);
    x
}

/// A cell that the merged guard shows has the newest value that the guard showed.
proof fn lemma_merge_is_newest(
    d: DiskView,
    e: DiskView,
    key: GuardKeyView,
    rows: Seq<u64>,
    order: Seq<usize>,
    range: (u64, u64),
    snapshot: u64,
    c: CellView,
) -> (b: CellView)
    requires
        d.guards.dom().contains(key.index()),
        d.guards[key.index()].key == key,
        patches_of(d.guards[key.index()], d.files) is Ok,
        guard_refs(d, key).len() > 0,
        guard_cells(d.guards[key.index()], d.files, snapshot) is Ok,
        is_merge_of(d, e, key, rows, order, range),
        can_follow(d, e, key, snapshot),
        are_regular(guard_refs(d, key), key.col),
        shows(e, key.index(), key.seg_id, snapshot, c),
    ensures
        is_newest_of(d, key.index(), key.seg_id, snapshot, b, c),
{
    let p = guard_refs(d, key);
    lemma_merged_shows(d, e, key, rows, order, range, snapshot);
    let cells = guard_cells(e.guards[key.index()], e.files, snapshot)->Ok_0;
    let r = choose|r: int| 0 <= r < cells.len() && cells[r] == c;
    let row = rows[r];
    assert(rows.contains(row));
    let j = choose|j: int| 0 <= j < p.len() && covers(#[trigger] p[j].format, row);
    let k = lemma_newest(p, order, key.col, row, j);
    assert(guard_refs(d, key)[k].txn_range.1 <= snapshot);
    let b = lemma_ref_shows(p[k], key.seg_id, key.col, snapshot, row);
    let bare = lemma_ref_cell(p[k], key.seg_id, key.col, snapshot, b);
    assert(refs_show(p, key.seg_id, key.col, snapshot, b));
    lemma_guard_shows(d, key, snapshot, b);
    assert forall|x: CellView| #[trigger]
        shows(d, key.index(), key.seg_id, snapshot, x) && cell_key(x) == cell_key(b) implies x.txn_id
        <= b.txn_id by {
        lemma_guard_shows(d, key, snapshot, x);
        let i = choose|i: int|
            0 <= i < p.len() && #[trigger] ref_shows(p[i], key.seg_id, key.col, snapshot, x);
        assert(is_regular(guard_refs(d, key)[i].format, p[i].txn_range.1));
        let other = lemma_ref_cell(p[i], key.seg_id, key.col, snapshot, x);
        assert(p[i].txn_range.1 <= p[k].txn_range.1);
    }
    b
}

/// The guards beside the merged one show what they did.
proof fn lemma_merge_others(
    d: DiskView,
    e: DiskView,
    key: GuardKeyView,
    rows: Seq<u64>,
    order: Seq<usize>,
    range: (u64, u64),
    k: GuardIndex,
    asked: Seq<char>,
    snapshot: u64,
    c: CellView,
)
    requires
        is_merge_of(d, e, key, rows, order, range),
        k != key.index(),
    ensures
        shows(e, k, asked, snapshot, c) == shows(d, k, asked, snapshot, c),
        e.guards.dom().contains(k) == d.guards.dom().contains(k),
        d.guards.dom().contains(k) ==> e.guards[k] == d.guards[k] && guard_cells(
            e.guards[k],
            e.files,
            snapshot,
        ) == guard_cells(d.guards[k], d.files, snapshot),
{
    assert(d.guards.dom().contains(k) == e.guards.dom().contains(k));
}

/// A merge keeps the newest values: a query by a snapshot that is not older than the merged
/// patches gives, for every cell that it gave, one of the same place that is not older; and
/// every cell that it gives it gave before, or the cell has the newest value that the guard
/// had for its row.
pub proof fn law_merge_keeps_newest_values(
    before: DeltaL2Disk,
    after: DeltaL2Disk,
    key: GuardKeyView,
    asked: Seq<char>,
    snapshot: u64,
    c: CellView,
)
    requires
        before.wf(),
        after.wf(),
        before@.guards.dom().contains(key.index()),
        before@.guards[key.index()].key == key,
        guard_merged(before@, after@, before.root(), key, Ok(())),
        filed(before@, before.root()),
        guards_apart(before@),
        asked == key.seg_id ==> can_follow(before@, after@, key, snapshot),
        gather(before.guard_list(), before@.files, asked, snapshot).1 is None,
    ensures
        gather(after.guard_list(), after@.files, asked, snapshot).1 is None,
        gather(before.guard_list(), before@.files, asked, snapshot).0.contains(c) ==> exists|x: CellView|
            #[trigger] gather(after.guard_list(), after@.files, asked, snapshot).0.contains(x) && cell_key(x)
                == cell_key(c) && x.txn_id >= c.txn_id,
        gather(after.guard_list(), after@.files, asked, snapshot).0.contains(c) ==> gather(
            before.guard_list(),
            before@.files,
            asked,
            snapshot,
        ).0.contains(c) || exists|b: CellView| #[trigger]
            is_newest_of(before@, key.index(), asked, snapshot, b, c),
{
    let d = before@;
    let e = after@;
    let index = key.index();
    let new = gather(after.guard_list(), e.files, asked, snapshot).0;
    lemma_gather_sees(before, asked, snapshot, c);
    lemma_gather_sees(after, asked, snapshot, c);
    if guard_refs(d, key).len() == 0 {
        assert(e == d);
        if sees(d, asked, snapshot, c) {
            assert(new.contains(c));
        }
    } else {
        let (rows, order, range) = lemma_merge_parts(d, e, before.root(), key);
        let read = asked == key.seg_id;
        if read {
            assert(guard_cells(d.guards[index], d.files, snapshot) is Ok);
            lemma_guard_shows(d, key, snapshot, c);
            assert(are_regular(guard_refs(d, key), key.col)) by {
                let p = guard_refs(d, key);
                assert forall|i: int| #![trigger p[i]] 0 <= i < p.len() implies p[i].col == key.col && is_regular(
                    p[i].format,
                    p[i].txn_range.1,
                ) && record_cells(p[i].format, p[i].txn_range.1) is Ok by {
                    assert(guard_refs(d, key)[i].txn_range.1 <= snapshot);
                }
            }
            if rows.len() > 0 {
                lemma_merged_shows(d, e, key, rows, order, range, snapshot);
            }
        }
        assert(unharmed(e, asked, snapshot)) by {
            assert forall|k: GuardIndex| #[trigger]
                e.guards.dom().contains(k) && e.guards[k].key.seg_id == asked implies guard_cells(
                e.guards[k],
                e.files,
                snapshot,
            ) is Ok by {
                if k != index {
                    lemma_merge_others(d, e, key, rows, order, range, k, asked, snapshot, c);
                    assert(d.guards.dom().contains(k));
                }
            }
        }
        if sees(d, asked, snapshot, c) {
            let k = choose|k: GuardIndex| #[trigger] shows(d, k, asked, snapshot, c);
            if k != index {
                lemma_merge_others(d, e, key, rows, order, range, k, asked, snapshot, c);
                assert(shows(e, k, asked, snapshot, c));
                assert(new.contains(c));
            } else {
                let x = lemma_merge_keeps(d, e, key, rows, order, range, snapshot, c);
                assert(shows(e, index, asked, snapshot, x));
                lemma_gather_sees(after, asked, snapshot, x);
                assert(new.contains(x));
            }
        }
        if sees(e, asked, snapshot, c) {
            let k = choose|k: GuardIndex| #[trigger] shows(e, k, asked, snapshot, c);
            if k != index {
                lemma_merge_others(d, e, key, rows, order, range, k, asked, snapshot, c);
                assert(shows(d, k, asked, snapshot, c));
            } else {
                assert(rows.len() > 0);
                let b = lemma_merge_is_newest(d, e, key, rows, order, range, snapshot, c);
                assert(is_newest_of(d, index, asked, snapshot, b, c));
            }
        }
    }
}

} // verus!
