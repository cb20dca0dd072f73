//! What the patches, the files of guards and the tasks of the layers are for.
use vstd::prelude::*;
use crate::bitmap::{lemma_has_listing, listing, portable_rows};
use crate::error::RockDuckError;
use crate::ipc::{cell_view, ipc_column};
use crate::storage::delta::config::SyncLevel;
use crate::storage::delta::disk_store::{guards_of, is_merged_index, is_merged_path, is_newest_first, merged_key, patch_index, stale_index, stale_path, DeltaL2Disk, Guard, GuardKey, GuardKeyView, GuardView, MergePlan, PatchRefView};
use crate::storage::delta::flush_engine::{build_patch_from_cells, executed, groups_cells, observed_profile, CompactionAction, CompactionDecision, CompactionPriority, MaintenanceTask, RewriteAction};
use crate::storage::delta::frozen_store::{frozen_paths, FrozenEntry};
use crate::storage::delta::heat::{ColumnClass, ColumnHeatTracker};
use crate::storage::delta::mem_store::{cell_bytes, lemma_select_contains, logs_all, DeltaMemStore};
use crate::storage::delta::patch_file::{patch_cell, patch_cells, patch_row_positions, patch_to_deltas};
use crate::storage::delta::sparsity::{extract_value_at, value_at, SparsitySelector};
use crate::storage::delta::stack::{counted_up, recovered_size, DeltaLayerStack};
use crate::storage::delta::types::{cell_views, has_prefix, patch_prefix, CellView, DeltaCell, DeltaPatchFormat, FormatView};
use crate::write::{replayed, OpType, WalAppend, WalOp};

verus! {

/// A patch of few rows has the rows of its set; one of all rows has those with a value, or all
/// of them where its values cannot be read. They are listed in ascending order.
pub proof fn law_patch_lists_its_rows(format: &DeltaPatchFormat, rows: Vec<u64>, row: u64, i: int, j: int)
    requires
        call_ensures(patch_row_positions, (format,), rows),
    ensures
        0 <= i < j < rows@.len() ==> rows@[i] < rows@[j],
        rows@.contains(row) <==> match format@ {
            FormatView::Sparse { positions, .. } => row <= u32::MAX && portable_rows(positions).contains(row as u32),
            FormatView::Dense { values, total_rows, .. } => match ipc_column(values) {
                None => row < total_rows,
                Some((_, None)) => false,
                Some((n, Some(cells))) => row < n && cells[row as int] is Some,
            },
        },
{
}

/// The value at an index of a file of values is that of the column, where the file has one.
pub proof fn law_value_is_read_at_its_index(
    bytes: &[u8],
    index: usize,
    n: nat,
    cells: Seq<Option<Seq<u8>>>,
    r: Result<Option<Vec<u8>>, RockDuckError>,
)
    requires
        call_ensures(extract_value_at, (bytes, index), r),
    ensures
        ipc_column(bytes@) is None <==> r is Err,
        r is Err ==> r == Err::<Option<Vec<u8>>, RockDuckError>(RockDuckError::Arrow),
        ipc_column(bytes@) == Some((n, Some(cells))) ==> (r matches Ok(v) && (index < n ==> cell_view(v)
            == cells[index as int]) && (index >= n ==> v is None)),
        ipc_column(bytes@) == Some((n, None::<Seq<Option<Seq<u8>>>>)) ==> (r matches Ok(v) && v is None),
{
}

/// The newest patch comes first: that of the latest transaction, and of two with the same one
/// the earlier in the file. Every patch has a place in the order.
pub proof fn law_newest_patch_comes_first(order: Seq<usize>, patches: Seq<PatchRefView>, p: int)
    requires
        is_newest_first(order, patches),
        0 <= p < patches.len(),
    ensures
        exists|a: int| #![trigger order[a]] 0 <= a < order.len() && order[a] == p,
        patches[order[0] as int].txn_range.1 >= patches[p].txn_range.1,
        patches[order[0] as int].txn_range.1 == patches[p].txn_range.1 ==> order[0] <= p,
{
    let ints = order.map_values(|x: usize| x as int);
    assert(ints.no_duplicates()) by {
        assert forall|a: int, b: int| 0 <= a < ints.len() && 0 <= b < ints.len() && a != b implies ints[a]
            != ints[b] by {
            if a < b {
                assert(crate::storage::delta::disk_store::newer(patches, order[a] as int, order[b] as int));
            } else {
                assert(crate::storage::delta::disk_store::newer(patches, order[b] as int, order[a] as int));
            }
        }
    }
    let all = vstd::set_lib::set_int_range(0, patches.len() as int);
    vstd::set_lib::lemma_int_range(0, patches.len() as int);
    ints.unique_seq_to_set();
    assert forall|x: int| ints.to_set().contains(x) implies all.contains(x) by {
        let a = ints.index_of(x);
        assert(order[a] < patches.len());
    }
    vstd::set_lib::lemma_subset_equality(ints.to_set(), all);
    assert(all.contains(p));
    assert(ints.contains(p));
    let a = ints.index_of(p);
    assert(order[a] == p);
    if a > 0 {
        assert(crate::storage::delta::disk_store::newer(patches, order[0] as int, order[a] as int));
    }
}

/// What is written before a patch is known when it is read: six letters and a zero.
pub proof fn law_patches_begin_with_their_mark(rest: Seq<u8>, s: Seq<u8>)
    ensures
        patch_prefix().len() == 7,
        has_prefix(patch_prefix() + rest),
        has_prefix(s) <==> s.len() >= 7 && s[0] == 82 && s[1] == 68 && s[2] == 69 && s[3] == 76 && s[4] == 84
            && s[5] == 65,
{
    let p = patch_prefix();
    assert((p + rest).subrange(0, 6) =~= p.subrange(0, 6));
    if has_prefix(s) {
        let a = s.subrange(0, 6);
        let b = p.subrange(0, 6);
        assert(a[0] == s[0] && a[1] == s[1] && a[2] == s[2] && a[3] == s[3] && a[4] == s[4] && a[5] == s[5]);
        assert(b[0] == 82 && b[1] == 68 && b[2] == 69 && b[3] == 76 && b[4] == 84 && b[5] == 65);
    }
    if s.len() >= 7 && s[0] == 82 && s[1] == 68 && s[2] == 69 && s[3] == 76 && s[4] == 84 && s[5] == 65 {
        assert(s.subrange(0, 6) =~= p.subrange(0, 6));
    }
}

/// Movements out of memory are flushes; a movement of one column is of minor priority, and one
/// below memory of major priority. A task is of the segment, or the column, of its movement.
pub proof fn law_tasks_follow_their_movements(
    a: &CompactionAction,
    priority: CompactionPriority,
    rewrite: RewriteAction,
    task: MaintenanceTask,
)
    requires
        call_ensures(CompactionAction::priority, (a,), priority),
        call_ensures(CompactionAction::rewrite_action, (a,), rewrite),
        call_ensures(CompactionAction::maintenance_task, (a,), task),
    ensures
        task.action == rewrite,
        task.size_bytes == 0,
        priority == CompactionPriority::Flush <==> a is L1Flush,
        priority == CompactionPriority::Minor <==> a is L1ToL2,
        priority == CompactionPriority::Major <==> a is GuardMerge || a is L2ToL3,
        rewrite == RewriteAction::FlushL1ToL2 <==> a is L1Flush || a is L1ToL2,
        rewrite == RewriteAction::GuardMerge <==> a is GuardMerge,
        rewrite == RewriteAction::CompactL2ToL3 <==> a is L2ToL3,
        task.seg_id is None <==> a is L1Flush,
        a matches CompactionAction::L1ToL2 { column } ==> (task.seg_id->0)@ == column@,
        a matches CompactionAction::GuardMerge { guard_key } ==> (task.seg_id->0)@ == guard_key.seg_id@,
        a matches CompactionAction::L2ToL3 { seg_id } ==> (task.seg_id->0)@ == seg_id@,
{
}

/// The segments of memory are those of its cells, each once.
pub proof fn law_memory_lists_the_segments_of_its_cells(
    store: &DeltaMemStore,
    list: Vec<String>,
    x: int,
    i: int,
    j: int,
)
    requires
        call_ensures(DeltaMemStore::get_segment_ids, (store,), list),
    ensures
        0 <= i < j < list@.len() ==> list@[i]@ != list@[j]@,
        0 <= x < store@.hot_cells.len() ==> exists|k: int|
            #![trigger list@[k]]
            0 <= k < list@.len() && list@[k]@ == store@.hot_cells[x].seg_id,
        0 <= x < store@.cold_cells.len() ==> exists|k: int|
            #![trigger list@[k]]
            0 <= k < list@.len() && list@[k]@ == store@.cold_cells[x].seg_id,
        0 <= i < list@.len() ==> (exists|k: int|
            #![trigger store@.hot_cells[k]]
            0 <= k < store@.hot_cells.len() && store@.hot_cells[k].seg_id == list@[i]@) || (exists|k: int|
            #![trigger store@.cold_cells[k]]
            0 <= k < store@.cold_cells.len() && store@.cold_cells[k].seg_id == list@[i]@),
{
    if 0 <= x < store@.hot_cells.len() {
        assert(crate::text::lists_text(list@, store@.hot_cells[x].seg_id));
    }
    if 0 <= x < store@.cold_cells.len() {
        assert(crate::text::lists_text(list@, store@.cold_cells[x].seg_id));
    }
    if 0 <= i < list@.len() {
        assert(crate::text::lists_text(list@, list@[i]@));
    }
}

/// The segments of a table with changes are those of its list that memory, a guard or a frozen
/// patch has, each once.
pub proof fn law_changed_segments_of_a_table(
    stack: &DeltaLayerStack,
    table: &Vec<String>,
    list: Vec<String>,
    i: int,
    j: int,
    t: int,
)
    requires
        stack.wf(),
        call_ensures(DeltaLayerStack::get_segment_ids_for_table, (stack, table), list),
    ensures
        0 <= i < j < list@.len() ==> list@[i]@ != list@[j]@,
        0 <= i < list@.len() ==> exists|k: int| #![trigger table@[k]] 0 <= k < table@.len() && table@[k]@ == list@[i]@,
        0 <= t < table@.len() && ({
            ||| exists|k: int|
                #![trigger stack.l1@.hot_cells[k]]
                0 <= k < stack.l1@.hot_cells.len() && stack.l1@.hot_cells[k].seg_id == table@[t]@
            ||| exists|k: int|
                #![trigger stack.l1@.cold_cells[k]]
                0 <= k < stack.l1@.cold_cells.len() && stack.l1@.cold_cells[k].seg_id == table@[t]@
            ||| exists|k: int|
                #![trigger stack.l2.guard_list()[k]]
                0 <= k < stack.l2.guard_list().len() && stack.l2.guard_list()[k].key.seg_id == table@[t]@
            ||| exists|k: int|
                #![trigger stack.l3.entries()[k]]
                0 <= k < stack.l3.entries().len() && stack.l3.entries()[k].0.0 == table@[t]@
        }) ==> exists|k: int| #![trigger list@[k]] 0 <= k < list@.len() && list@[k]@ == table@[t]@,
        0 <= i < list@.len() ==> {
            ||| exists|k: int|
                #![trigger stack.l1@.hot_cells[k]]
                0 <= k < stack.l1@.hot_cells.len() && stack.l1@.hot_cells[k].seg_id == list@[i]@
            ||| exists|k: int|
                #![trigger stack.l1@.cold_cells[k]]
                0 <= k < stack.l1@.cold_cells.len() && stack.l1@.cold_cells[k].seg_id == list@[i]@
            ||| exists|k: int|
                #![trigger stack.l2.guard_list()[k]]
                0 <= k < stack.l2.guard_list().len() && stack.l2.guard_list()[k].key.seg_id == list@[i]@
            ||| exists|k: int|
                #![trigger stack.l3.entries()[k]]
                0 <= k < stack.l3.entries().len() && stack.l3.entries()[k].0.0 == list@[i]@
        },
{
    if 0 <= i < list@.len() {
        assert(crate::text::lists_text(list@, list@[i]@));
    }
    if 0 <= t < table@.len() {
        assert(crate::text::lists_text(table@, table@[t]@));
        let listed = crate::text::lists_text(list@, table@[t]@);
    }
}

/// A row is looked for in a guard of its segment and column whose rows it is among; none is
/// found when there is no such guard.
pub proof fn law_guard_of_a_row_is_found(
    disk: &DeltaL2Disk,
    seg_id: &str,
    col: &str,
    row: u64,
    r: Option<GuardKey>,
    g: int,
)
    requires
        disk.wf(),
        call_ensures(DeltaL2Disk::find_guard, (disk, seg_id, col, row), r),
    ensures
        r matches Some(k) ==> k@.seg_id == seg_id@ && k@.col == col@ && k@.start_row <= row < k@.end_row,
        0 <= g < disk.guard_list().len() && disk.guard_list()[g].key.seg_id == seg_id@ && disk.guard_list()[g].key.col
            == col@ && disk.guard_list()[g].key.start_row <= row < disk.guard_list()[g].key.end_row ==> r is Some,
{
    match r {
        Some(k) => {
            let guards = disk.guard_list();
            let i = choose|i: int|
                #![trigger guards[i]]
                0 <= i < guards.len() && crate::storage::delta::disk_store::holds_row(guards[i], seg_id@, col@, row)
                    && k@ == guards[i].key;
            assert(guards[i].key == k@);
        },
        None => {
            if 0 <= g < disk.guard_list().len() {
                assert(!crate::storage::delta::disk_store::holds_row(disk.guard_list()[g], seg_id@, col@, row));
            }
        },
    }
}

/// Cells are grouped by segment and column: a cell is in the group of its own, and in no other.
pub proof fn law_cells_are_grouped_by_column(
    groups: Map<(Seq<char>, Seq<char>), Vec<DeltaCell>>,
    cells: Seq<CellView>,
    i: int,
    key: (Seq<char>, Seq<char>),
    k: int,
)
    requires
        groups_cells(groups, cells),
    ensures
        0 <= i < cells.len() ==> groups.dom().contains((cells[i].seg_id, cells[i].column)) && exists|x: int|
            #![trigger groups[(cells[i].seg_id, cells[i].column)]@[x]]
            0 <= x < groups[(cells[i].seg_id, cells[i].column)]@.len() && groups[(
                cells[i].seg_id,
                cells[i].column,
            )]@[x]@ == cells[i],
        groups.dom().contains(key) && 0 <= k < groups[key]@.len() ==> groups[key]@[k]@.seg_id == key.0
            && groups[key]@[k]@.column == key.1 && cells.contains(groups[key]@[k]@),
{
    if 0 <= i < cells.len() {
        let own = (cells[i].seg_id, cells[i].column);
        assert(groups.dom().contains(own));
        let keep = crate::storage::delta::flush_engine::in_column(own);
        lemma_select_contains(cells, keep, cells[i]);
        assert(cells.contains(cells[i]));
        let views = cell_views(groups[own]@);
        let x = views.index_of(cells[i]);
        assert(views[x] == groups[own]@[x]@);
    }
    if groups.dom().contains(key) && 0 <= k < groups[key]@.len() {
        let keep = crate::storage::delta::flush_engine::in_column(key);
        let views = cell_views(groups[key]@);
        let c = groups[key]@[k]@;
        assert(views[k] == c);
        assert(views.contains(c));
        lemma_select_contains(cells, keep, c);
    }
}

/// What is seen of the load of the foreground: each part of it adds to the reads and to the
/// traffic, and nothing else.
pub proof fn law_profile_grows_with_the_load(a: u64, b: u64)
    requires
        a <= b <= 1_000_000,
    ensures
        observed_profile(b).read_amp - observed_profile(a).read_amp == 3 * (b - a),
        observed_profile(b).fg_io_mbps - observed_profile(a).fg_io_mbps == 100 * (b - a),
        observed_profile(0).read_amp == 200_000 && observed_profile(0).fg_io_mbps == 0,
        observed_profile(b).write_amp == 500_000 && observed_profile(b).p99_latency_ms == 0
            && observed_profile(b).queries_per_second == 0,
{
}

/// The files of a segment in the frozen layer are those of its entries.
pub proof fn law_frozen_files_are_those_of_the_segment(entries: Seq<FrozenEntry>, seg_id: Seq<char>, path: Seq<char>)
    ensures
        frozen_paths(entries, seg_id).contains(path) <==> exists|i: int|
            #![trigger entries[i]]
            0 <= i < entries.len() && entries[i].0.0 == seg_id && entries[i].1.0 == path,
        frozen_paths(entries, seg_id).len() <= entries.len(),
    decreases entries.len(),
{
    if entries.len() > 0 {
        let front = entries.drop_last();
        let n = entries.len() - 1;
        law_frozen_files_are_those_of_the_segment(front, seg_id, path);
        let a = frozen_paths(front, seg_id);
        let b = frozen_paths(entries, seg_id);
        assert(entries[n] == entries.last());
        if a.contains(path) {
            let i = choose|i: int|
                #![trigger front[i]]
                0 <= i < front.len() && front[i].0.0 == seg_id && front[i].1.0 == path;
            assert(entries[i] == front[i]);
            let x = a.index_of(path);
            assert(b[x] == path);
        }
        if entries[n].0.0 == seg_id && entries[n].1.0 == path {
            assert(b[a.len() as int] == path);
        }
        if b.contains(path) {
            let x = b.index_of(path);
            if x < a.len() {
                assert(a[x] == path);
            } else {
                assert(entries[n].0.0 == seg_id && entries[n].1.0 == path);
            }
        }
        if exists|i: int|
            #![trigger entries[i]]
            0 <= i < entries.len() && entries[i].0.0 == seg_id && entries[i].1.0 == path {
            let i = choose|i: int|
                #![trigger entries[i]]
                0 <= i < entries.len() && entries[i].0.0 == seg_id && entries[i].1.0 == path;
            if i < n {
                assert(front[i] == entries[i]);
            }
        }
    }
}

/// A column is flushed by the threshold of its class.
pub proof fn law_columns_are_flushed_by_their_class(
    store: &DeltaMemStore,
    column: &str,
    heat: &ColumnHeatTracker,
    class: ColumnClass,
    r: bool,
)
    requires
        store.wf(),
        *heat == store.heat(),
        call_ensures(DeltaMemStore::should_flush_for_column, (store, column), r),
        call_ensures(ColumnHeatTracker::classify, (heat, column), class),
    ensures
        r <==> store@.size > match class {
            ColumnClass::Hot => store.config().hot_flush_threshold,
            ColumnClass::Cold => store.config().cold_flush_threshold,
            ColumnClass::Warm => store.config().flush_threshold,
        },
{
}

/// Recovery in two parts counts as recovery at once; one operation counts the bytes of its cell,
/// and a store that is stopped counts none.
pub proof fn law_recovered_bytes_add_up(size: u64, a: Seq<WalOp>, b: Seq<WalOp>, op: WalOp)
    ensures
        recovered_size(recovered_size(size, a, false), b, false) == recovered_size(size, a + b, false),
        recovered_size(size, a, true) == size,
        replayed(op) is None ==> recovered_size(size, seq![op], false) == size,
        replayed(op) matches Some(c) ==> recovered_size(size, seq![op], false) == (size + cell_bytes(c))
            % 0x1_0000_0000_0000_0000,
    decreases b.len(),
{
    assert(seq![op].drop_last() =~= Seq::<WalOp>::empty());
    assert(recovered_size(size, Seq::<WalOp>::empty(), false) == size);
    if b.len() == 0 {
        assert(a + b =~= a);
    } else {
        law_recovered_bytes_add_up(size, a, b.drop_last(), op);
        assert((a + b).drop_last() =~= a + b.drop_last());
        assert((a + b).last() == b.last());
    }
}

/// A patch of few rows gives a cell for each row of its set; one of all rows gives one for each
/// row that it or its values have. A cell has the value of its row and no other image.
pub proof fn law_patch_gives_a_cell_for_each_row(
    format: &DeltaPatchFormat,
    cells: Vec<DeltaCell>,
    i: int,
)
    requires
        call_ensures(patch_to_deltas, (format,), Ok(cells)),
        0 <= i < cells@.len(),
    ensures
        cells@[i]@.before is None && cells@[i]@.committed,
        format@ matches FormatView::Dense { values, total_rows, txn_id } ==> cells@.len() >= total_rows
            && cells@[i]@.row_offset == i as u64 && cells@[i]@.txn_id == txn_id && (ipc_column(values) matches Some(
            (n, _),
        ) && cells@.len() >= n && (cells@.len() == n || cells@.len() == total_rows)) && (match ipc_column(values) {
            Some((n, Some(held))) => i < n ==> cells@[i]@.after == held[i],
            _ => true,
        }),
        format@ matches FormatView::Sparse { positions, values, .. } ==> cells@[i]@.row_offset <= u32::MAX
            && portable_rows(positions).contains(cells@[i]@.row_offset as u32) && (ipc_column(values) matches Some(
            (n, Some(held)),
        ) && i < n && cells@[i]@.after == held[i]),
{
    let views = cell_views(cells@);
    assert(patch_cells(format@)->Ok_0 == views);
    assert(views[i] == cells@[i]@);
    match format@ {
        FormatView::Sparse { positions, values, .. } => {
            let set = portable_rows(positions);
            lemma_has_listing(set);
            let rows = listing(set);
            let (_, held) = ipc_column(values)->0;
            let all = Seq::new(rows.len(), |x: int| patch_cell(rows[x] as u64, 0, (held->0)[x]));
            assert(views == all);
            assert(views.len() == rows.len());
            assert(all[i] == patch_cell(rows[i] as u64, 0, (held->0)[i]));
            assert(rows.contains(rows[i]));
        },
        FormatView::Dense { values, total_rows, txn_id } => {
            let n = (ipc_column(values)->0).0;
            let rows = if n > total_rows {
                n
            } else {
                total_rows as nat
            };
            let all = Seq::new(rows, |x: int| patch_cell(x as u64, txn_id, value_at(values, x)));
            assert(views == all);
            assert(all[i] == patch_cell(i as u64, txn_id, value_at(values, i)));
        },
    }
}

/// What a movement ends with: a flush ends an epoch, the others do not, and one that does not
/// fit its task does nothing.
pub proof fn law_only_flushes_end_an_epoch(
    before: DeltaLayerStack,
    after: DeltaLayerStack,
    d: CompactionDecision,
    selector: SparsitySelector,
    r: Result<bool, RockDuckError>,
)
    requires
        executed(before, after, d, selector, r),
    ensures
        r matches Ok(ended) ==> (ended <==> d.maintenance.action == RewriteAction::FlushL1ToL2),
        d.maintenance.action == RewriteAction::GuardMerge ==> after.l1 == before.l1 && after.l3 == before.l3 && after@
            == before@ && after.config == before.config,
        d.maintenance.action == RewriteAction::GuardMerge && !(d.action is GuardMerge) ==> after == before,
        d.maintenance.action == RewriteAction::CompactL2ToL3 && !(d.action is L2ToL3) ==> after == before,
{
}

/// What a merge clears away are the guards and the files of the patches that went into it, and
/// never a guard or a file that it has written.
pub proof fn law_merge_clears_only_what_it_has_read(
    plan: MergePlan,
    root: Seq<char>,
    index: (Seq<char>, Seq<char>, u64),
    path: Seq<char>,
    i: int,
)
    ensures
        stale_index(plan, index) ==> exists|k: int|
            #![trigger plan.patches@[k]]
            0 <= k < plan.patches@.len() && patch_index(plan.patches@[k]@) == index,
        0 <= i < plan.column_plans@.len() ==> !stale_index(
            plan,
            merged_key(plan, plan.column_plans@[i].col@).index(),
        ),
        stale_path(plan, root, path) ==> exists|k: int|
            #![trigger plan.patches@[k]]
            0 <= k < plan.patches@.len() && (plan.patches@[k].file_path@ == path || plan.patches@[k].file_path@
                + ".zm"@ == path),
        0 <= i < plan.patches@.len() && !is_merged_path(plan, root, plan.patches@[i].file_path@) ==> stale_path(
            plan,
            root,
            plan.patches@[i].file_path@,
        ),
{
    if 0 <= i < plan.column_plans@.len() {
        assert(is_merged_index(plan, merged_key(plan, plan.column_plans@[i].col@).index()));
    }
    if 0 <= i < plan.patches@.len() {
        let p = plan.patches@[i];
    }
}

/// Cells that are logged together are logged one by one, in their order, to stable storage, and
/// each is replayed at its place with its transaction and its images.
pub proof fn law_logged_cells_are_replayed(appends: Seq<WalAppend>, cells: Seq<CellView>, i: int)
    requires
        logs_all(appends, cells),
        0 <= i < cells.len(),
    ensures
        appends.len() == cells.len(),
        appends[i].durable,
        appends[i].txn_id == cells[i].txn_id,
        replayed(WalOp { txn_id: appends[i].txn_id, payload: appends[i].payload }) matches Some(c) && c.seg_id
            == cells[i].seg_id && c.row_offset == cells[i].row_offset && c.column == cells[i].column && c.after
            == cells[i].after && c.txn_id == cells[i].txn_id,
        appends[i].op_type == OpType::Update <==> cells[i].before is Some && cells[i].after is Some,
        appends[i].op_type == OpType::Insert <==> cells[i].before is None && cells[i].after is Some,
        appends[i].op_type == OpType::Delete <==> cells[i].after is None,
{
    crate::write::law_replay_restores_the_cell(appends[i].payload, cells[i]);
}

/// The guards of a segment are those of its key, with the least of their transactions.
pub proof fn law_guards_of_a_segment(guards: Seq<GuardView>, seg_id: Seq<char>, key: GuardKeyView, txn: u64)
    ensures
        guards_of(guards, seg_id).contains((key, txn)) <==> key.seg_id == seg_id && exists|i: int|
            #![trigger guards[i]]
            0 <= i < guards.len() && guards[i].key == key && guards[i].zone_map.min_txn == txn,
        guards_of(guards, seg_id).len() <= guards.len(),
    decreases guards.len(),
{
    if guards.len() > 0 {
        let front = guards.drop_last();
        let n = guards.len() - 1;
        law_guards_of_a_segment(front, seg_id, key, txn);
        let a = guards_of(front, seg_id);
        let b = guards_of(guards, seg_id);
        let e = (key, txn);
        assert(guards[n] == guards.last());
        if a.contains(e) {
            let i = choose|i: int|
                #![trigger front[i]]
                0 <= i < front.len() && front[i].key == key && front[i].zone_map.min_txn == txn;
            assert(guards[i] == front[i]);
            let x = a.index_of(e);
            assert(b[x] == e);
        }
        if key.seg_id == seg_id && guards[n].key == key && guards[n].zone_map.min_txn == txn {
            assert(b[a.len() as int] == e);
        }
        if b.contains(e) {
            let x = b.index_of(e);
            if x < a.len() {
                assert(a[x] == e);
            } else {
                assert(guards[n].key == key && guards[n].zone_map.min_txn == txn);
            }
        }
        if exists|i: int|
            #![trigger guards[i]]
            0 <= i < guards.len() && guards[i].key == key && guards[i].zone_map.min_txn == txn {
            let i = choose|i: int|
                #![trigger guards[i]]
                0 <= i < guards.len() && guards[i].key == key && guards[i].zone_map.min_txn == txn;
            if i < n {
                assert(front[i] == guards[i]);
            }
        }
    }
}

/// A new guard has no patch, and a new store no cell.
pub proof fn law_new_layers_are_empty(
    key: GuardKey,
    path: String,
    g: Guard,
    threshold: usize,
    level: SyncLevel,
    store: DeltaMemStore,
)
    requires
        call_ensures(Guard::new, (key, path), g),
        call_ensures(DeltaMemStore::new, (threshold, level), store),
    ensures
        g@.key == key@ && g@.file_path == path@ && g@.patch_count == 0,
        g@.zone_map.patch_count == 0 && g@.zone_map.total_affected == 0 && g@.zone_map.min_txn == 0
            && g@.zone_map.max_txn == 0 && g@.zone_map.min_value is None && g@.zone_map.max_value is None,
        store@.hot_cells.len() == 0 && store@.cold_cells.len() == 0 && store@.swapped.len() == 0
            && store@.pending.len() == 0 && store@.size == 0,
        store@.hot.dom() =~= Set::empty() && store@.cold.dom() =~= Set::empty(),
{
}

/// Patches are counted within the range of the counter, which goes on from zero behind it.
pub proof fn law_patch_counts_wrap(count: usize, more: usize)
    ensures
        count + more <= usize::MAX ==> counted_up(count, more) == count + more,
        count + more > usize::MAX ==> counted_up(count, more) + usize::MAX + 1 == count + more,
{
}

/// Without a cell there is no patch.
pub proof fn law_no_patch_without_cells(
    cells: &Vec<DeltaCell>,
    selector: &SparsitySelector,
    e: RockDuckError,
)
    requires
        call_ensures(build_patch_from_cells, (cells, selector), Err(e)),
    ensures
        e == RockDuckError::EmptyPatch <==> cells@.len() == 0,
        e == RockDuckError::TooLarge <==> cells@.len() > 0,
{
    assert(cell_views(cells@).len() == cells@.len());
}

} // verus!
