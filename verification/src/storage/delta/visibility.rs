//! What a snapshot sees in L2 once patches were appended, and in the whole stack
//! once a flush has ended.
use vstd::prelude::*;
use crate::codec::lemma_le_len;
use crate::error::RockDuckError;
use crate::storage::delta::disk_store::{appended, column_guards, gather, guard_cells, guard_file_path, guard_key_for, patch_record, DeltaL2Disk, DiskView, GuardView};
use crate::storage::delta::flush_engine::{all_appended, columns_written, group_of, has_winner, in_column, is_patch_of, lemma_patch_rows, lemma_row_place, makes_patch, only_l2_written, row_span, row_values, short_rows, wins_row};
use crate::storage::delta::frozen_store::frozen_gather;
use crate::storage::delta::mem_store::{best_at, lemma_select_contains, of_cell, picks_cell, select, visible_now};
use crate::storage::delta::merge::{cell_key, is_merge, is_winner, lemma_latest_wins, seen_by, wins};
use crate::storage::delta::patch_file::{file_header, has_image, law_append_is_read_back, law_new_file_is_whole, load_file, patch_cell, patch_cells, placed, record_at, record_cells, whole_file, DELTA_FILE_MAGIC, MAX_PAYLOAD_SIZE};
use crate::storage::delta::sparsity::{value_at, SparsitySelector};
use crate::storage::delta::stack::{DeltaLayerStack, DeltaQueryLayer};
use crate::storage::delta::types::{law_patch_round_trip, parse_payload, patch_payload, txn_visible, CellView, DeltaCell, DeltaPatch};
use crate::write::image_bytes;

verus! {

/// Segment, column and first row of a guard.
pub type GuardIndex = (Seq<char>, Seq<char>, u64);

/// Whether a snapshot of a segment sees a cell in one guard.
pub open spec fn shows(
    d: DiskView,
    k: GuardIndex,
    seg_id: Seq<char>,
    snapshot: u64,
    c: CellView,
) -> bool {
    &&& d.guards.dom().contains(k)
    &&& d.guards[k].key.seg_id == seg_id
    &&& guard_cells(d.guards[k], d.files, snapshot) matches Ok(cells) && cells.contains(c)
}

/// Whether a snapshot of a segment sees a cell.
pub open spec fn sees(d: DiskView, seg_id: Seq<char>, snapshot: u64, c: CellView) -> bool {
    exists|k: GuardIndex| #[trigger] shows(d, k, seg_id, snapshot, c)
}

/// Whether no guard of a segment is damaged.
pub open spec fn unharmed(d: DiskView, seg_id: Seq<char>, snapshot: u64) -> bool {
    forall|k: GuardIndex| #[trigger]
        d.guards.dom().contains(k) && d.guards[k].key.seg_id == seg_id ==> guard_cells(
            d.guards[k],
            d.files,
            snapshot,
        ) is Ok
}

/// What is gathered from a list of guards is what one of them shows.
pub proof fn lemma_gathered(
    guards: Seq<GuardView>,
    files: Map<Seq<char>, Seq<u8>>,
    seg_id: Seq<char>,
    snapshot: u64,
    c: CellView,
)
    ensures
        gather(guards, files, seg_id, snapshot).0.contains(c) == exists|i: int|
            #![trigger guards[i]]
            0 <= i < guards.len() && guards[i].key.seg_id == seg_id && (guard_cells(
                guards[i],
                files,
                snapshot,
            ) matches Ok(cells) && cells.contains(c)),
        gather(guards, files, seg_id, snapshot).1 is None == forall|i: int|
            #![trigger guards[i]]
            0 <= i < guards.len() && guards[i].key.seg_id == seg_id ==> guard_cells(
                guards[i],
                files,
                snapshot,
            ) is Ok,
    decreases guards.len(),
{
    if guards.len() > 0 {
        let front = guards.drop_last();
        let last = guards.len() - 1;
        lemma_gathered(front, files, seg_id, snapshot, c);
        assert forall|i: int| 0 <= i < last implies #[trigger] front[i] == guards[i] by {}
        let (cells, err) = gather(front, files, seg_id, snapshot);
        let g = guards[last];
        if g.key.seg_id == seg_id {
            if let Ok(more) = guard_cells(g, files, snapshot) {
                lemma_contains_joined(cells, more, c);
            }
        }
        assert forall|i: int| #![trigger guards[i]] 0 <= i < guards.len() implies i == last || guards[i]
            == front[i] by {}
    }
}

/// Two lists together hold what one of them holds.
pub proof fn lemma_contains_joined(a: Seq<CellView>, b: Seq<CellView>, c: CellView)
    ensures
        (a + b).contains(c) == (a.contains(c) || b.contains(c)),
{
    let joined = a + b;
    if a.contains(c) {
        let i = choose|i: int| 0 <= i < a.len() && a[i] == c;
        assert(joined[i] == c);
    }
    if b.contains(c) {
        let i = choose|i: int| 0 <= i < b.len() && b[i] == c;
        assert(joined[a.len() + i] == c);
    }
    if joined.contains(c) {
        let i = choose|i: int| 0 <= i < joined.len() && joined[i] == c;
        if i < a.len() {
            assert(a[i] == c);
        } else {
            assert(b[i - a.len()] == c);
        }
    }
}

/// What a query of L2 gives is what the guards show, and it fails when one of
/// them is damaged.
pub proof fn lemma_gather_sees(disk: DeltaL2Disk, seg_id: Seq<char>, snapshot: u64, c: CellView)
    requires
        disk.wf(),
    ensures
        gather(disk.guard_list(), disk@.files, seg_id, snapshot).0.contains(c) == sees(
            disk@,
            seg_id,
            snapshot,
            c,
        ),
        gather(disk.guard_list(), disk@.files, seg_id, snapshot).1 is None == unharmed(
            disk@,
            seg_id,
            snapshot,
        ),
{
    let list = disk.guard_list();
    let d = disk@;
    disk.lemma_guard_list();
    lemma_gathered(list, d.files, seg_id, snapshot, c);
    if sees(d, seg_id, snapshot, c) {
        let k = choose|k: GuardIndex| #[trigger] shows(d, k, seg_id, snapshot, c);
        assert(list.contains(d.guards[k]));
        let i = choose|i: int| 0 <= i < list.len() && list[i] == d.guards[k];
        assert(list[i].key.seg_id == seg_id);
    }
    if gather(list, d.files, seg_id, snapshot).0.contains(c) {
        let i = choose|i: int|
            #![trigger list[i]]
            0 <= i < list.len() && list[i].key.seg_id == seg_id && (guard_cells(
                list[i],
                d.files,
                snapshot,
            ) matches Ok(cells) && cells.contains(c));
        assert(shows(d, list[i].key.index(), seg_id, snapshot, c));
    }
    if unharmed(d, seg_id, snapshot) {
        assert forall|i: int| #![trigger list[i]] 0 <= i < list.len() && list[i].key.seg_id == seg_id implies guard_cells(
            list[i],
            d.files,
            snapshot,
        ) is Ok by {
            assert(d.guards.dom().contains(list[i].key.index()));
        }
    }
    if gather(list, d.files, seg_id, snapshot).1 is None {
        assert forall|k: GuardIndex| #[trigger]
            d.guards.dom().contains(k) && d.guards[k].key.seg_id == seg_id implies guard_cells(
            d.guards[k],
            d.files,
            snapshot,
        ) is Ok by {
            assert(list.contains(d.guards[k]));
            let i = choose|i: int| 0 <= i < list.len() && list[i] == d.guards[k];
            assert(list[i].key.seg_id == seg_id);
        }
    }
}

/// The guards of a column are those of the list that have it.
pub proof fn lemma_column_guards(guards: Seq<GuardView>, column: Seq<char>, g: GuardView)
    ensures
        column_guards(guards, column).contains(g) == (guards.contains(g) && g.key.col == column),
    decreases guards.len(),
{
    if guards.len() > 0 {
        let front = guards.drop_last();
        lemma_column_guards(front, column, g);
        let found = column_guards(front, column);
        let last = guards.last();
        if guards.contains(g) {
            let i = guards.index_of(g);
            if i < front.len() {
                assert(front[i] == g);
            }
        }
        if front.contains(g) {
            assert(guards[front.index_of(g)] == g);
        }
        if last == g {
            assert(guards[guards.len() - 1] == g);
        }
        if last.key.col == column {
            let all = found.push(last);
            assert(all[found.len() as int] == last);
            if found.contains(g) {
                assert(all[found.index_of(g)] == g);
            }
            if all.contains(g) && all.index_of(g) < found.len() {
                assert(found[all.index_of(g)] == g);
            }
        }
    }
}

/// A cell that a query of its segment gives is found by its row and column, or a later one
/// of the same place is.
pub proof fn law_visible_cell_is_found(
    disk: DeltaL2Disk,
    seg_id: Seq<char>,
    snapshot: u64,
    c: CellView,
    answer: Option<DeltaCell>,
)
    requires
        disk.wf(),
        gather(disk.guard_list(), disk@.files, seg_id, snapshot).1 is None,
        gather(disk.guard_list(), disk@.files, seg_id, snapshot).0.contains(c),
        picks_cell(
            gather(column_guards(disk.guard_list(), c.column), disk@.files, seg_id, snapshot).0,
            c.row_offset,
            c.column,
            answer,
        ),
    ensures
        gather(column_guards(disk.guard_list(), c.column), disk@.files, seg_id, snapshot).1 is None,
        answer matches Some(d) && cell_key(d@) == cell_key(c) && d@.txn_id >= c.txn_id,
{
    let list = disk.guard_list();
    let files = disk@.files;
    let part = column_guards(list, c.column);
    lemma_gathered(list, files, seg_id, snapshot, c);
    lemma_gathered(part, files, seg_id, snapshot, c);
    let i = choose|i: int|
        #![trigger list[i]]
        0 <= i < list.len() && list[i].key.seg_id == seg_id && (guard_cells(list[i], files, snapshot) matches Ok(
            cells,
        ) && cells.contains(c));
    let g = list[i];
    let cells = guard_cells(g, files, snapshot)->Ok_0;
    let k = choose|k: int| 0 <= k < cells.len() && cells[k] == c;
    assert(c.column == g.key.col && c.seg_id == seg_id);
    lemma_column_guards(list, c.column, g);
    assert(list.contains(g));
    let j = choose|j: int| 0 <= j < part.len() && part[j] == g;
    assert(part[j].key.seg_id == seg_id);
    assert forall|m: int| #![trigger part[m]] 0 <= m < part.len() && part[m].key.seg_id == seg_id implies guard_cells(
        part[m],
        files,
        snapshot,
    ) is Ok by {
        lemma_column_guards(list, c.column, part[m]);
        assert(part.contains(part[m]));
        let n = choose|n: int| 0 <= n < list.len() && list[n] == part[m];
        assert(list[n].key.seg_id == seg_id);
    }
    let found = gather(part, files, seg_id, snapshot).0;
    let x = choose|x: int| 0 <= x < found.len() && found[x] == c;
    assert(of_cell(found[x], c.row_offset, c.column));
    let d = answer->0@;
    let b = choose|b: int| best_at(found, c.row_offset, c.column, b) && d == found[b];
    lemma_gathered(part, files, seg_id, snapshot, d);
    assert(found.contains(d));
    let y = choose|y: int|
        #![trigger part[y]]
        0 <= y < part.len() && part[y].key.seg_id == seg_id && (guard_cells(part[y], files, snapshot) matches Ok(
            cells,
        ) && cells.contains(d));
    let shown = guard_cells(part[y], files, snapshot)->Ok_0;
    let z = choose|z: int| 0 <= z < shown.len() && shown[z] == d;
    assert(d.seg_id == seg_id);
}

/// Every guard has the file of its key, and no file breaks off.
pub open spec fn filed(d: DiskView, root: Seq<char>) -> bool {
    forall|k: GuardIndex| #[trigger]
        d.guards.dom().contains(k) ==> {
            let g = d.guards[k];
            &&& g.key.index() == k
            &&& g.file_path == guard_file_path(root, g.key)
            &&& d.files.dom().contains(g.file_path) ==> whole_file(d.files[g.file_path])
        }
}

/// The file to which a patch of a column is appended.
pub open spec fn patch_path(d: DiskView, root: Seq<char>, key: (Seq<char>, Seq<char>)) -> Seq<char> {
    let wanted = guard_key_for(key.0, key.1, 0);
    if d.guards.dom().contains(wanted.index()) {
        guard_file_path(root, d.guards[wanted.index()].key)
    } else {
        guard_file_path(root, wanted)
    }
}

/// The file of a column is that of no other guard, and there is none before its
/// guard is made.
pub open spec fn has_own_file(d: DiskView, root: Seq<char>, key: (Seq<char>, Seq<char>)) -> bool {
    let index = guard_key_for(key.0, key.1, 0).index();
    let path = patch_path(d, root, key);
    &&& forall|k: GuardIndex| #[trigger]
        d.guards.dom().contains(k) && k != index ==> d.guards[k].file_path != path
    &&& !d.guards.dom().contains(index) ==> !d.files.dom().contains(path)
}

/// A patch that can be read back: it is not too large, its bytes say what it is,
/// and its values can be taken out of it.
pub open spec fn patch_readable(patch: DeltaPatch) -> bool {
    &&& patch_payload(patch.format@).len() <= MAX_PAYLOAD_SIZE
    &&& parse_payload(patch_payload(patch.format@)) == Some(patch.format@)
    &&& patch_cells(patch.format@) is Ok
}

/// The cells of a patch of a column, once it is filed: they have the segment, the
/// column and, if the patch is sparse, the last transaction of the patch.
pub open spec fn patch_holds(key: (Seq<char>, Seq<char>), patch: DeltaPatch) -> Seq<CellView> {
    placed(key.0, key.1, record_cells(patch.format@, patch.txn_range.1)->Ok_0)
}

/// Whether a snapshot of a segment sees a cell of a patch of a column.
pub open spec fn patch_shows(
    key: (Seq<char>, Seq<char>),
    patch: DeltaPatch,
    seg_id: Seq<char>,
    snapshot: u64,
    c: CellView,
) -> bool {
    &&& key.0 == seg_id
    &&& patch.txn_range.1 <= snapshot
    &&& patch_cells(patch.format@) is Ok
    &&& patch_holds(key, patch).contains(c)
}

/// The file to which a patch is appended.
pub open spec fn patch_file_before(d: DiskView, path: Seq<char>) -> Seq<u8> {
    if d.files.dom().contains(path) {
        d.files[path]
    } else {
        file_header()
    }
}

/// The guard of a patch has its file, which grew by the record of the patch.
proof fn lemma_guard_filed(d: DiskView, root: Seq<char>, key: (Seq<char>, Seq<char>), patch: DeltaPatch)
    requires
        filed(d, root),
        has_own_file(d, root, key),
    ensures
        ({
            let after = appended(d, root, key.0, key.1, patch);
            let index = guard_key_for(key.0, key.1, 0).index();
            let path = patch_path(d, root, key);
            let g = after.guards[index];
            let file = patch_file_before(d, path);
            &&& g.key.index() == index
            &&& g.file_path == path
            &&& path == guard_file_path(root, g.key)
            &&& after.files.dom().contains(path)
            &&& after.files[path] == file + patch_record(patch)
            &&& whole_file(file)
            &&& d.guards.dom().contains(index) ==> d.guards[index].file_path == path
            &&& !d.guards.dom().contains(index) ==> !d.files.dom().contains(path)
        }),
{
    law_new_file_is_whole();
}

/// A new file shows nothing.
pub proof fn lemma_new_file_shows_nothing(snapshot: u64)
    ensures
        load_file(file_header(), snapshot) == Ok::<Seq<CellView>, RockDuckError>(Seq::empty()),
{
    law_new_file_is_whole();
    lemma_le_len(DELTA_FILE_MAGIC as nat, 4);
    assert(record_at(file_header(), 64) is None);
}

/// The guard of a patch has its file, and what a snapshot saw in it is followed
/// by the cells of the patch, if the snapshot is not older.
proof fn lemma_guard_grown(
    d: DiskView,
    root: Seq<char>,
    key: (Seq<char>, Seq<char>),
    patch: DeltaPatch,
    snapshot: u64,
)
    requires
        filed(d, root),
        has_own_file(d, root, key),
        patch_readable(patch),
    ensures
        ({
            let after = appended(d, root, key.0, key.1, patch);
            let index = guard_key_for(key.0, key.1, 0).index();
            let path = patch_path(d, root, key);
            let g = after.guards[index];
            let old = if d.guards.dom().contains(index) {
                guard_cells(d.guards[index], d.files, snapshot)
            } else {
                Ok(Seq::empty())
            };
            &&& g.key.index() == index
            &&& g.file_path == path
            &&& path == guard_file_path(root, g.key)
            &&& after.files.dom().contains(path)
            &&& whole_file(after.files[path])
            &&& guard_cells(g, after.files, snapshot) == match old {
                Err(e) => Err::<Seq<CellView>, RockDuckError>(e),
                Ok(cells) => Ok(
                    if patch.txn_range.1 <= snapshot {
                        cells + patch_holds(key, patch)
                    } else {
                        cells
                    },
                ),
            }
        }),
{
    let path = patch_path(d, root, key);
    let file = patch_file_before(d, path);
    let flag = if patch.format@ is Sparse {
        0u8
    } else {
        1u8
    };
    lemma_guard_filed(d, root, key, patch);
    lemma_new_file_shows_nothing(snapshot);
    lemma_record_read(file, patch, flag, snapshot);
    let more = record_cells(patch.format@, patch.txn_range.1)->Ok_0;
    if let Ok(old) = load_file(file, snapshot) {
        assert(placed(key.0, key.1, old + more) =~= placed(key.0, key.1, old) + placed(
            key.0,
            key.1,
            more,
        ));
        assert(old.len() == 0 ==> placed(key.0, key.1, old) =~= Seq::empty());
    }
}

/// What a snapshot sees in a file that grew by a patch.
proof fn lemma_record_read(file: Seq<u8>, patch: DeltaPatch, flag: u8, snapshot: u64)
    requires
        whole_file(file),
        patch_readable(patch),
        flag == if patch.format@ is Sparse {
            0u8
        } else {
            1u8
        },
    ensures
        whole_file(file + patch_record(patch)),
        load_file(file + patch_record(patch), snapshot) == match load_file(file, snapshot) {
            Err(e) => Err::<Seq<CellView>, RockDuckError>(e),
            Ok(old) => Ok(
                if patch.txn_range.1 <= snapshot {
                    old + record_cells(patch.format@, patch.txn_range.1)->Ok_0
                } else {
                    old
                },
            ),
        },
{
    law_append_is_read_back(
        file,
        patch.patch_id,
        patch.txn_range,
        flag,
        patch.zone_map.affected_rows as nat,
        patch_payload(patch.format@),
        snapshot,
    );
}

/// The other guards show what they did.
proof fn lemma_others_kept(
    d: DiskView,
    root: Seq<char>,
    key: (Seq<char>, Seq<char>),
    patch: DeltaPatch,
    k: GuardIndex,
    snapshot: u64,
)
    requires
        filed(d, root),
        has_own_file(d, root, key),
        k != guard_key_for(key.0, key.1, 0).index(),
    ensures
        ({
            let after = appended(d, root, key.0, key.1, patch);
            &&& after.guards.dom().contains(k) == d.guards.dom().contains(k)
            &&& d.guards.dom().contains(k) ==> {
                let path = d.guards[k].file_path;
                &&& after.guards[k] == d.guards[k]
                &&& after.files.dom().contains(path) == d.files.dom().contains(path)
                &&& d.files.dom().contains(path) ==> after.files[path] == d.files[path]
                &&& guard_cells(after.guards[k], after.files, snapshot) == guard_cells(
                    d.guards[k],
                    d.files,
                    snapshot,
                )
            }
        }),
{
    if d.guards.dom().contains(k) {
        assert(d.guards[k].file_path != patch_path(d, root, key));
    }
}

/// One more patch: every snapshot that is not older than it sees its cells and
/// what it saw before, every other snapshot what it saw before.
pub proof fn lemma_appended_sees(
    d: DiskView,
    root: Seq<char>,
    key: (Seq<char>, Seq<char>),
    patch: DeltaPatch,
    seg_id: Seq<char>,
    snapshot: u64,
    c: CellView,
)
    requires
        filed(d, root),
        has_own_file(d, root, key),
        patch_readable(patch),
    ensures
        ({
            let after = appended(d, root, key.0, key.1, patch);
            &&& filed(after, root)
            &&& unharmed(after, seg_id, snapshot) == unharmed(d, seg_id, snapshot)
            &&& unharmed(d, seg_id, snapshot) ==> sees(after, seg_id, snapshot, c) == (sees(
                d,
                seg_id,
                snapshot,
                c,
            ) || patch_shows(key, patch, seg_id, snapshot, c))
        }),
{
    let after = appended(d, root, key.0, key.1, patch);
    let index = guard_key_for(key.0, key.1, 0).index();
    lemma_guard_grown(d, root, key, patch, snapshot);
    assert forall|k: GuardIndex| #[trigger] after.guards.dom().contains(k) implies {
        let g = after.guards[k];
        &&& g.key.index() == k
        &&& g.file_path == guard_file_path(root, g.key)
        &&& after.files.dom().contains(g.file_path) ==> whole_file(after.files[g.file_path])
    } by {
        if k != index {
            lemma_others_kept(d, root, key, patch, k, snapshot);
            assert(d.guards.dom().contains(k));
        }
    }
    assert(unharmed(after, seg_id, snapshot) == unharmed(d, seg_id, snapshot)) by {
        if unharmed(d, seg_id, snapshot) {
            assert forall|k: GuardIndex| #[trigger]
                after.guards.dom().contains(k) && after.guards[k].key.seg_id == seg_id implies guard_cells(
                after.guards[k],
                after.files,
                snapshot,
            ) is Ok by {
                if k != index {
                    lemma_others_kept(d, root, key, patch, k, snapshot);
                }
                assert(d.guards.dom().contains(k) ==> d.guards[k].key.index() == k);
            }
        }
        if unharmed(after, seg_id, snapshot) {
            assert forall|k: GuardIndex| #[trigger]
                d.guards.dom().contains(k) && d.guards[k].key.seg_id == seg_id implies guard_cells(
                d.guards[k],
                d.files,
                snapshot,
            ) is Ok by {
                if k != index {
                    lemma_others_kept(d, root, key, patch, k, snapshot);
                }
                assert(after.guards.dom().contains(k) && after.guards[k].key.index() == k);
            }
        }
    }
    if unharmed(d, seg_id, snapshot) {
        lemma_step_sees(d, root, key, patch, seg_id, snapshot, c);
    }
}

proof fn lemma_step_sees(
    d: DiskView,
    root: Seq<char>,
    key: (Seq<char>, Seq<char>),
    patch: DeltaPatch,
    seg_id: Seq<char>,
    snapshot: u64,
    c: CellView,
)
    requires
        filed(d, root),
        has_own_file(d, root, key),
        patch_readable(patch),
        unharmed(d, seg_id, snapshot),
    ensures
        sees(appended(d, root, key.0, key.1, patch), seg_id, snapshot, c) == (sees(
            d,
            seg_id,
            snapshot,
            c,
        ) || patch_shows(key, patch, seg_id, snapshot, c)),
{
    let after = appended(d, root, key.0, key.1, patch);
    let index = guard_key_for(key.0, key.1, 0).index();
    let held = d.guards.dom().contains(index);
    lemma_guard_grown(d, root, key, patch, snapshot);
    let old = if held {
        guard_cells(d.guards[index], d.files, snapshot)
    } else {
        Ok(Seq::empty())
    };
    let cells = patch_holds(key, patch);
    if held {
        assert(d.guards[index].key.index() == index);
    }
    assert(index.0 == key.0);
    if key.0 == seg_id {
        assert(old is Ok);
        lemma_contains_joined(old->Ok_0, cells, c);
    }
    if sees(after, seg_id, snapshot, c) {
        let k = choose|k: GuardIndex| #[trigger] shows(after, k, seg_id, snapshot, c);
        if k != index {
            lemma_others_kept(d, root, key, patch, k, snapshot);
            assert(shows(d, k, seg_id, snapshot, c));
        } else if old->Ok_0.contains(c) {
            assert(held);
            assert(shows(d, k, seg_id, snapshot, c));
        }
    }
    if sees(d, seg_id, snapshot, c) {
        let k = choose|k: GuardIndex| #[trigger] shows(d, k, seg_id, snapshot, c);
        assert(d.guards.dom().contains(k));
        if k != index {
            lemma_others_kept(d, root, key, patch, k, snapshot);
        }
        assert(shows(after, k, seg_id, snapshot, c));
    }
    if patch_shows(key, patch, seg_id, snapshot, c) {
        assert(shows(after, index, seg_id, snapshot, c));
    }
}

/// What is gathered from two lists of guards, one after the other.
proof fn lemma_gather_joined(
    a: Seq<GuardView>,
    b: Seq<GuardView>,
    files: Map<Seq<char>, Seq<u8>>,
    seg_id: Seq<char>,
    snapshot: u64,
)
    ensures
        ({
            let (x, e) = gather(a, files, seg_id, snapshot);
            let (y, f) = gather(b, files, seg_id, snapshot);
            gather(a + b, files, seg_id, snapshot) == (
                x + y,
                if e is None {
                    f
                } else {
                    e
                },
            )
        }),
    decreases b.len(),
{
    let x = gather(a, files, seg_id, snapshot).0;
    if b.len() == 0 {
        assert(a + b =~= a);
        assert(x + Seq::<CellView>::empty() =~= x);
    } else {
        assert((a + b).drop_last() =~= a + b.drop_last());
        lemma_gather_joined(a, b.drop_last(), files, seg_id, snapshot);
        let y = gather(b.drop_last(), files, seg_id, snapshot).0;
        if let Ok(more) = guard_cells(b.last(), files, snapshot) {
            assert(x + y + more =~= x + (y + more));
        }
    }
}

/// What is gathered from guards depends on their own files only.
proof fn lemma_gather_files(
    guards: Seq<GuardView>,
    before: Map<Seq<char>, Seq<u8>>,
    after: Map<Seq<char>, Seq<u8>>,
    seg_id: Seq<char>,
    snapshot: u64,
)
    requires
        forall|i: int|
            #![trigger guards[i]]
            0 <= i < guards.len() ==> guard_cells(guards[i], after, snapshot) == guard_cells(
                guards[i],
                before,
                snapshot,
            ),
    ensures
        gather(guards, after, seg_id, snapshot) == gather(guards, before, seg_id, snapshot),
    decreases guards.len(),
{
    if guards.len() > 0 {
        let front = guards.drop_last();
        assert forall|i: int| #![trigger front[i]] 0 <= i < front.len() implies guard_cells(
            front[i],
            after,
            snapshot,
        ) == guard_cells(front[i], before, snapshot) by {
            assert(front[i] == guards[i]);
        }
        lemma_gather_files(front, before, after, seg_id, snapshot);
        assert(guards.last() == guards[guards.len() - 1]);
    }
}

/// What is gathered from one guard.
proof fn lemma_gather_one(
    g: GuardView,
    files: Map<Seq<char>, Seq<u8>>,
    seg_id: Seq<char>,
    snapshot: u64,
)
    ensures
        gather(seq![g], files, seg_id, snapshot) == if g.key.seg_id == seg_id {
            match guard_cells(g, files, snapshot) {
                Ok(cells) => (cells, None::<RockDuckError>),
                Err(e) => (Seq::<CellView>::empty(), Some(e)),
            }
        } else {
            (Seq::<CellView>::empty(), None::<RockDuckError>)
        },
{
    let one = seq![g];
    assert(one.drop_last() =~= Seq::<GuardView>::empty());
    assert(one.last() == g);
    assert(gather(one.drop_last(), files, seg_id, snapshot) == (
        Seq::<CellView>::empty(),
        None::<RockDuckError>,
    ));
    if let Ok(cells) = guard_cells(g, files, snapshot) {
        assert(Seq::<CellView>::empty() + cells =~= cells);
    }
}

/// `after` is `before` with some cells put in.
pub open spec fn put_in(before: Seq<CellView>, after: Seq<CellView>, cells: Seq<CellView>) -> bool {
    exists|a: Seq<CellView>, b: Seq<CellView>|
        before == #[trigger] (a + b) && after == a + cells + b
}

/// What is gathered when one guard in a list gives way to another that shows some
/// more cells, and the others show what they did.
proof fn lemma_gather_changed(
    front: Seq<GuardView>,
    middle: Seq<GuardView>,
    back: Seq<GuardView>,
    g: GuardView,
    before: Map<Seq<char>, Seq<u8>>,
    after: Map<Seq<char>, Seq<u8>>,
    seg_id: Seq<char>,
    snapshot: u64,
    more: Seq<CellView>,
)
    requires
        gather(front, after, seg_id, snapshot) == gather(front, before, seg_id, snapshot),
        gather(back, after, seg_id, snapshot) == gather(back, before, seg_id, snapshot),
        gather(seq![g], after, seg_id, snapshot).1 == gather(middle, before, seg_id, snapshot).1,
        gather(middle, before, seg_id, snapshot).1 is None ==> gather(seq![g], after, seg_id, snapshot).0
            == gather(middle, before, seg_id, snapshot).0 + more,
    ensures
        ({
            let (old, fault) = gather(front + (middle + back), before, seg_id, snapshot);
            let (new, new_fault) = gather(front + (seq![g] + back), after, seg_id, snapshot);
            &&& new_fault == fault
            &&& fault is None ==> put_in(old, new, more)
        }),
{
    lemma_gather_joined(front, middle + back, before, seg_id, snapshot);
    lemma_gather_joined(middle, back, before, seg_id, snapshot);
    lemma_gather_joined(front, seq![g] + back, after, seg_id, snapshot);
    lemma_gather_joined(seq![g], back, after, seg_id, snapshot);
    let x = gather(front, before, seg_id, snapshot).0;
    let y = gather(back, before, seg_id, snapshot).0;
    let m = gather(middle, before, seg_id, snapshot).0;
    let old = gather(front + (middle + back), before, seg_id, snapshot).0;
    let new = gather(front + (seq![g] + back), after, seg_id, snapshot).0;
    if gather(front + (middle + back), before, seg_id, snapshot).1 is None {
        assert(old =~= (x + m) + y);
        assert(new =~= (x + m) + more + y);
        assert(put_in(old, new, more));
    }
}

/// The guards beside that of a patch give what they gave.
proof fn lemma_gather_others(
    list: Seq<GuardView>,
    d: DiskView,
    root: Seq<char>,
    key: (Seq<char>, Seq<char>),
    patch: DeltaPatch,
    seg_id: Seq<char>,
    snapshot: u64,
)
    requires
        filed(d, root),
        has_own_file(d, root, key),
        forall|j: int|
            #![trigger list[j]]
            0 <= j < list.len() ==> {
                let k = list[j].key.index();
                k != guard_key_for(key.0, key.1, 0).index() && d.guards.dom().contains(k)
                    && d.guards[k] == list[j]
            },
    ensures
        gather(list, appended(d, root, key.0, key.1, patch).files, seg_id, snapshot) == gather(
            list,
            d.files,
            seg_id,
            snapshot,
        ),
{
    let files = appended(d, root, key.0, key.1, patch).files;
    assert forall|j: int| #![trigger list[j]] 0 <= j < list.len() implies guard_cells(
        list[j],
        files,
        snapshot,
    ) == guard_cells(list[j], d.files, snapshot) by {
        lemma_others_kept(d, root, key, patch, list[j].key.index(), snapshot);
    }
    lemma_gather_files(list, d.files, files, seg_id, snapshot);
}

/// The cells of a patch that a snapshot of a segment sees.
pub open spec fn patch_gives(
    key: (Seq<char>, Seq<char>),
    patch: DeltaPatch,
    seg_id: Seq<char>,
    snapshot: u64,
) -> Seq<CellView> {
    if key.0 == seg_id && patch.txn_range.1 <= snapshot {
        patch_holds(key, patch)
    } else {
        Seq::empty()
    }
}

/// The guard of a patch gives what it gave, and the cells of the patch.
proof fn lemma_gather_grown(
    d: DiskView,
    root: Seq<char>,
    key: (Seq<char>, Seq<char>),
    patch: DeltaPatch,
    middle: Seq<GuardView>,
    seg_id: Seq<char>,
    snapshot: u64,
)
    requires
        filed(d, root),
        has_own_file(d, root, key),
        patch_readable(patch),
        ({
            let index = guard_key_for(key.0, key.1, 0).index();
            middle == if d.guards.dom().contains(index) {
                seq![d.guards[index]]
            } else {
                Seq::empty()
            }
        }),
    ensures
        ({
            let after = appended(d, root, key.0, key.1, patch);
            let g = after.guards[guard_key_for(key.0, key.1, 0).index()];
            let (old, fault) = gather(middle, d.files, seg_id, snapshot);
            let (new, new_fault) = gather(seq![g], after.files, seg_id, snapshot);
            &&& new_fault == fault
            &&& fault is None ==> new == old + patch_gives(key, patch, seg_id, snapshot)
        }),
{
    let after = appended(d, root, key.0, key.1, patch);
    let index = guard_key_for(key.0, key.1, 0).index();
    let g = after.guards[index];
    lemma_guard_grown(d, root, key, patch, snapshot);
    lemma_gather_one(g, after.files, seg_id, snapshot);
    assert(g.key.seg_id == key.0);
    let old = gather(middle, d.files, seg_id, snapshot).0;
    if d.guards.dom().contains(index) {
        assert(d.guards[index].key.index() == index);
        lemma_gather_one(d.guards[index], d.files, seg_id, snapshot);
    }
    assert(old + Seq::<CellView>::empty() =~= old);
}

/// A patch that was appended is visible: every snapshot that is not older than
/// it sees what it saw before and, put in among it, the cells of the patch. A
/// query of another segment, or of an older snapshot, gives what it gave.
pub proof fn law_appended_patch_is_visible(
    before: DeltaL2Disk,
    after: DeltaL2Disk,
    key: (Seq<char>, Seq<char>),
    patch: DeltaPatch,
    seg_id: Seq<char>,
    snapshot: u64,
)
    requires
        before.wf(),
        after.wf(),
        after@ == appended(before@, before.root(), key.0, key.1, patch),
        filed(before@, before.root()),
        has_own_file(before@, before.root(), key),
        patch_readable(patch),
    ensures
        ({
            let (old, fault) = gather(before.guard_list(), before@.files, seg_id, snapshot);
            let (new, new_fault) = gather(after.guard_list(), after@.files, seg_id, snapshot);
            &&& new_fault == fault
            &&& fault is None ==> put_in(old, new, patch_gives(key, patch, seg_id, snapshot))
        }),
{
    let d = before@;
    let e = after@;
    let root = before.root();
    let index = guard_key_for(key.0, key.1, 0).index();
    let g = e.guards[index];
    assert(e.guards =~= d.guards.insert(index, g));
    let (front, middle, back) = lemma_list_split(before, after, index, g);
    lemma_gather_others(front, d, root, key, patch, seg_id, snapshot);
    lemma_gather_others(back, d, root, key, patch, seg_id, snapshot);
    let more = patch_gives(key, patch, seg_id, snapshot);
    lemma_gather_grown(d, root, key, patch, middle, seg_id, snapshot);
    lemma_gather_changed(front, middle, back, g, d.files, e.files, seg_id, snapshot, more);
}

/// The list of guards, taken apart where a guard was filed.
proof fn lemma_list_split(before: DeltaL2Disk, after: DeltaL2Disk, index: GuardIndex, g: GuardView) -> (r: (
    Seq<GuardView>,
    Seq<GuardView>,
    Seq<GuardView>,
))
    requires
        before.wf(),
        after.wf(),
        after@.guards == before@.guards.insert(index, g),
    ensures
        before.guard_list() == r.0 + (r.1 + r.2),
        after.guard_list() == r.0 + (seq![g] + r.2),
        r.1 == if before@.guards.dom().contains(index) {
            seq![before@.guards[index]]
        } else {
            Seq::empty()
        },
        forall|j: int|
            #![trigger r.0[j]]
            0 <= j < r.0.len() ==> r.0[j].key.index() != index && before@.guards.dom().contains(
                r.0[j].key.index(),
            ) && before@.guards[r.0[j].key.index()] == r.0[j],
        forall|j: int|
            #![trigger r.2[j]]
            0 <= j < r.2.len() ==> r.2[j].key.index() != index && before@.guards.dom().contains(
                r.2[j].key.index(),
            ) && before@.guards[r.2[j].key.index()] == r.2[j],
{
    let list = before.guard_list();
    let held = before@.guards.dom().contains(index);
    let i = before.lemma_list_grown(&after, index, g);
    let front = list.take(i);
    let back = if held {
        list.skip(i + 1)
    } else {
        list.skip(i)
    };
    let middle = if held {
        seq![list[i]]
    } else {
        Seq::empty()
    };
    assert(list =~= front + (middle + back));
    assert(after.guard_list() =~= front + (seq![g] + back));
    lemma_list_parts(before, index, i, front, back);
    (front, middle, back)
}

/// The guards before and behind a place in the list are those of other keys.
proof fn lemma_list_parts(
    disk: DeltaL2Disk,
    index: GuardIndex,
    i: int,
    front: Seq<GuardView>,
    back: Seq<GuardView>,
)
    requires
        disk.wf(),
        0 <= i <= disk.guard_list().len(),
        disk@.guards.dom().contains(index) ==> i < disk.guard_list().len() && disk.guard_list()[i]
            == disk@.guards[index],
        front == disk.guard_list().take(i),
        back == if disk@.guards.dom().contains(index) {
            disk.guard_list().skip(i + 1)
        } else {
            disk.guard_list().skip(i)
        },
    ensures
        forall|j: int|
            #![trigger front[j]]
            0 <= j < front.len() ==> front[j].key.index() != index && disk@.guards.dom().contains(
                front[j].key.index(),
            ) && disk@.guards[front[j].key.index()] == front[j],
        forall|j: int|
            #![trigger back[j]]
            0 <= j < back.len() ==> back[j].key.index() != index && disk@.guards.dom().contains(
                back[j].key.index(),
            ) && disk@.guards[back[j].key.index()] == back[j],
{
    let list = disk.guard_list();
    let held = disk@.guards.dom().contains(index);
    disk.lemma_guard_list();
    disk.lemma_guards_distinct();
    assert forall|j: int| #![trigger list[j]] 0 <= j < list.len() && (!held || j != i) implies list[j].key.index()
        != index by {
        if held {
            assert(list[i].key.index() == index);
            if j < i {
                assert(list[j].key.index() != list[i].key.index());
            } else {
                assert(list[i].key.index() != list[j].key.index());
            }
        }
    }
    assert forall|j: int| #![trigger front[j]] 0 <= j < front.len() implies front[j] == list[j] by {}
    let from = if held {
        i + 1
    } else {
        i
    };
    assert forall|j: int| #![trigger back[j]] 0 <= j < back.len() implies back[j] == list[from + j] by {}
}

/// Every column has a file of its own.
pub open spec fn own_files(d: DiskView, root: Seq<char>, keys: Seq<(Seq<char>, Seq<char>)>) -> bool {
    &&& forall|i: int| #![trigger keys[i]] 0 <= i < keys.len() ==> has_own_file(d, root, keys[i])
    &&& forall|i: int, j: int|
        #![trigger keys[i], keys[j]]
        0 <= i < j < keys.len() ==> patch_path(d, root, keys[i]) != patch_path(d, root, keys[j])
}

/// Whether a snapshot of a segment sees a cell of one of the patches.
pub open spec fn patches_show(
    keys: Seq<(Seq<char>, Seq<char>)>,
    patches: Seq<DeltaPatch>,
    seg_id: Seq<char>,
    snapshot: u64,
    c: CellView,
) -> bool {
    exists|i: int|
        0 <= i < patches.len() && #[trigger] patch_shows(keys[i], patches[i], seg_id, snapshot, c)
}

/// A column keeps its file while a patch of another is appended.
proof fn lemma_own_file_kept(
    d: DiskView,
    root: Seq<char>,
    key: (Seq<char>, Seq<char>),
    patch: DeltaPatch,
    other: (Seq<char>, Seq<char>),
)
    requires
        filed(d, root),
        has_own_file(d, root, key),
        has_own_file(d, root, other),
        key != other,
        patch_path(d, root, key) != patch_path(d, root, other),
    ensures
        ({
            let after = appended(d, root, key.0, key.1, patch);
            &&& has_own_file(after, root, other)
            &&& patch_path(after, root, other) == patch_path(d, root, other)
        }),
{
    let after = appended(d, root, key.0, key.1, patch);
    let index = guard_key_for(key.0, key.1, 0).index();
    let other_index = guard_key_for(other.0, other.1, 0).index();
    assert(index != other_index) by {
        assert(index.0 == key.0 && index.1 == key.1);
        assert(other_index.0 == other.0 && other_index.1 == other.1);
    }
    lemma_guard_filed(d, root, key, patch);
    lemma_others_kept(d, root, key, patch, other_index, 0);
    let path = patch_path(d, root, other);
    assert(patch_path(after, root, other) == path);
    assert forall|k: GuardIndex| #[trigger]
        after.guards.dom().contains(k) && k != other_index implies after.guards[k].file_path != path by {
        if k != index {
            lemma_others_kept(d, root, key, patch, k, 0);
            assert(d.guards.dom().contains(k));
        }
    }
}

/// Patches of several columns: every snapshot sees the cells of those that are
/// not newer than it and what it saw before.
proof fn lemma_all_appended_see(
    d: DiskView,
    root: Seq<char>,
    keys: Seq<(Seq<char>, Seq<char>)>,
    patches: Seq<DeltaPatch>,
    seg_id: Seq<char>,
    snapshot: u64,
    c: CellView,
)
    requires
        filed(d, root),
        own_files(d, root, keys),
        keys.no_duplicates(),
        patches.len() <= keys.len(),
        forall|i: int| #![trigger patches[i]] 0 <= i < patches.len() ==> patch_readable(patches[i]),
    ensures
        ({
            let after = all_appended(d, root, keys, patches);
            &&& filed(after, root)
            &&& forall|i: int|
                #![trigger keys[i]]
                patches.len() <= i < keys.len() ==> has_own_file(after, root, keys[i]) && patch_path(
                    after,
                    root,
                    keys[i],
                ) == patch_path(d, root, keys[i])
            &&& unharmed(after, seg_id, snapshot) == unharmed(d, seg_id, snapshot)
            &&& unharmed(d, seg_id, snapshot) ==> sees(after, seg_id, snapshot, c) == (sees(
                d,
                seg_id,
                snapshot,
                c,
            ) || patches_show(keys, patches, seg_id, snapshot, c))
        }),
    decreases patches.len(),
{
    if patches.len() > 0 {
        let front = patches.drop_last();
        let n = front.len() as int;
        assert forall|i: int| #![trigger front[i]] 0 <= i < front.len() implies patch_readable(front[i]) by {
            assert(front[i] == patches[i]);
        }
        lemma_all_appended_see(d, root, keys, front, seg_id, snapshot, c);
        let mid = all_appended(d, root, keys, front);
        let key = keys[n];
        let patch = patches[n];
        assert(patch_readable(patch));
        lemma_appended_sees(mid, root, key, patch, seg_id, snapshot, c);
        let after = appended(mid, root, key.0, key.1, patch);
        assert(after == all_appended(d, root, keys, patches));
        assert forall|i: int| #![trigger keys[i]] patches.len() <= i < keys.len() implies has_own_file(
            after,
            root,
            keys[i],
        ) && patch_path(after, root, keys[i]) == patch_path(d, root, keys[i]) by {
            assert(keys[n] != keys[i]);
            assert(patch_path(d, root, keys[n]) != patch_path(d, root, keys[i]));
            lemma_own_file_kept(mid, root, key, patch, keys[i]);
        }
        lemma_last_shows(keys, patches, seg_id, snapshot, c);
    }
}

proof fn lemma_last_shows(
    keys: Seq<(Seq<char>, Seq<char>)>,
    patches: Seq<DeltaPatch>,
    seg_id: Seq<char>,
    snapshot: u64,
    c: CellView,
)
    requires
        patches.len() > 0,
    ensures
        patches_show(keys, patches, seg_id, snapshot, c) == (patches_show(
            keys,
            patches.drop_last(),
            seg_id,
            snapshot,
            c,
        ) || patch_shows(keys[patches.len() - 1], patches.last(), seg_id, snapshot, c)),
{
    let front = patches.drop_last();
    let n = front.len() as int;
    if patches_show(keys, patches, seg_id, snapshot, c) {
        let i = choose|i: int|
            0 <= i < patches.len() && #[trigger] patch_shows(keys[i], patches[i], seg_id, snapshot, c);
        if i < n {
            assert(patch_shows(keys[i], front[i], seg_id, snapshot, c));
        }
    }
    if patches_show(keys, front, seg_id, snapshot, c) {
        let i = choose|i: int|
            0 <= i < front.len() && #[trigger] patch_shows(keys[i], front[i], seg_id, snapshot, c);
        assert(patch_shows(keys[i], patches[i], seg_id, snapshot, c));
    }
    if patch_shows(keys[n], patches.last(), seg_id, snapshot, c) {
        assert(patch_shows(keys[n], patches[n], seg_id, snapshot, c));
    }
}

/// What a flush wrote is visible: after it, a query of the stack gives what it
/// gave before, and the cells of every patch of the segment that is not newer
/// than the snapshot; and it gives no other cell.
pub proof fn law_flushed_patches_are_visible(
    before: DeltaLayerStack,
    after: DeltaLayerStack,
    cells: Seq<CellView>,
    selector: SparsitySelector,
    keys: Seq<(Seq<char>, Seq<char>)>,
    patches: Seq<DeltaPatch>,
    written: usize,
    seg_id: Seq<char>,
    snapshot: u64,
    c: CellView,
)
    requires
        before.wf(),
        only_l2_written(before, after),
        columns_written(before, after, cells, selector, keys, patches, Ok(written)),
        filed(before.l2@, before.l2.root()),
        own_files(before.l2@, before.l2.root(), keys),
        forall|i: int| #![trigger patches[i]] 0 <= i < patches.len() ==> patch_readable(patches[i]),
    ensures
        before.held(seg_id, snapshot) is Ok == after.held(seg_id, snapshot) is Ok,
        before.held(seg_id, snapshot) matches Ok(old) ==> (after.held(seg_id, snapshot) matches Ok(new)
            && new.contains(c) == (old.contains(c) || patches_show(keys, patches, seg_id, snapshot, c))),
{
    let d = before.l2@;
    lemma_all_appended_see(d, before.l2.root(), keys, patches, seg_id, snapshot, c);
    lemma_gather_sees(before.l2, seg_id, snapshot, c);
    lemma_gather_sees(after.l2, seg_id, snapshot, c);
    let (x, fault) = gather(before.l2.guard_list(), before.l2@.files, seg_id, snapshot);
    let (y, new_fault) = gather(after.l2.guard_list(), after.l2@.files, seg_id, snapshot);
    assert(fault is None == new_fault is None);
    let seen = visible_now(before.l1@, seg_id, snapshot);
    if let Ok(frozen) = frozen_gather(before.l3.entries(), before.l3@.files, seg_id, snapshot) {
        lemma_contains_joined(seen, x, c);
        lemma_contains_joined(seen + x, frozen, c);
        lemma_contains_joined(seen, y, c);
        lemma_contains_joined(seen + y, frozen, c);
    }
}

/// What a cell is once it was flushed: its row, its after-image, and the last
/// transaction of its patch.
pub open spec fn flushed_cell(key: (Seq<char>, Seq<char>), patch: DeltaPatch, c: CellView) -> CellView {
    CellView {
        seg_id: key.0,
        row_offset: c.row_offset,
        column: key.1,
        txn_id: patch.txn_range.1,
        before: None,
        after: Some(image_bytes(c.after)),
        committed: true,
        ts: 0,
    }
}

/// The cells of a sparse patch are those of the rows that it was given.
proof fn lemma_sparse_cells(
    patch: DeltaPatch,
    cells: Seq<CellView>,
    selector: SparsitySelector,
    rows: Seq<u64>,
    values: Seq<Option<Seq<u8>>>,
)
    requires
        is_patch_of(patch, cells, selector, rows, values),
        cells.len() > 0,
        patch.format@ is Sparse,
    ensures
        record_cells(patch.format@, patch.txn_range.1) == Ok::<Seq<CellView>, RockDuckError>(
            Seq::new(rows.len(), |a: int| patch_cell(rows[a], patch.txn_range.1, values[a])),
        ),
{
    lemma_patch_rows(patch, cells, selector, rows, values);
    let found = record_cells(patch.format@, patch.txn_range.1)->Ok_0;
    let want = Seq::new(rows.len(), |a: int| patch_cell(rows[a], patch.txn_range.1, values[a]));
    assert forall|a: int| 0 <= a < rows.len() implies found[a] == want[a] by {
        assert(short_rows(rows)[a] == rows[a]);
    }
    assert(found =~= want);
}

/// The cells of a dense patch are those of the rows that it was given.
proof fn lemma_dense_cells(
    patch: DeltaPatch,
    cells: Seq<CellView>,
    selector: SparsitySelector,
    rows: Seq<u64>,
    values: Seq<Option<Seq<u8>>>,
    c: CellView,
)
    requires
        is_patch_of(patch, cells, selector, rows, values),
        cells.len() > 0,
        patch.format@ is Dense,
    ensures
        record_cells(patch.format@, patch.txn_range.1) is Ok,
        record_cells(patch.format@, patch.txn_range.1)->Ok_0.contains(c) == exists|a: int|
            #![trigger rows[a]]
            0 <= a < rows.len() && c == patch_cell(rows[a], patch.txn_range.1, values[a]),
{
    lemma_patch_rows(patch, cells, selector, rows, values);
    let v = patch.format@->Dense_values;
    let n = row_span(rows) as nat;
    let txn = patch.txn_range.1;
    let all = Seq::new(n, |i: int| patch_cell(i as u64, txn, value_at(v, i)));
    assert(record_cells(patch.format@, txn)->Ok_0 == select(all, has_image()));
    lemma_select_contains(all, has_image(), c);
    if all.contains(c) && c.after is Some {
        let i = choose|i: int| 0 <= i < all.len() && all[i] == c;
        assert(value_at(v, i) == row_values(rows, values, n)[i]);
        assert(rows.contains(i as u64));
        let a = rows.index_of(i as u64);
        assert(rows[a] == i);
        assert(c == patch_cell(rows[a], txn, values[a]));
    }
    if exists|a: int| #![trigger rows[a]] 0 <= a < rows.len() && c == patch_cell(rows[a], txn, values[a]) {
        let a = choose|a: int|
            #![trigger rows[a]]
            0 <= a < rows.len() && c == patch_cell(rows[a], txn, values[a]);
        let i = rows[a] as int;
        lemma_row_place(rows, a);
        assert(has_winner(cells, rows[a]));
        let w = choose|w: int| #[trigger] wins_row(cells, w) && cells[w].row_offset == rows[a];
        assert(values[a] == Some(image_bytes(cells[w].after)));
        assert(value_at(v, i) == row_values(rows, values, n)[i]);
        assert(all[i] == c);
    }
}

/// A patch that a flush made can be read back, unless it is too large, and the cells that
/// it holds are exactly those that win a row, each under its row and with its after-image.
pub proof fn law_flushed_patch_is_readable(
    key: (Seq<char>, Seq<char>),
    patch: DeltaPatch,
    cells: Seq<CellView>,
    selector: SparsitySelector,
    c: CellView,
)
    requires
        makes_patch(patch, cells, selector),
        patch_payload(patch.format@).len() <= MAX_PAYLOAD_SIZE,
    ensures
        patch_readable(patch),
        patch_holds(key, patch).contains(c) == exists|i: int| #[trigger]
            wins_row(cells, i) && c == flushed_cell(key, patch, cells[i]),
{
    let (rows, values) = choose|rows: Seq<u64>, values: Seq<Option<Seq<u8>>>| #[trigger]
        is_patch_of(patch, cells, selector, rows, values);
    let txn = patch.txn_range.1;
    lemma_patch_rows(patch, cells, selector, rows, values);
    law_patch_round_trip(patch.format@);
    if patch.format@ is Sparse {
        lemma_sparse_cells(patch, cells, selector, rows, values);
    } else {
        lemma_dense_cells(patch, cells, selector, rows, values, c);
    }
    let found = record_cells(patch.format@, txn)->Ok_0;
    if patch_holds(key, patch).contains(c) {
        let k = choose|k: int| 0 <= k < found.len() && patch_holds(key, patch)[k] == c;
        let bare = found[k];
        assert(found.contains(bare));
        lemma_found_rows(patch, cells, selector, rows, values, bare);
        let a = choose|a: int|
            #![trigger rows[a]]
            0 <= a < rows.len() && bare == patch_cell(rows[a], txn, values[a]);
        assert(has_winner(cells, rows[a]));
        let w = choose|w: int| #[trigger] wins_row(cells, w) && cells[w].row_offset == rows[a];
        assert(values[a] == Some(image_bytes(cells[w].after)));
        assert(c == flushed_cell(key, patch, cells[w]));
    }
    if exists|i: int| #[trigger] wins_row(cells, i) && c == flushed_cell(key, patch, cells[i]) {
        let i = choose|i: int| #[trigger] wins_row(cells, i) && c == flushed_cell(key, patch, cells[i]);
        assert(rows.contains(cells[i].row_offset));
        let a = rows.index_of(cells[i].row_offset);
        assert(rows[a] == cells[i].row_offset);
        assert(values[a] == Some(image_bytes(cells[i].after)));
        let bare = patch_cell(rows[a], txn, values[a]);
        lemma_found_rows(patch, cells, selector, rows, values, bare);
        assert(found.contains(bare));
        let k = choose|k: int| 0 <= k < found.len() && found[k] == bare;
        assert(patch_holds(key, patch)[k] == c);
    }
}

proof fn lemma_found_rows(
    patch: DeltaPatch,
    cells: Seq<CellView>,
    selector: SparsitySelector,
    rows: Seq<u64>,
    values: Seq<Option<Seq<u8>>>,
    c: CellView,
)
    requires
        is_patch_of(patch, cells, selector, rows, values),
        cells.len() > 0,
    ensures
        record_cells(patch.format@, patch.txn_range.1) is Ok,
        record_cells(patch.format@, patch.txn_range.1)->Ok_0.contains(c) == exists|a: int|
            #![trigger rows[a]]
            0 <= a < rows.len() && c == patch_cell(rows[a], patch.txn_range.1, values[a]),
{
    if patch.format@ is Sparse {
        lemma_sparse_cells(patch, cells, selector, rows, values);
        let found = record_cells(patch.format@, patch.txn_range.1)->Ok_0;
        if found.contains(c) {
            let a = choose|a: int| 0 <= a < found.len() && found[a] == c;
            assert(c == patch_cell(rows[a], patch.txn_range.1, values[a]));
        }
        if exists|a: int|
            #![trigger rows[a]]
            0 <= a < rows.len() && c == patch_cell(rows[a], patch.txn_range.1, values[a]) {
            let a = choose|a: int|
                #![trigger rows[a]]
                0 <= a < rows.len() && c == patch_cell(rows[a], patch.txn_range.1, values[a]);
            assert(found[a] == c);
        }
    } else {
        lemma_dense_cells(patch, cells, selector, rows, values, c);
    }
}

/// Every cell of a flush that wins its row is read back from the stack, under its
/// segment, its column and its row and with its after-image, by every snapshot that
/// is not older than the patch of its column.
pub proof fn law_flushed_cell_is_visible(
    before: DeltaLayerStack,
    after: DeltaLayerStack,
    cells: Seq<CellView>,
    selector: SparsitySelector,
    keys: Seq<(Seq<char>, Seq<char>)>,
    patches: Seq<DeltaPatch>,
    written: usize,
    k: int,
    i: int,
    snapshot: u64,
)
    requires
        before.wf(),
        only_l2_written(before, after),
        columns_written(before, after, cells, selector, keys, patches, Ok(written)),
        filed(before.l2@, before.l2.root()),
        own_files(before.l2@, before.l2.root(), keys),
        forall|j: int| #![trigger patches[j]] 0 <= j < patches.len() ==> patch_readable(patches[j]),
        0 <= k < keys.len(),
        patches[k].txn_range.1 <= snapshot,
        wins_row(group_of(cells, keys[k]), i),
        before.held(keys[k].0, snapshot) is Ok,
    ensures
        after.held(keys[k].0, snapshot) matches Ok(new) && new.contains(
            flushed_cell(keys[k], patches[k], group_of(cells, keys[k])[i]),
        ),
{
    let group = group_of(cells, keys[k]);
    let c = flushed_cell(keys[k], patches[k], group[i]);
    assert(makes_patch(patches[k], group, selector));
    assert(patch_readable(patches[k]));
    law_flushed_patch_is_readable(keys[k], patches[k], group, selector, c);
    assert(patch_shows(keys[k], patches[k], keys[k].0, snapshot, c));
    law_flushed_patches_are_visible(
        before,
        after,
        cells,
        selector,
        keys,
        patches,
        written,
        keys[k].0,
        snapshot,
        c,
    );
}

/// A query after a flush answers for every cell of the flush that wins its row, if
/// the last transaction of its patch is visible: it gives a cell of the same
/// segment, column and row that is not older, and the flushed cell itself unless the
/// stack holds a newer one or another of the same transaction.
pub proof fn law_flushed_cell_is_queried(
    before: DeltaLayerStack,
    after: DeltaLayerStack,
    cells: Seq<CellView>,
    selector: SparsitySelector,
    keys: Seq<(Seq<char>, Seq<char>)>,
    patches: Seq<DeltaPatch>,
    written: usize,
    k: int,
    i: int,
    snapshot: u64,
    commits: Map<u64, u64>,
    active: Set<u64>,
    merged: Seq<CellView>,
)
    requires
        before.wf(),
        only_l2_written(before, after),
        columns_written(before, after, cells, selector, keys, patches, Ok(written)),
        filed(before.l2@, before.l2.root()),
        own_files(before.l2@, before.l2.root(), keys),
        forall|j: int| #![trigger patches[j]] 0 <= j < patches.len() ==> patch_readable(patches[j]),
        0 <= k < keys.len(),
        txn_visible(patches[k].txn_range.1, snapshot, commits, active),
        wins_row(group_of(cells, keys[k]), i),
        before.held(keys[k].0, snapshot) is Ok,
        after.held(keys[k].0, snapshot) matches Ok(held) ==> is_merge(
            merged,
            held,
            seen_by(snapshot, commits, active),
        ),
    ensures
        ({
            let c = flushed_cell(keys[k], patches[k], group_of(cells, keys[k])[i]);
            let ok = seen_by(snapshot, commits, active);
            &&& exists|m: int|
                #![trigger merged[m]]
                0 <= m < merged.len() && cell_key(merged[m]) == cell_key(c) && merged[m].txn_id
                    >= c.txn_id
            &&& after.held(keys[k].0, snapshot) matches Ok(held) && ((forall|j: int|
                #![trigger held[j]]
                0 <= j < held.len() && ok(held[j]) && cell_key(held[j]) == cell_key(c) && held[j] != c
                    ==> held[j].txn_id < c.txn_id) ==> merged.contains(c))
        }),
{
    let c = flushed_cell(keys[k], patches[k], group_of(cells, keys[k])[i]);
    let ok = seen_by(snapshot, commits, active);
    law_flushed_cell_is_visible(before, after, cells, selector, keys, patches, written, k, i, snapshot);
    let held = after.held(keys[k].0, snapshot)->Ok_0;
    let j = choose|j: int| 0 <= j < held.len() && held[j] == c;
    assert(ok(held[j]));
    let w = lemma_latest_wins(held, ok, j);
    assert(merged.contains(held[w]));
    let m = choose|m: int| 0 <= m < merged.len() && merged[m] == held[w];
    assert(cell_key(merged[m]) == cell_key(c));
    assert(merged[m].txn_id >= c.txn_id);
    assert(ok(held[w]));
}

/// What a flush wrote has the identity of one of its cells.
proof fn lemma_shown_was_flushed(
    cells: Seq<CellView>,
    selector: SparsitySelector,
    keys: Seq<(Seq<char>, Seq<char>)>,
    patches: Seq<DeltaPatch>,
    seg_id: Seq<char>,
    snapshot: u64,
    c: CellView,
) -> (i: int)
    requires
        patches.len() <= keys.len(),
        forall|i: int|
            #![trigger patches[i]]
            0 <= i < patches.len() ==> makes_patch(patches[i], group_of(cells, keys[i]), selector)
                && patch_readable(patches[i]),
        patches_show(keys, patches, seg_id, snapshot, c),
    ensures
        0 <= i < cells.len(),
        cell_key(cells[i]) == cell_key(c),
{
    let k = choose|k: int|
        0 <= k < patches.len() && #[trigger] patch_shows(keys[k], patches[k], seg_id, snapshot, c);
    let group = group_of(cells, keys[k]);
    assert(makes_patch(patches[k], group, selector));
    law_flushed_patch_is_readable(keys[k], patches[k], group, selector, c);
    let w = choose|w: int| #[trigger]
        wins_row(group, w) && c == flushed_cell(keys[k], patches[k], group[w]);
    lemma_select_contains(cells, in_column(keys[k]), group[w]);
    assert(group.contains(group[w]));
    let i = choose|i: int| 0 <= i < cells.len() && cells[i] == group[w];
    i
}

/// Two queries of which the second sees every cell of an identity that the first sees, and
/// no other: what the first gives for it, the second gives, or another cell of the same
/// transaction.
proof fn lemma_same_answer(
    held: Seq<CellView>,
    other: Seq<CellView>,
    ok: spec_fn(CellView) -> bool,
    merged: Seq<CellView>,
    again: Seq<CellView>,
    a: CellView,
) -> (b: CellView)
    requires
        is_merge(merged, held, ok),
        is_merge(again, other, ok),
        forall|c: CellView| cell_key(c) == cell_key(a) ==> #[trigger] held.contains(c) == other.contains(c),
        merged.contains(a),
    ensures
        again.contains(b),
        cell_key(b) == cell_key(a),
        b.txn_id == a.txn_id,
        held.contains(b),
{
    let m = choose|m: int| 0 <= m < merged.len() && merged[m] == a;
    assert(is_winner(held, ok, merged[m]));
    let i = choose|i: int| wins(held, ok, i) && held[i] == a;
    assert(held.contains(a));
    let j = choose|j: int| 0 <= j < other.len() && other[j] == a;
    let w = lemma_latest_wins(other, ok, j);
    let b = other[w];
    assert(other.contains(b));
    assert(held.contains(b));
    let k = choose|k: int| 0 <= k < held.len() && held[k] == b;
    assert(ok(held[k]));
    assert(again.contains(other[w]));
    b
}

/// A flush touches no identity but those of its cells: for every other one, a query gives
/// afterwards what it gave before, or, if the stack holds several cells of that identity
/// and transaction, another of them.
pub proof fn law_flush_leaves_other_cells(
    before: DeltaLayerStack,
    after: DeltaLayerStack,
    cells: Seq<CellView>,
    selector: SparsitySelector,
    keys: Seq<(Seq<char>, Seq<char>)>,
    patches: Seq<DeltaPatch>,
    written: usize,
    seg_id: Seq<char>,
    snapshot: u64,
    ok: spec_fn(CellView) -> bool,
    merged: Seq<CellView>,
    again: Seq<CellView>,
    c: CellView,
)
    requires
        before.wf(),
        only_l2_written(before, after),
        columns_written(before, after, cells, selector, keys, patches, Ok(written)),
        filed(before.l2@, before.l2.root()),
        own_files(before.l2@, before.l2.root(), keys),
        forall|j: int| #![trigger patches[j]] 0 <= j < patches.len() ==> patch_readable(patches[j]),
        before.held(seg_id, snapshot) matches Ok(held) && is_merge(merged, held, ok),
        after.held(seg_id, snapshot) matches Ok(held) ==> is_merge(again, held, ok),
        forall|i: int| #![trigger cells[i]] 0 <= i < cells.len() ==> cell_key(cells[i]) != cell_key(c),
    ensures
        before.held(seg_id, snapshot)->Ok_0.contains(c) == after.held(seg_id, snapshot)->Ok_0.contains(
            c,
        ),
        merged.contains(c) ==> exists|b: CellView| #[trigger]
            again.contains(b) && cell_key(b) == cell_key(c) && b.txn_id == c.txn_id && before.held(
                seg_id,
                snapshot,
            )->Ok_0.contains(b),
        again.contains(c) ==> exists|b: CellView| #[trigger]
            merged.contains(b) && cell_key(b) == cell_key(c) && b.txn_id == c.txn_id,
{
    let held = before.held(seg_id, snapshot)->Ok_0;
    law_flushed_patches_are_visible(
        before,
        after,
        cells,
        selector,
        keys,
        patches,
        written,
        seg_id,
        snapshot,
        c,
    );
    let other = after.held(seg_id, snapshot)->Ok_0;
    assert forall|x: CellView| cell_key(x) == cell_key(c) implies #[trigger] held.contains(x)
        == other.contains(x) by {
        law_flushed_patches_are_visible(
            before,
            after,
            cells,
            selector,
            keys,
            patches,
            written,
            seg_id,
            snapshot,
            x,
        );
        if patches_show(keys, patches, seg_id, snapshot, x) {
            let i = lemma_shown_was_flushed(cells, selector, keys, patches, seg_id, snapshot, x);
            assert(cell_key(cells[i]) != cell_key(c));
        }
    }
    assert(held.contains(c) == other.contains(c));
    if merged.contains(c) {
        let b = lemma_same_answer(held, other, ok, merged, again, c);
        assert(again.contains(b));
    }
    if again.contains(c) {
        assert forall|x: CellView| cell_key(x) == cell_key(c) implies #[trigger] other.contains(x)
            == held.contains(x) by {
            assert(held.contains(x) == other.contains(x));
        }
        let b = lemma_same_answer(other, held, ok, again, merged, c);
        assert(merged.contains(b));
    }
}

} // verus!
