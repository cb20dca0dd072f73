//! What a compaction from L2 to L3 keeps: every cell that a snapshot saw.
use vstd::prelude::*;
use crate::error::RockDuckError;
use crate::storage::delta::disk_store::{gather, guard_cells, guards_of, patches_from, patches_under, DiskView, GuardKeyView, GuardView, PatchRefView};
use crate::storage::delta::flush_engine::{all_frozen, compacted, frozen_version, guard_moved, guards_moved, oldest_four, only_descended, Descent};
use crate::storage::delta::frozen_store::{frozen_file_cells, frozen_gather, frozen_path, frozen_with, has_own_paths, next_free, version_after, DeltaL3Frozen, FrozenEntry, FrozenKey, FrozenView};
use crate::storage::delta::mem_store::visible_now;
use crate::storage::delta::patch_file::{load_from, placed, record_at, record_cells};
use crate::storage::delta::stack::{DeltaLayerStack, DeltaQueryLayer};
use crate::storage::delta::types::{law_parsed_patch_round_trip, parse_payload, patch_payload, CellView, FormatView};
use crate::storage::delta::visibility::{lemma_contains_joined, lemma_gather_sees, sees, shows, unharmed, GuardIndex};
use crate::text::{decimal, joined, lemma_decimal_injective};

verus! {

/// Whether a snapshot of a segment sees a cell in one frozen patch.
pub open spec fn frozen_shows(
    d: FrozenView,
    k: FrozenKey,
    seg_id: Seq<char>,
    snapshot: u64,
    c: CellView,
) -> bool {
    &&& d.index.dom().contains(k)
    &&& k.0 == seg_id
    &&& d.index[k].1 <= snapshot
    &&& frozen_file_cells(d.files, k.0, k.1, d.index[k]) matches Ok(cells) && cells.contains(c)
}

/// Whether a snapshot of a segment sees a cell in L3.
pub open spec fn frozen_sees(d: FrozenView, seg_id: Seq<char>, snapshot: u64, c: CellView) -> bool {
    exists|k: FrozenKey| #[trigger] frozen_shows(d, k, seg_id, snapshot, c)
}

/// Whether no frozen patch of a segment that a snapshot reads is damaged.
pub open spec fn frozen_unharmed(d: FrozenView, seg_id: Seq<char>, snapshot: u64) -> bool {
    forall|k: FrozenKey| #[trigger]
        d.index.dom().contains(k) && k.0 == seg_id && d.index[k].1 <= snapshot ==> frozen_file_cells(
            d.files,
            k.0,
            k.1,
            d.index[k],
        ) is Ok
}

/// Every frozen patch has its file.
pub open spec fn has_files(d: FrozenView) -> bool {
    forall|k: FrozenKey| #[trigger] d.index.dom().contains(k) ==> d.files.dom().contains(d.index[k].0)
}

/// No two guards have the same file.
pub open spec fn guards_apart(d: DiskView) -> bool {
    forall|j: GuardIndex, k: GuardIndex|
        #![trigger d.guards.dom().contains(j), d.guards.dom().contains(k)]
        d.guards.dom().contains(j) && d.guards.dom().contains(k) && j != k ==> d.guards[j].file_path
            != d.guards[k].file_path
}

/// Every guard is filed under its own key.
pub open spec fn has_own_keys(d: DiskView) -> bool {
    forall|k: GuardIndex| #[trigger] d.guards.dom().contains(k) ==> d.guards[k].key.index() == k
}

/// Whether an entry is read by a snapshot of a segment.
spec fn is_read(e: FrozenEntry, seg_id: Seq<char>, snapshot: u64) -> bool {
    e.0.0 == seg_id && e.1.1 <= snapshot
}

spec fn entry_cells(e: FrozenEntry, files: Map<Seq<char>, Seq<u8>>) -> Result<
    Seq<CellView>,
    RockDuckError,
> {
    frozen_file_cells(files, e.0.0, e.0.1, e.1)
}

proof fn lemma_frozen_gathered(
    entries: Seq<FrozenEntry>,
    files: Map<Seq<char>, Seq<u8>>,
    seg_id: Seq<char>,
    snapshot: u64,
    c: CellView,
)
    ensures
        frozen_gather(entries, files, seg_id, snapshot) is Ok == forall|i: int|
            #![trigger entries[i]]
            0 <= i < entries.len() && is_read(entries[i], seg_id, snapshot) ==> entry_cells(
                entries[i],
                files,
            ) is Ok,
        frozen_gather(entries, files, seg_id, snapshot) matches Ok(cells) ==> cells.contains(c)
            == exists|i: int|
            #![trigger entries[i]]
            0 <= i < entries.len() && is_read(entries[i], seg_id, snapshot) && (entry_cells(
                entries[i],
                files,
            ) matches Ok(more) && more.contains(c)),
    decreases entries.len(),
{
    if entries.len() > 0 {
        let front = entries.drop_last();
        let last = entries.len() - 1;
        let e = entries[last];
        lemma_frozen_gathered(front, files, seg_id, snapshot, c);
        assert forall|i: int| 0 <= i < last implies #[trigger] front[i] == entries[i] by {}
        assert forall|i: int| #![trigger entries[i]] 0 <= i < entries.len() implies i == last
            || entries[i] == front[i] by {}
        if let Ok(cells) = frozen_gather(front, files, seg_id, snapshot) {
            if let Ok(more) = entry_cells(e, files) {
                lemma_contains_joined(cells, more, c);
            }
        }
    }
}

/// What a query of L3 gives is what the frozen patches show, and it fails when one of them
/// is damaged.
pub proof fn lemma_frozen_gather_sees(l3: DeltaL3Frozen, seg_id: Seq<char>, snapshot: u64, c: CellView)
    requires
        l3.wf(),
    ensures
        frozen_gather(l3.entries(), l3@.files, seg_id, snapshot) is Ok == frozen_unharmed(
            l3@,
            seg_id,
            snapshot,
        ),
        frozen_gather(l3.entries(), l3@.files, seg_id, snapshot) matches Ok(cells) ==> cells.contains(c)
            == frozen_sees(l3@, seg_id, snapshot, c),
{
    let entries = l3.entries();
    let d = l3@;
    l3.lemma_entries();
    lemma_frozen_gathered(entries, d.files, seg_id, snapshot, c);
    if frozen_unharmed(d, seg_id, snapshot) {
        assert forall|i: int|
            #![trigger entries[i]]
            0 <= i < entries.len() && is_read(entries[i], seg_id, snapshot) implies entry_cells(
            entries[i],
            d.files,
        ) is Ok by {
            assert(d.index.dom().contains(entries[i].0));
        }
    }
    if frozen_gather(entries, d.files, seg_id, snapshot) is Ok {
        assert forall|k: FrozenKey| #[trigger]
            d.index.dom().contains(k) && k.0 == seg_id && d.index[k].1 <= snapshot implies frozen_file_cells(
            d.files,
            k.0,
            k.1,
            d.index[k],
        ) is Ok by {
            assert(entries.contains((k, d.index[k])));
            let i = choose|i: int| 0 <= i < entries.len() && entries[i] == (k, d.index[k]);
            assert(is_read(entries[i], seg_id, snapshot));
        }
        if frozen_sees(d, seg_id, snapshot, c) {
            let k = choose|k: FrozenKey| #[trigger] frozen_shows(d, k, seg_id, snapshot, c);
            assert(entries.contains((k, d.index[k])));
            let i = choose|i: int| 0 <= i < entries.len() && entries[i] == (k, d.index[k]);
            assert(is_read(entries[i], seg_id, snapshot));
        }
        if frozen_gather(entries, d.files, seg_id, snapshot)->Ok_0.contains(c) {
            let i = choose|i: int|
                #![trigger entries[i]]
                0 <= i < entries.len() && is_read(entries[i], seg_id, snapshot) && (entry_cells(
                    entries[i],
                    d.files,
                ) matches Ok(more) && more.contains(c));
            assert(frozen_shows(d, entries[i].0, seg_id, snapshot, c));
        }
    }
}

/// A version some steps after another.
spec fn version_at(from: u64, k: nat) -> u64 {
    ((from + k) % 0x1_0000_0000_0000_0000) as u64
}

/// Different versions of a column have different paths.
proof fn lemma_paths_differ(root: Seq<char>, seg_id: Seq<char>, col: Seq<char>, a: u64, b: u64)
    ensures
        frozen_path(root, seg_id, col, a) == frozen_path(root, seg_id, col, b) ==> a == b,
{
    reveal_strlit(".patch.");
    let base = joined(joined(root, seg_id), "l3"@);
    let pre = col + ".patch."@;
    let x = pre + decimal(a as nat);
    let y = pre + decimal(b as nat);
    assert(x[0] == pre[0] && y[0] == pre[0]);
    let front = if pre[0] == '/' {
        pre
    } else if base.len() == 0 || base.last() == '/' {
        base + pre
    } else {
        base + seq!['/'] + pre
    };
    let n = front.len() as int;
    let p = frozen_path(root, seg_id, col, a);
    let q = frozen_path(root, seg_id, col, b);
    assert(p =~= front + decimal(a as nat));
    assert(q =~= front + decimal(b as nat));
    if p == q {
        assert(decimal(a as nat) =~= p.skip(n));
        assert(decimal(b as nat) =~= q.skip(n));
        lemma_decimal_injective(a as nat, b as nat);
    }
}

/// When no free version was found, all that were tried are taken.
proof fn lemma_all_taken(
    d: FrozenView,
    root: Seq<char>,
    seg_id: Seq<char>,
    col: Seq<char>,
    from: u64,
    tries: nat,
    k: nat,
)
    requires
        d.files.dom().contains(frozen_path(root, seg_id, col, next_free(d, root, seg_id, col, from, tries))),
        k <= tries,
    ensures
        d.files.dom().contains(frozen_path(root, seg_id, col, version_at(from, k))),
    decreases tries,
{
    if k > 0 {
        lemma_all_taken(
            d,
            root,
            seg_id,
            col,
            version_after(from),
            (tries - 1) as nat,
            (k - 1) as nat,
        );
        assert(version_at(version_after(from), (k - 1) as nat) == version_at(from, k));
    } else {
        assert(version_at(from, 0) == from);
    }
}

/// There is a free version.
proof fn lemma_next_is_free(
    d: FrozenView,
    root: Seq<char>,
    seg_id: Seq<char>,
    col: Seq<char>,
    from: u64,
)
    requires
        d.files.dom().finite(),
        d.files.dom().len() <= u64::MAX,
    ensures
        ({
            let version = next_free(d, root, seg_id, col, from, d.files.dom().len());
            !d.files.dom().contains(frozen_path(root, seg_id, col, version))
        }),
{
    let n = d.files.dom().len();
    let version = next_free(d, root, seg_id, col, from, n);
    if d.files.dom().contains(frozen_path(root, seg_id, col, version)) {
        let paths = Seq::new(n + 1, |k: int| frozen_path(root, seg_id, col, version_at(from, k as nat)));
        assert forall|i: int, j: int|
            0 <= i < paths.len() && 0 <= j < paths.len() && i != j implies paths[i] != paths[j] by {
            let a = version_at(from, i as nat);
            let b = version_at(from, j as nat);
            assert(a != b) by {
                assert((from + i) % 0x1_0000_0000_0000_0000 != (from + j) % 0x1_0000_0000_0000_0000);
            }
            lemma_paths_differ(root, seg_id, col, a, b);
        }
        paths.unique_seq_to_set();
        assert(paths.to_set().subset_of(d.files.dom())) by {
            assert forall|p: Seq<char>| paths.to_set().contains(p) implies d.files.dom().contains(p) by {
                let k = paths.index_of(p);
                assert(paths[k] == p);
                lemma_all_taken(d, root, seg_id, col, from, n, k as nat);
            }
        }
        vstd::set_lib::lemma_len_subset(paths.to_set(), d.files.dom());
    }
}

/// A patch that is read back from the bytes that it is written as.
pub open spec fn is_stable(f: FormatView) -> bool {
    parse_payload(patch_payload(f)) == Some(f)
}

/// Whether a snapshot of a segment sees a cell of a patch of a column.
#[verifier::opaque]
pub open spec fn ref_shows(p: PatchRefView, seg_id: Seq<char>, col: Seq<char>, snapshot: u64, c: CellView) -> bool {
    &&& p.txn_range.1 <= snapshot
    &&& record_cells(p.format, p.txn_range.1) matches Ok(cells) && placed(seg_id, col, cells).contains(c)
}

/// One more frozen patch, under a version that no file has.
proof fn lemma_frozen_step(
    d: FrozenView,
    root: Seq<char>,
    seg_id: Seq<char>,
    col: Seq<char>,
    version: u64,
    p: PatchRefView,
    asked: Seq<char>,
    snapshot: u64,
    c: CellView,
)
    requires
        has_own_paths(d, root),
        has_files(d),
        !d.files.dom().contains(frozen_path(root, seg_id, col, version)),
        is_freezable(p, asked == seg_id, snapshot),
    ensures
        ({
            let after = frozen_with(d, root, seg_id, col, version, p.txn_range.1, p.format);
            &&& has_own_paths(after, root)
            &&& has_files(after)
            &&& frozen_unharmed(d, asked, snapshot) ==> frozen_unharmed(after, asked, snapshot)
            &&& frozen_sees(after, asked, snapshot, c) == (frozen_sees(d, asked, snapshot, c) || (asked
                == seg_id && ref_shows(p, seg_id, col, snapshot, c)))
        }),
{
    reveal(is_freezable);
    reveal(ref_shows);
    let after = frozen_with(d, root, seg_id, col, version, p.txn_range.1, p.format);
    let key: FrozenKey = (seg_id, col, version);
    let path = frozen_path(root, seg_id, col, version);
    assert(!d.index.dom().contains(key)) by {
        if d.index.dom().contains(key) {
            assert(d.files.dom().contains(d.index[key].0));
        }
    }
    assert forall|k: FrozenKey| #[trigger] d.index.dom().contains(k) implies {
        &&& after.index.dom().contains(k)
        &&& after.index[k] == d.index[k]
        &&& d.index[k].0 != path
        &&& frozen_file_cells(after.files, k.0, k.1, after.index[k]) == frozen_file_cells(
            d.files,
            k.0,
            k.1,
            d.index[k],
        )
    } by {
        assert(d.files.dom().contains(d.index[k].0));
    }
    assert(frozen_file_cells(after.files, seg_id, col, after.index[key]) == match record_cells(
        p.format,
        p.txn_range.1,
    ) {
        Ok(cells) => Ok(placed(seg_id, col, cells)),
        Err(e) => Err(e),
    });
    assert(has_files(after)) by {
        assert forall|k: FrozenKey| #[trigger] after.index.dom().contains(k) implies after.files.dom().contains(
            after.index[k].0,
        ) by {
            if k != key {
                assert(d.index.dom().contains(k));
            }
        }
    }
    assert(has_own_paths(after, root)) by {
        assert forall|k: FrozenKey| #[trigger] after.index.dom().contains(k) implies after.index[k].0
            == frozen_path(root, k.0, k.1, k.2) by {
            if k != key {
                assert(d.index.dom().contains(k));
            }
        }
    }
    if frozen_unharmed(d, asked, snapshot) {
        assert forall|k: FrozenKey| #[trigger]
            after.index.dom().contains(k) && k.0 == asked && after.index[k].1 <= snapshot implies frozen_file_cells(
            after.files,
            k.0,
            k.1,
            after.index[k],
        ) is Ok by {
            if k != key {
                assert(d.index.dom().contains(k));
            }
        }
    }
    if frozen_sees(d, asked, snapshot, c) {
        let k = choose|k: FrozenKey| #[trigger] frozen_shows(d, k, asked, snapshot, c);
        assert(d.index.dom().contains(k));
        assert(frozen_shows(after, k, asked, snapshot, c));
    }
    if asked == seg_id && ref_shows(p, seg_id, col, snapshot, c) {
        assert(frozen_shows(after, key, asked, snapshot, c));
    }
    if frozen_sees(after, asked, snapshot, c) {
        let k = choose|k: FrozenKey| #[trigger] frozen_shows(after, k, asked, snapshot, c);
        if k != key {
            assert(d.index.dom().contains(k));
            assert(frozen_shows(d, k, asked, snapshot, c));
        }
    }
}

/// Freezing removes no file.
proof fn lemma_frozen_grows(
    d: FrozenView,
    root: Seq<char>,
    seg_id: Seq<char>,
    col: Seq<char>,
    min_txn: u64,
    patches: Seq<PatchRefView>,
)
    requires
        d.files.dom().finite(),
    ensures
        ({
            let after = all_frozen(d, root, seg_id, col, min_txn, patches);
            &&& after.files.dom().finite()
            &&& d.files.dom().subset_of(after.files.dom())
        }),
    decreases patches.len(),
{
    if patches.len() > 0 {
        lemma_frozen_grows(d, root, seg_id, col, min_txn, patches.drop_last());
    }
}

/// Whether a snapshot of a segment sees a cell of one of some patches of a column.
pub open spec fn refs_show(
    patches: Seq<PatchRefView>,
    seg_id: Seq<char>,
    col: Seq<char>,
    snapshot: u64,
    c: CellView,
) -> bool {
    exists|i: int| 0 <= i < patches.len() && #[trigger] ref_shows(patches[i], seg_id, col, snapshot, c)
}

/// A patch that can be frozen: it is read back, and a snapshot of its segment that is not
/// older can read it.
#[verifier::opaque]
pub open spec fn is_freezable(p: PatchRefView, read: bool, snapshot: u64) -> bool {
    &&& is_stable(p.format)
    &&& read && p.txn_range.1 <= snapshot ==> record_cells(p.format, p.txn_range.1) is Ok
}

/// Patches that can be frozen.
pub open spec fn can_freeze(patches: Seq<PatchRefView>, read: bool, snapshot: u64) -> bool {
    forall|i: int|
        #![trigger patches[i]]
        0 <= i < patches.len() ==> is_freezable(patches[i], read, snapshot)
}

/// The patches of a guard frozen one after the other: a snapshot sees what it saw in L3, and
/// the cells of those that are not newer than it.
proof fn lemma_all_frozen(
    d: FrozenView,
    root: Seq<char>,
    seg_id: Seq<char>,
    col: Seq<char>,
    min_txn: u64,
    patches: Seq<PatchRefView>,
    asked: Seq<char>,
    snapshot: u64,
    c: CellView,
)
    requires
        has_own_paths(d, root),
        has_files(d),
        d.files.dom().finite(),
        all_frozen(d, root, seg_id, col, min_txn, patches).files.dom().len() <= u64::MAX,
        can_freeze(patches, asked == seg_id, snapshot),
    ensures
        ({
            let after = all_frozen(d, root, seg_id, col, min_txn, patches);
            &&& has_own_paths(after, root)
            &&& has_files(after)
            &&& after.files.dom().finite()
            &&& frozen_unharmed(d, asked, snapshot) ==> frozen_unharmed(after, asked, snapshot)
            &&& frozen_sees(after, asked, snapshot, c) == (frozen_sees(d, asked, snapshot, c) || (asked
                == seg_id && refs_show(patches, seg_id, col, snapshot, c)))
        }),
    decreases patches.len(),
{
    if patches.len() > 0 {
        let front = patches.drop_last();
        let n = front.len() as int;
        let mid = all_frozen(d, root, seg_id, col, min_txn, front);
        let after = all_frozen(d, root, seg_id, col, min_txn, patches);
        lemma_frozen_grows(d, root, seg_id, col, min_txn, front);
        assert(mid.files.dom().subset_of(after.files.dom()));
        assert(after.files.dom().finite());
        vstd::set_lib::lemma_len_subset(mid.files.dom(), after.files.dom());
        lemma_refs_last(patches, seg_id, col, asked == seg_id, snapshot, c);
        lemma_all_frozen(d, root, seg_id, col, min_txn, front, asked, snapshot, c);
        let wanted = frozen_version(min_txn, n as nat);
        lemma_next_is_free(mid, root, seg_id, col, wanted);
        let version = next_free(mid, root, seg_id, col, wanted, mid.files.dom().len());
        assert(patches.last() == patches[n]);
        lemma_frozen_step(mid, root, seg_id, col, version, patches[n], asked, snapshot, c);
    }
}

proof fn lemma_refs_last(
    patches: Seq<PatchRefView>,
    seg_id: Seq<char>,
    col: Seq<char>,
    read: bool,
    snapshot: u64,
    c: CellView,
)
    requires
        patches.len() > 0,
        can_freeze(patches, read, snapshot),
    ensures
        can_freeze(patches.drop_last(), read, snapshot),
        refs_show(patches, seg_id, col, snapshot, c) == (refs_show(
            patches.drop_last(),
            seg_id,
            col,
            snapshot,
            c,
        ) || ref_shows(patches[patches.len() - 1], seg_id, col, snapshot, c)),
{
    let front = patches.drop_last();
    let n = front.len() as int;
    assert forall|i: int| #![trigger front[i]] 0 <= i < front.len() implies is_freezable(
        front[i],
        read,
        snapshot,
    ) by {
        assert(front[i] == patches[i]);
    }
    if refs_show(front, seg_id, col, snapshot, c) {
        let i = choose|i: int|
            0 <= i < front.len() && #[trigger] ref_shows(front[i], seg_id, col, snapshot, c);
        assert(ref_shows(patches[i], seg_id, col, snapshot, c));
    }
    if refs_show(patches, seg_id, col, snapshot, c) {
        let i = choose|i: int|
            0 <= i < patches.len() && #[trigger] ref_shows(patches[i], seg_id, col, snapshot, c);
        if i < n {
            assert(ref_shows(front[i], seg_id, col, snapshot, c));
        }
    }
}

/// The patches of a file, read for a merge, are those that a snapshot reads its cells from.
pub proof fn lemma_file_parts(
    key: GuardKeyView,
    path: Seq<char>,
    file: Seq<u8>,
    offset: nat,
    seg_id: Seq<char>,
    col: Seq<char>,
    read: bool,
    snapshot: u64,
    c: CellView,
)
    requires
        patches_from(key, path, file, offset) is Ok,
        read ==> load_from(file, offset, snapshot) is Ok,
    ensures
        can_freeze(patches_from(key, path, file, offset)->Ok_0, read, snapshot),
        read ==> placed(seg_id, col, load_from(file, offset, snapshot)->Ok_0).contains(c) == refs_show(
            patches_from(key, path, file, offset)->Ok_0,
            seg_id,
            col,
            snapshot,
            c,
        ),
    decreases file.len() - offset,
{
    reveal(ref_shows);
    let all = patches_from(key, path, file, offset)->Ok_0;
    if record_at(file, offset) matches Some(Ok(rec)) && rec.end() <= file.len() {
        let rec = record_at(file, offset)->0->Ok_0;
        lemma_file_parts(key, path, file, rec.end(), seg_id, col, read, snapshot, c);
        let rest = patches_from(key, path, file, rec.end())->Ok_0;
        if parse_payload(rec.payload) is Some {
            let f = parse_payload(rec.payload)->0;
            law_parsed_patch_round_trip(rec.payload, f);
            let p = all[0];
            assert(p.format == f && p.txn_range.1 == rec.txn_end);
            assert forall|i: int| #![trigger all[i]] 1 <= i < all.len() implies all[i] == rest[i - 1] by {}
            assert(is_freezable(p, read, snapshot)) by {
                reveal(is_freezable);
            }
            assert(can_freeze(all, read, snapshot));
            if read {
                lemma_refs_joined(all, rest, seg_id, col, snapshot, c);
                let tail = load_from(file, rec.end(), snapshot)->Ok_0;
                if rec.txn_end <= snapshot {
                    let cells = record_cells(f, rec.txn_end)->Ok_0;
                    lemma_contains_joined(placed(seg_id, col, cells), placed(seg_id, col, tail), c);
                    assert(placed(seg_id, col, cells + tail) =~= placed(seg_id, col, cells) + placed(
                        seg_id,
                        col,
                        tail,
                    ));
                }
            }
        }
    } else {
        assert(all.len() == 0);
        if read {
            assert(load_from(file, offset, snapshot)->Ok_0 =~= Seq::empty());
            assert(placed(seg_id, col, load_from(file, offset, snapshot)->Ok_0).len() == 0);
        }
    }
}

proof fn lemma_refs_joined(
    all: Seq<PatchRefView>,
    rest: Seq<PatchRefView>,
    seg_id: Seq<char>,
    col: Seq<char>,
    snapshot: u64,
    c: CellView,
)
    requires
        all.len() == rest.len() + 1,
        forall|i: int| #![trigger all[i]] 1 <= i < all.len() ==> all[i] == rest[i - 1],
    ensures
        refs_show(all, seg_id, col, snapshot, c) == (ref_shows(all[0], seg_id, col, snapshot, c) || refs_show(
            rest,
            seg_id,
            col,
            snapshot,
            c,
        )),
{
    if refs_show(rest, seg_id, col, snapshot, c) {
        let i = choose|i: int|
            0 <= i < rest.len() && #[trigger] ref_shows(rest[i], seg_id, col, snapshot, c);
        assert(all[i + 1] == rest[i]);
        assert(ref_shows(all[i + 1], seg_id, col, snapshot, c));
    }
    if refs_show(all, seg_id, col, snapshot, c) {
        let i = choose|i: int|
            0 <= i < all.len() && #[trigger] ref_shows(all[i], seg_id, col, snapshot, c);
        if i > 0 {
            assert(ref_shows(rest[i - 1], seg_id, col, snapshot, c));
        }
    }
}

/// What holds of L2 and L3 while guards move down.
pub open spec fn is_sound(m: Descent, root: Seq<char>) -> bool {
    &&& has_own_keys(m.l2)
    &&& guards_apart(m.l2)
    &&& has_own_paths(m.l3, root)
    &&& has_files(m.l3)
    &&& m.l3.files.dom().finite()
}

/// Whether a snapshot of a segment can be read in L2 and L3.
pub open spec fn both_unharmed(m: Descent, seg_id: Seq<char>, snapshot: u64) -> bool {
    unharmed(m.l2, seg_id, snapshot) && frozen_unharmed(m.l3, seg_id, snapshot)
}

/// Whether a snapshot of a segment sees a cell in L2 or L3.
pub open spec fn both_see(m: Descent, seg_id: Seq<char>, snapshot: u64, c: CellView) -> bool {
    sees(m.l2, seg_id, snapshot, c) || frozen_sees(m.l3, seg_id, snapshot, c)
}

/// Without a guard and its file, a snapshot sees in L2 what the other guards show.
proof fn lemma_guard_removed(d: DiskView, index: GuardIndex, asked: Seq<char>, snapshot: u64, c: CellView)
    requires
        has_own_keys(d),
        guards_apart(d),
        d.guards.dom().contains(index),
    ensures
        ({
            let after = DiskView {
                guards: d.guards.remove(index),
                files: d.files.remove(d.guards[index].file_path),
            };
            &&& has_own_keys(after)
            &&& guards_apart(after)
            &&& unharmed(d, asked, snapshot) ==> unharmed(after, asked, snapshot)
            &&& sees(d, asked, snapshot, c) == (sees(after, asked, snapshot, c) || shows(
                d,
                index,
                asked,
                snapshot,
                c,
            ))
        }),
{
    let after = DiskView {
        guards: d.guards.remove(index),
        files: d.files.remove(d.guards[index].file_path),
    };
    assert forall|k: GuardIndex| #[trigger] after.guards.dom().contains(k) implies {
        &&& d.guards.dom().contains(k)
        &&& after.guards[k] == d.guards[k]
        &&& guard_cells(after.guards[k], after.files, snapshot) == guard_cells(
            d.guards[k],
            d.files,
            snapshot,
        )
    } by {
        assert(d.guards.dom().contains(k) && d.guards.dom().contains(index));
    }
    assert(has_own_keys(after)) by {
        assert forall|k: GuardIndex| #[trigger] after.guards.dom().contains(k) implies after.guards[k].key.index()
            == k by {
            assert(d.guards.dom().contains(k));
        }
    }
    assert(guards_apart(after)) by {
        assert forall|j: GuardIndex, k: GuardIndex|
            #![trigger after.guards.dom().contains(j), after.guards.dom().contains(k)]
            after.guards.dom().contains(j) && after.guards.dom().contains(k) && j != k implies after.guards[j].file_path
            != after.guards[k].file_path by {
            assert(d.guards.dom().contains(j) && d.guards.dom().contains(k));
        }
    }
    if unharmed(d, asked, snapshot) {
        assert forall|k: GuardIndex| #[trigger]
            after.guards.dom().contains(k) && after.guards[k].key.seg_id == asked implies guard_cells(
            after.guards[k],
            after.files,
            snapshot,
        ) is Ok by {
            assert(d.guards.dom().contains(k));
        }
    }
    if sees(d, asked, snapshot, c) {
        let k = choose|k: GuardIndex| #[trigger] shows(d, k, asked, snapshot, c);
        if k != index {
            assert(after.guards.dom().contains(k));
            assert(shows(after, k, asked, snapshot, c));
        }
    }
    if sees(after, asked, snapshot, c) {
        let k = choose|k: GuardIndex| #[trigger] shows(after, k, asked, snapshot, c);
        assert(after.guards.dom().contains(k));
        assert(shows(d, k, asked, snapshot, c));
    }
}

/// One guard moved down: every snapshot sees what it saw.
proof fn lemma_guard_moved(
    m: Descent,
    root: Seq<char>,
    seg_id: Seq<char>,
    guard: (GuardKeyView, u64),
    asked: Seq<char>,
    snapshot: u64,
    c: CellView,
)
    requires
        is_sound(m, root),
        guard.0.seg_id == seg_id,
        guard_moved(m, root, seg_id, guard).fault is None,
        guard_moved(m, root, seg_id, guard).l3.files.dom().len() <= u64::MAX,
        both_unharmed(m, asked, snapshot),
        m.fault is None,
    ensures
        ({
            let after = guard_moved(m, root, seg_id, guard);
            &&& is_sound(after, root)
            &&& both_unharmed(after, asked, snapshot)
            &&& both_see(after, asked, snapshot, c) == both_see(m, asked, snapshot, c)
        }),
{
    let key = guard.0;
    let index = key.index();
    let p = patches_under(m.l2, key)->Ok_0;
    if p.len() > 0 {
        let g = m.l2.guards[index];
        let file = m.l2.files[g.file_path];
        assert(m.l2.guards.dom().contains(index));
        assert(g.key.index() == index);
        assert(g.key.seg_id == seg_id && g.key.col == key.col);
        let read = asked == seg_id;
        assert(p == patches_from(key, g.file_path, file, 64)->Ok_0);
        if read {
            assert(guard_cells(g, m.l2.files, snapshot) is Ok);
        }
        lemma_file_parts(key, g.file_path, file, 64, seg_id, key.col, read, snapshot, c);
        lemma_all_frozen(m.l3, root, seg_id, key.col, guard.1, p, asked, snapshot, c);
        lemma_guard_removed(m.l2, index, asked, snapshot, c);
        if read {
            assert(shows(m.l2, index, asked, snapshot, c) == refs_show(p, seg_id, key.col, snapshot, c));
        }
    }
}

/// Moving a guard removes no file of L3.
proof fn lemma_moved_grows(m: Descent, root: Seq<char>, seg_id: Seq<char>, guard: (GuardKeyView, u64))
    requires
        m.l3.files.dom().finite(),
    ensures
        ({
            let after = guard_moved(m, root, seg_id, guard);
            &&& after.l3.files.dom().finite()
            &&& m.l3.files.dom().subset_of(after.l3.files.dom())
        }),
{
    if let Ok(p) = patches_under(m.l2, guard.0) {
        lemma_frozen_grows(m.l3, root, seg_id, guard.0.col, guard.1, p);
    }
}

/// Guards moved down one after the other: every snapshot sees what it saw.
proof fn lemma_guards_moved(
    m: Descent,
    root: Seq<char>,
    seg_id: Seq<char>,
    guards: Seq<(GuardKeyView, u64)>,
    asked: Seq<char>,
    snapshot: u64,
    c: CellView,
)
    requires
        is_sound(m, root),
        m.fault is None,
        forall|i: int| #![trigger guards[i]] 0 <= i < guards.len() ==> guards[i].0.seg_id == seg_id,
        guards_moved(m, root, seg_id, guards).fault is None,
        guards_moved(m, root, seg_id, guards).l3.files.dom().len() <= u64::MAX,
        both_unharmed(m, asked, snapshot),
    ensures
        ({
            let after = guards_moved(m, root, seg_id, guards);
            &&& is_sound(after, root)
            &&& both_unharmed(after, asked, snapshot)
            &&& both_see(after, asked, snapshot, c) == both_see(m, asked, snapshot, c)
        }),
    decreases guards.len(),
{
    if guards.len() > 0 {
        let front = guards.drop_last();
        let mid = guards_moved(m, root, seg_id, front);
        let after = guards_moved(m, root, seg_id, guards);
        lemma_finite_moved(m, root, seg_id, front);
        lemma_moved_grows(mid, root, seg_id, guards.last());
        vstd::set_lib::lemma_len_subset(mid.l3.files.dom(), after.l3.files.dom());
        assert forall|i: int| #![trigger front[i]] 0 <= i < front.len() implies front[i].0.seg_id == seg_id by {
            assert(front[i] == guards[i]);
        }
        lemma_guards_moved(m, root, seg_id, front, asked, snapshot, c);
        assert(guards.last() == guards[guards.len() - 1]);
        lemma_guard_moved(mid, root, seg_id, guards.last(), asked, snapshot, c);
    }
}

proof fn lemma_finite_moved(m: Descent, root: Seq<char>, seg_id: Seq<char>, guards: Seq<(GuardKeyView, u64)>)
    requires
        m.l3.files.dom().finite(),
    ensures
        guards_moved(m, root, seg_id, guards).l3.files.dom().finite(),
    decreases guards.len(),
{
    if guards.len() > 0 {
        lemma_finite_moved(m, root, seg_id, guards.drop_last());
        lemma_moved_grows(guards_moved(m, root, seg_id, guards.drop_last()), root, seg_id, guards.last());
    }
}

proof fn lemma_guards_of_segment(list: Seq<GuardView>, seg_id: Seq<char>, i: int)
    requires
        0 <= i < guards_of(list, seg_id).len(),
    ensures
        guards_of(list, seg_id)[i].0.seg_id == seg_id,
    decreases list.len(),
{
    let rest = guards_of(list.drop_last(), seg_id);
    if i < rest.len() {
        lemma_guards_of_segment(list.drop_last(), seg_id, i);
    }
}

/// A compaction from L2 to L3 keeps what is read: a snapshot of any segment that could be
/// read before it can be read after it, and sees exactly the cells that it saw. No two
/// guards share a file, and every frozen patch has its file.
pub proof fn law_compaction_keeps_cells(
    before: DeltaLayerStack,
    after: DeltaLayerStack,
    seg_id: Seq<char>,
    order: Seq<usize>,
    asked: Seq<char>,
    snapshot: u64,
    c: CellView,
)
    requires
        before.wf(),
        only_descended(before, after),
        compacted(before, after, seg_id, order, Ok(())),
        guards_apart(before.l2@),
        has_files(before.l3@),
        before.held(asked, snapshot) is Ok,
    ensures
        after.held(asked, snapshot) matches Ok(new) && new.contains(c) == before.held(
            asked,
            snapshot,
        )->Ok_0.contains(c),
        guards_apart(after.l2@),
        has_files(after.l3@),
{
    let list = before.l2.guard_list();
    let guards = guards_of(list, seg_id);
    let four = oldest_four(guards, order);
    let root = before.l3.root();
    let start = Descent { l2: before.l2@, l3: before.l3@, moved: 0, fault: None };
    before.l2.lemma_guard_list();
    before.l3.lemma_paths();
    after.l3.lemma_paths();
    assert forall|i: int| #![trigger four[i]] 0 <= i < four.len() implies four[i].0.seg_id == seg_id by {
        assert(order[i] < guards.len());
        lemma_guards_of_segment(list, seg_id, order[i] as int);
    }
    lemma_gather_sees(before.l2, asked, snapshot, c);
    lemma_gather_sees(after.l2, asked, snapshot, c);
    lemma_frozen_gather_sees(before.l3, asked, snapshot, c);
    lemma_frozen_gather_sees(after.l3, asked, snapshot, c);
    lemma_guards_moved(start, root, seg_id, four, asked, snapshot, c);
    let seen = visible_now(before.l1@, asked, snapshot);
    let x = gather(list, before.l2@.files, asked, snapshot).0;
    let y = frozen_gather(before.l3.entries(), before.l3@.files, asked, snapshot)->Ok_0;
    lemma_contains_joined(seen, x, c);
    lemma_contains_joined(seen + x, y, c);
    let x2 = gather(
        after.l2.guard_list(),
        after.l2@.files,
        asked,
        snapshot,
    ).0;
    let y2 = frozen_gather(after.l3.entries(), after.l3@.files, asked, snapshot)->Ok_0;
    lemma_contains_joined(seen, x2, c);
    lemma_contains_joined(seen + x2, y2, c);
}

} // verus!
