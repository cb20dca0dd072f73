//! L3: frozen patches, one file for each patch.
//!
//! ```text
//! {root_dir}/{seg_id}/l3/{col}.patch.{version}
//! ```
//!
//! The contents of the files are held in `files`; whoever owns the store mirrors
//! them to disk.
use vstd::prelude::*;
use crate::error::{DeltaFault, RockDuckError};
use crate::ordmap::OrdMap;
use crate::storage::delta::mem_store::{pick_cell, picks_cell};
use crate::storage::delta::patch_file::{place_cells, placed, record_cells, record_to_deltas};
use crate::storage::delta::types::{cell_views, parse_payload, patch_payload, CellView, DeltaCell, DeltaPatchFormat, FormatView, ZoneMap};
use crate::text::{add_text, append_decimal, decimal, join_path, joined, lists_text, text_copy, text_same};

verus! {

/// What the store holds: the path and the last transaction of every patch by segment,
/// column and version, and files by path.
#[verifier::ext_equal]
pub struct FrozenView {
    pub index: Map<FrozenKey, (Seq<char>, u64)>,
    pub files: Map<Seq<char>, Seq<u8>>,
}

/// Segment, column and version of a frozen patch.
pub type FrozenKey = (Seq<char>, Seq<char>, u64);

/// A frozen patch: what it is filed under, its path and its last transaction.
pub type FrozenEntry = (FrozenKey, (Seq<char>, u64));

/// The path of a frozen patch.
pub open spec fn frozen_path(root: Seq<char>, seg_id: Seq<char>, col: Seq<char>, version: u64) -> Seq<
    char,
> {
    joined(
        joined(joined(root, seg_id), "l3"@),
        col + ".patch."@ + decimal(version as nat),
    )
}

/// The cells of a frozen patch, under its segment, its column and, if it is sparse,
/// its last transaction.
pub open spec fn frozen_cells(seg_id: Seq<char>, col: Seq<char>, txn: u64, f: FormatView) -> Result<
    Seq<CellView>,
    RockDuckError,
> {
    match record_cells(f, txn) {
        Ok(cells) => Ok(placed(seg_id, col, cells)),
        Err(e) => Err(e),
    }
}

/// The cells of the file of a frozen patch; a missing file has none.
pub open spec fn frozen_file_cells(
    files: Map<Seq<char>, Seq<u8>>,
    seg_id: Seq<char>,
    col: Seq<char>,
    entry: (Seq<char>, u64),
) -> Result<Seq<CellView>, RockDuckError> {
    if !files.dom().contains(entry.0) {
        Ok(Seq::empty())
    } else {
        match parse_payload(files[entry.0]) {
            None => Err(RockDuckError::Delta(DeltaFault::BadPatch { offset: 0 })),
            Some(f) => frozen_cells(seg_id, col, entry.1, f),
        }
    }
}

/// The cells of the frozen patches of a segment that are not newer than a snapshot,
/// column by column and version by version, up to the first damaged one.
pub open spec fn frozen_gather(
    entries: Seq<FrozenEntry>,
    files: Map<Seq<char>, Seq<u8>>,
    seg_id: Seq<char>,
    snapshot: u64,
) -> Result<Seq<CellView>, RockDuckError>
    decreases entries.len(),
{
    if entries.len() == 0 {
        Ok(Seq::empty())
    } else {
        let ((seg, col, _version), entry) = entries.last();
        match frozen_gather(entries.drop_last(), files, seg_id, snapshot) {
            Err(e) => Err(e),
            Ok(front) => if seg == seg_id && entry.1 <= snapshot {
                match frozen_file_cells(files, seg, col, entry) {
                    Err(e) => Err(e),
                    Ok(cells) => Ok(front + cells),
                }
            } else {
                Ok(front)
            },
        }
    }
}

/// The paths of the frozen patches of a segment.
pub open spec fn frozen_paths(
    entries: Seq<FrozenEntry>,
    seg_id: Seq<char>,
) -> Seq<Seq<char>>
    decreases entries.len(),
{
    if entries.len() == 0 {
        Seq::empty()
    } else {
        let ((seg, _col, _version), (path, _txn)) = entries.last();
        let front = frozen_paths(entries.drop_last(), seg_id);
        if seg == seg_id {
            front.push(path)
        } else {
            front
        }
    }
}

/// Turns a frozen patch into cells.
pub fn patch_format_to_deltas(
    seg_id: &String,
    col: &String,
    txn_id: u64,
    format: &DeltaPatchFormat,
) -> (r: Result<Vec<DeltaCell>, RockDuckError>)
    ensures
        match r {
            Ok(cells) => frozen_cells(seg_id@, col@, txn_id, format@) == Ok::<
                Seq<CellView>,
                RockDuckError,
            >(cell_views(cells@)),
            Err(e) => frozen_cells(seg_id@, col@, txn_id, format@) == Err::<
                Seq<CellView>,
                RockDuckError,
            >(e),
        },
{
    match record_to_deltas(format, txn_id) {
        Ok(mut cells) => {
            place_cells(&mut cells, seg_id, col);
            Ok(cells)
        },
        Err(e) => Err(e),
    }
}

/// L3 store.
#[derive(Debug)]
pub struct DeltaL3Frozen {
    root_dir: String,
    index: OrdMap<(String, String, u64), (String, u64)>,
    files: OrdMap<String, Vec<u8>>,
}

impl View for DeltaL3Frozen {
    type V = FrozenView;

    closed spec fn view(&self) -> FrozenView {
        FrozenView {
            index: self.index@.map_values(|e: (String, u64)| (e.0@, e.1)),
            files: self.files@.map_values(|f: Vec<u8>| f@),
        }
    }
}

impl DeltaL3Frozen {
    /// The frozen patches, in order.
    pub closed spec fn entries(&self) -> Seq<FrozenEntry> {
        Seq::new(
            self.index.keys().len(),
            |i: int|
                (
                    self.index.keys()[i],
                    (self.index.value_of(i).0@, self.index.value_of(i).1),
                ),
        )
    }

    pub closed spec fn root(&self) -> Seq<char> {
        self.root_dir@
    }

    /// Every patch has the path of its segment, column and version.
    pub closed spec fn wf(&self) -> bool {
        &&& self.index.wf()
        &&& self.files.wf()
        &&& has_own_paths(self@, self.root())
    }

    /// The patches have the paths of their segments, columns and versions, and the files
    /// can be counted.
    pub proof fn lemma_paths(&self)
        requires
            self.wf(),
        ensures
            has_own_paths(self@, self.root()),
            self@.files.dom().finite(),
            self@.files.dom().len() <= usize::MAX,
    {
        self.files.lemma_dom();
        assert(self@.files.dom() =~= self.files@.dom());
    }

    /// The entries are those of the index.
    pub proof fn lemma_entries(&self)
        requires
            self.wf(),
        ensures
            forall|k: FrozenKey| #[trigger]
                self@.index.dom().contains(k) ==> self.entries().contains((k, self@.index[k])),
            forall|i: int|
                #![trigger self.entries()[i]]
                0 <= i < self.entries().len() ==> self@.index.dom().contains(self.entries()[i].0)
                    && self@.index[self.entries()[i].0] == self.entries()[i].1,
            self@.index.dom().finite(),
            self@.index.dom().len() == self.entries().len(),
    {
        self.index.lemma_dom();
        assert(self@.index.dom() =~= self.index@.dom());
        assert forall|k: FrozenKey| #[trigger]
            self@.index.dom().contains(k) implies self.entries().contains((k, self@.index[k])) by {
            let i = self.index.lemma_key(k);
            assert(self.entries()[i] == (k, self@.index[k]));
        }
        assert forall|i: int|
            #![trigger self.entries()[i]]
            0 <= i < self.entries().len() implies self@.index.dom().contains(self.entries()[i].0)
            && self@.index[self.entries()[i].0] == self.entries()[i].1 by {
            self.index.lemma_index(i);
        }
    }

    /// An empty store.
    pub fn new(root_dir: String) -> (r: Self)
        ensures
            r.wf(),
            r.root() == root_dir@,
            r@ == (FrozenView { index: Map::empty(), files: Map::empty() }),
            r.entries() == Seq::<FrozenEntry>::empty(),
    {
        let r = DeltaL3Frozen { root_dir, index: OrdMap::new(), files: OrdMap::new() };
        assert(r@.index =~= Map::empty());
        assert(r@.files =~= Map::empty());
        assert(r.entries() =~= Seq::empty());
        r
    }

    /// The path of a frozen patch.
    pub fn patch_path(&self, seg_id: &str, col: &str, version: u64) -> (r: String)
        ensures
            r@ == frozen_path(self.root(), seg_id@, col@, version),
    {
        let dir = join_path(join_path(self.root_dir.as_str(), seg_id).as_str(), "l3");
        let mut name = text_copy(col);
        name.append(".patch.");
        append_decimal(&mut name, version);
        join_path(dir.as_str(), name.as_str())
    }

    /// The bytes of a file.
    pub fn file(&self, path: &String) -> (r: Option<&Vec<u8>>)
        requires
            self.wf(),
        ensures
            match r {
                Some(f) => self@.files.dom().contains(path@) && f@ == self@.files[path@],
                None => !self@.files.dom().contains(path@),
            },
    {
        self.files.get(path)
    }

    /// Writes a patch to its own file and adds it to those that queries of its segment
    /// read, in place of an earlier one of the same version; gives the path.
    pub fn write_compacted(
        &mut self,
        seg_id: &str,
        col: &str,
        version: u64,
        format: &DeltaPatchFormat,
        zone_map: &ZoneMap,
    ) -> (r: String)
        requires
            old(self).wf(),
        ensures
            final(self).wf(),
            final(self).root() == old(self).root(),
            r@ == frozen_path(old(self).root(), seg_id@, col@, version),
            final(self)@ == frozen_with(
                old(self)@,
                old(self).root(),
                seg_id@,
                col@,
                version,
                zone_map.max_txn,
                format@,
            ),
    {
        let ghost start = self@;
        let path = self.patch_path(seg_id, col, version);
        let bytes = format.to_bytes();
        let ghost content = bytes@;
        let _ = self.files.insert(path.clone(), bytes);
        let _ = self.index.insert(
            (text_copy(seg_id), text_copy(col), version),
            (path.clone(), zone_map.max_txn),
        );
        assert(self@.files =~= start.files.insert(path@, content));
        assert(self@.index =~= start.index.insert((seg_id@, col@, version), (path@, zone_map.max_txn)));
        path
    }

    fn load_patch(&self, seg_id: &String, col: &String, path: &String, txn_id: u64) -> (r: Result<
        Vec<DeltaCell>,
        RockDuckError,
    >)
        requires
            self.wf(),
        ensures
            match r {
                Ok(cells) => frozen_file_cells(self@.files, seg_id@, col@, (path@, txn_id)) == Ok::<
                    Seq<CellView>,
                    RockDuckError,
                >(cell_views(cells@)),
                Err(e) => frozen_file_cells(self@.files, seg_id@, col@, (path@, txn_id)) == Err::<
                    Seq<CellView>,
                    RockDuckError,
                >(e),
            },
    {
        match self.file(path) {
            None => {
                let none: Vec<DeltaCell> = Vec::new();
                assert(cell_views(none@) =~= Seq::empty());
                Ok(none)
            },
            Some(bytes) => match DeltaPatchFormat::from_bytes(bytes.as_slice()) {
                None => Err(RockDuckError::Delta(DeltaFault::BadPatch { offset: 0 })),
                Some(format) => patch_format_to_deltas(seg_id, col, txn_id, &format),
            },
        }
    }

    /// The cells of a segment that a snapshot sees: those of the frozen patches that
    /// are not newer than it.
    pub fn get_visible(&self, seg_id: &str, snapshot_txn: u64) -> (r: Result<
        Vec<DeltaCell>,
        RockDuckError,
    >)
        requires
            self.wf(),
        ensures
            match r {
                Ok(cells) => frozen_gather(self.entries(), self@.files, seg_id@, snapshot_txn) == Ok::<
                    Seq<CellView>,
                    RockDuckError,
                >(cell_views(cells@)),
                Err(e) => frozen_gather(self.entries(), self@.files, seg_id@, snapshot_txn) == Err::<
                    Seq<CellView>,
                    RockDuckError,
                >(e),
            },
    {
        let mut cells: Vec<DeltaCell> = Vec::new();
        let ghost entries = self.entries();
        let mut i: usize = 0;
        proof {
            assert(entries.take(0) =~= Seq::empty());
            assert(cell_views(cells@) =~= Seq::empty());
        }
        while i < self.index.len()
            invariant
                self.wf(),
                entries == self.entries(),
                i <= entries.len() == self.index.keys().len(),
                frozen_gather(entries.take(i as int), self@.files, seg_id@, snapshot_txn) == Ok::<
                    Seq<CellView>,
                    RockDuckError,
                >(cell_views(cells@)),
            decreases entries.len() - i,
        {
            let key = self.index.key_at(i);
            let entry = self.index.value_at(i);
            proof {
                assert(entries[i as int] == (key@, (entry.0@, entry.1)));
                assert(entries.take(i + 1).drop_last() =~= entries.take(i as int));
            }
            if text_same(key.0.as_str(), seg_id) && entry.1 <= snapshot_txn {
                match self.load_patch(&key.0, &key.1, &entry.0, entry.1) {
                    Ok(mut more) => {
                        assert(cell_views(cells@ + more@) =~= cell_views(cells@) + cell_views(
                            more@,
                        ));
                        cells.append(&mut more);
                    },
                    Err(e) => {
                        proof {
                            lemma_gather_fails(entries, self@.files, seg_id@, snapshot_txn, i as int);
                        }
                        return Err(e);
                    },
                }
            }
            i = i + 1;
        }
        assert(entries.take(i as int) =~= entries);
        Ok(cells)
    }

    /// The cell of a row and column with the highest transaction, the last of
    /// them on a tie.
    pub fn get_cell(&self, seg_id: &str, row_offset: u64, column: &str, snapshot_txn: u64) -> (r:
        Result<Option<DeltaCell>, RockDuckError>)
        requires
            self.wf(),
        ensures
            match frozen_gather(self.entries(), self@.files, seg_id@, snapshot_txn) {
                Err(e) => r == Err::<Option<DeltaCell>, RockDuckError>(e),
                Ok(cells) => r matches Ok(answer) && picks_cell(
                    cells,
                    row_offset,
                    column@,
                    answer,
                ),
            },
    {
        match self.get_visible(seg_id, snapshot_txn) {
            Ok(cells) => Ok(pick_cell(&cells, row_offset, column)),
            Err(e) => Err(e),
        }
    }

    /// The segments that have frozen patches, each once.
    pub fn get_segment_ids(&self) -> (r: Vec<String>)
        ensures
            forall|i: int, j: int| 0 <= i < j < r@.len() ==> r@[i]@ != r@[j]@,
            forall|s: Seq<char>| #[trigger]
                lists_text(r@, s) <==> has_frozen(self.entries(), s),
    {
        let mut r: Vec<String> = Vec::new();
        let ghost entries = self.entries();
        let mut i: usize = 0;
        while i < self.index.len()
            invariant
                entries == self.entries(),
                i <= entries.len() == self.index.keys().len(),
                forall|a: int, b: int| 0 <= a < b < r@.len() ==> r@[a]@ != r@[b]@,
                forall|s: Seq<char>| #[trigger]
                    lists_text(r@, s) <==> has_frozen(entries.take(i as int), s),
            decreases entries.len() - i,
        {
            let key = self.index.key_at(i);
            assert(entries[i as int].0 == key@);
            let ghost before = r@;
            add_text(&mut r, &key.0);
            proof {
                let now = entries.take(i as int);
                let next = entries.take(i + 1);
                assert forall|s: Seq<char>| #[trigger] lists_text(r@, s) <==> has_frozen(
                    next,
                    s,
                ) by {
                    assert(lists_text(before, s) <==> has_frozen(now, s));
                    if has_frozen(now, s) {
                        let k = choose|k: int|
                            0 <= k < now.len() && (#[trigger] now[k]).0.0 == s;
                        assert(next[k].0.0 == s);
                    }
                    if key.0@ == s {
                        assert(next[i as int].0.0 == s);
                    }
                    if has_frozen(next, s) {
                        let k = choose|k: int|
                            0 <= k < next.len() && (#[trigger] next[k]).0.0 == s;
                        if k < i {
                            assert(now[k].0.0 == s);
                        }
                    }
                }
            }
            i = i + 1;
        }
        assert(entries.take(i as int) =~= entries);
        r
    }

    /// How many frozen patches queries read.
    pub fn num_frozen(&self) -> (n: usize)
        ensures
            n == self.entries().len(),
    {
        self.index.len()
    }

    /// The paths of the frozen patches of a segment.
    pub fn get_patch_paths(&self, seg_id: &str) -> (r: Vec<String>)
        ensures
            r@.map_values(|s: String| s@) == frozen_paths(self.entries(), seg_id@),
    {
        let mut r: Vec<String> = Vec::new();
        let ghost entries = self.entries();
        let ghost f = |s: String| s@;
        let mut i: usize = 0;
        proof {
            assert(entries.take(0) =~= Seq::empty());
            assert(r@.map_values(f) =~= Seq::empty());
        }
        while i < self.index.len()
            invariant
                entries == self.entries(),
                f == (|s: String| s@),
                i <= entries.len() == self.index.keys().len(),
                r@.map_values(f) == frozen_paths(entries.take(i as int), seg_id@),
            decreases entries.len() - i,
        {
            let key = self.index.key_at(i);
            let entry = self.index.value_at(i);
            proof {
                assert(entries[i as int] == (key@, (entry.0@, entry.1)));
                assert(entries.take(i + 1).drop_last() =~= entries.take(i as int));
            }
            if text_same(key.0.as_str(), seg_id) {
                let p = entry.0.clone();
                assert(r@.push(p).map_values(f) =~= r@.map_values(f).push(entry.0@));
                r.push(p);
            }
            i = i + 1;
        }
        assert(entries.take(i as int) =~= entries);
        r
    }

    /// The first version from `from` on under which a segment and column have no file; the
    /// first version follows the last.
    pub fn free_version(&self, seg_id: &str, col: &str, from: u64) -> (r: u64)
        requires
            self.wf(),
        ensures
            r == next_free(self@, self.root(), seg_id@, col@, from, self@.files.dom().len()),
    {
        let mut version: u64 = from;
        let mut left: usize = self.files.len();
        proof {
            self.files.lemma_dom();
            assert(self@.files.dom() =~= self.files@.dom());
        }
        let ghost all = self@.files.dom().len();
        while left > 0
            invariant_except_break
                next_free(self@, self.root(), seg_id@, col@, from, all) == next_free(
                    self@,
                    self.root(),
                    seg_id@,
                    col@,
                    version,
                    left as nat,
                ),
            invariant
                self.wf(),
            ensures
                version == next_free(self@, self.root(), seg_id@, col@, from, all),
            decreases left,
        {
            let path = self.patch_path(seg_id, col, version);
            if self.file(&path).is_none() {
                break;
            }
            version = version.wrapping_add(1);
            left = left - 1;
        }
        version
    }

    /// Removes the frozen patches of a segment and column, and their files.
    pub fn delete_patch(&mut self, seg_id: &str, col: &str)
        requires
            old(self).wf(),
        ensures
            final(self).wf(),
            final(self).root() == old(self).root(),
            final(self)@ == frozen_without(
                old(self)@,
                Set::new(|k: FrozenKey| k.0 == seg_id@ && k.1 == col@),
            ),
    {
        let ghost start = self@;
        let mut versions: Vec<u64> = Vec::new();
        let mut i: usize = 0;
        while i < self.index.len()
            invariant
                self.wf(),
                self@ == start,
                self.root() == old(self).root(),
                i <= self.index.keys().len(),
                forall|a: int|
                    #![trigger self.index.keys()[a]]
                    0 <= a < i && self.index.keys()[a].0 == seg_id@ && self.index.keys()[a].1 == col@
                        ==> versions@.contains(self.index.keys()[a].2),
            decreases self.index.keys().len() - i,
        {
            let key = self.index.key_at(i);
            let ghost listed = versions@;
            if text_same(key.0.as_str(), seg_id) && text_same(key.1.as_str(), col) {
                versions.push(key.2);
                assert(versions@[listed.len() as int] == key.2);
            }
            proof {
                assert forall|v: u64| listed.contains(v) implies versions@.contains(v) by {
                    assert(versions@[listed.index_of(v)] == v);
                }
            }
            i = i + 1;
        }
        let ghost all = Set::new(|k: FrozenKey| k.0 == seg_id@ && k.1 == col@);
        let ghost mut gone = Set::new(
            |k: FrozenKey| k.0 == seg_id@ && k.1 == col@ && versions@.take(0).contains(k.2),
        );
        proof {
            assert forall|k: FrozenKey| start.index.dom().contains(k) && all.contains(
                k,
            ) implies versions@.contains(k.2) by {
                let a = self.index.lemma_key(k);
                assert(self.index.keys()[a] == k);
            }
            assert(gone =~= Set::empty());
            assert(frozen_without(start, gone) =~= start);
        }
        let mut n: usize = 0;
        while n < versions.len()
            invariant
                n <= versions@.len(),
                self.index.wf(),
                self.files.wf(),
                self.root() == old(self).root(),
                self@ == frozen_without(start, gone),
                gone == Set::new(
                    |k: FrozenKey| k.0 == seg_id@ && k.1 == col@ && versions@.take(n as int).contains(k.2),
                ),
            decreases versions@.len() - n,
        {
            let key = (text_copy(seg_id), text_copy(col), versions[n]);
            let ghost k = (seg_id@, col@, versions@[n as int]);
            let ghost before = self@;
            match self.index.remove(&key) {
                None => {
                    assert(self@.index =~= before.index);
                },
                Some((path, _txn)) => {
                    let _ = self.files.remove(&path);
                    assert(self@.index =~= before.index.remove(k));
                    assert(self@.files =~= before.files.remove(path@));
                    assert(before.index[k].0 == path@);
                },
            }
            proof {
                let now = versions@.take(n as int);
                let next = versions@.take(n + 1);
                assert(next =~= now.push(versions@[n as int]));
                assert forall|v: u64| next.contains(v) <==> now.contains(v) || v == versions@[n as int] by {
                    if now.contains(v) {
                        assert(next[now.index_of(v)] == v);
                    }
                    if v == versions@[n as int] {
                        assert(next[n as int] == v);
                    }
                    if next.contains(v) && next.index_of(v) < n {
                        assert(now[next.index_of(v)] == v);
                    }
                }
                let more = Set::new(
                    |x: FrozenKey| x.0 == seg_id@ && x.1 == col@ && next.contains(x.2),
                );
                assert(more =~= gone.insert(k));
                lemma_one_gone(start, gone, k);
                gone = more;
            }
            n = n + 1;
        }
        proof {
            assert(versions@.take(n as int) =~= versions@);
            lemma_all_gone(start, gone, all);
        }
    }
}

/// Every patch has the path of its segment, column and version.
pub open spec fn has_own_paths(d: FrozenView, root: Seq<char>) -> bool {
    forall|k: FrozenKey| #[trigger]
        d.index.dom().contains(k) ==> d.index[k].0 == frozen_path(root, k.0, k.1, k.2)
}

/// The path of one of some patches.
pub open spec fn is_path_of(d: FrozenView, gone: Set<FrozenKey>, path: Seq<char>) -> bool {
    exists|k: FrozenKey| #[trigger]
        gone.contains(k) && d.index.dom().contains(k) && d.index[k].0 == path
}

/// The store without some patches and their files.
pub open spec fn frozen_without(d: FrozenView, gone: Set<FrozenKey>) -> FrozenView {
    FrozenView {
        index: d.index.remove_keys(gone),
        files: d.files.remove_keys(Set::new(|p: Seq<char>| is_path_of(d, gone, p))),
    }
}

/// One patch less.
proof fn lemma_one_gone(d: FrozenView, gone: Set<FrozenKey>, k: FrozenKey)
    ensures
        ({
            let before = frozen_without(d, gone);
            frozen_without(d, gone.insert(k)) == if before.index.dom().contains(k) {
                FrozenView {
                    index: before.index.remove(k),
                    files: before.files.remove(before.index[k].0),
                }
            } else {
                before
            }
        }),
{
    let before = frozen_without(d, gone);
    let after = frozen_without(d, gone.insert(k));
    assert forall|p: Seq<char>| is_path_of(d, gone.insert(k), p) == (is_path_of(d, gone, p) || (
    d.index.dom().contains(k) && d.index[k].0 == p)) by {
        if is_path_of(d, gone, p) {
            let x = choose|x: FrozenKey| #[trigger]
                gone.contains(x) && d.index.dom().contains(x) && d.index[x].0 == p;
            assert(gone.insert(k).contains(x));
        }
        if d.index.dom().contains(k) && d.index[k].0 == p {
            assert(gone.insert(k).contains(k));
        }
        if is_path_of(d, gone.insert(k), p) {
            let x = choose|x: FrozenKey| #[trigger]
                gone.insert(k).contains(x) && d.index.dom().contains(x) && d.index[x].0 == p;
            if x != k {
                assert(gone.contains(x));
            }
        }
    }
    if before.index.dom().contains(k) {
        assert(after.index =~= before.index.remove(k));
        assert(after.files =~= before.files.remove(before.index[k].0));
    } else {
        if d.index.dom().contains(k) {
            assert(gone.contains(k));
            assert(is_path_of(d, gone, d.index[k].0));
        }
        assert(after.index =~= before.index);
        assert(after.files =~= before.files);
    }
}

/// Without all patches of some kind the store is as without those of them that it has.
proof fn lemma_all_gone(d: FrozenView, gone: Set<FrozenKey>, all: Set<FrozenKey>)
    requires
        forall|k: FrozenKey| #[trigger] d.index.dom().contains(k) ==> gone.contains(k) == all.contains(k),
    ensures
        frozen_without(d, gone) == frozen_without(d, all),
{
    assert forall|p: Seq<char>| is_path_of(d, gone, p) == is_path_of(d, all, p) by {
        if is_path_of(d, gone, p) {
            let x = choose|x: FrozenKey| #[trigger]
                gone.contains(x) && d.index.dom().contains(x) && d.index[x].0 == p;
            assert(all.contains(x));
        }
        if is_path_of(d, all, p) {
            let x = choose|x: FrozenKey| #[trigger]
                all.contains(x) && d.index.dom().contains(x) && d.index[x].0 == p;
            assert(gone.contains(x));
        }
    }
    assert(frozen_without(d, gone).index =~= frozen_without(d, all).index);
    assert(frozen_without(d, gone).files =~= frozen_without(d, all).files);
}

/// The version that follows another; the first follows the last.
pub open spec fn version_after(version: u64) -> u64 {
    if version == u64::MAX {
        0
    } else {
        (version + 1) as u64
    }
}

/// The first of some versions, from `from` on, under which a segment and column have no
/// file, or the last of them.
pub open spec fn next_free(
    d: FrozenView,
    root: Seq<char>,
    seg_id: Seq<char>,
    col: Seq<char>,
    from: u64,
    tries: nat,
) -> u64
    decreases tries,
{
    if tries == 0 || !d.files.dom().contains(frozen_path(root, seg_id, col, from)) {
        from
    } else {
        next_free(d, root, seg_id, col, version_after(from), (tries - 1) as nat)
    }
}

/// The store after one more patch.
pub open spec fn frozen_with(
    d: FrozenView,
    root: Seq<char>,
    seg_id: Seq<char>,
    col: Seq<char>,
    version: u64,
    txn: u64,
    f: FormatView,
) -> FrozenView {
    let path = frozen_path(root, seg_id, col, version);
    FrozenView {
        index: d.index.insert((seg_id, col, version), (path, txn)),
        files: d.files.insert(path, patch_payload(f)),
    }
}

/// Whether one of the frozen patches is of a segment.
pub open spec fn has_frozen(
    entries: Seq<FrozenEntry>,
    seg_id: Seq<char>,
) -> bool {
    exists|i: int| 0 <= i < entries.len() && (#[trigger] entries[i]).0.0 == seg_id
}

proof fn lemma_gather_fails(
    entries: Seq<FrozenEntry>,
    files: Map<Seq<char>, Seq<u8>>,
    seg_id: Seq<char>,
    snapshot: u64,
    i: int,
)
    requires
        0 <= i < entries.len(),
        frozen_gather(entries.take(i), files, seg_id, snapshot) is Ok,
        entries[i].0.0 == seg_id,
        entries[i].1.1 <= snapshot,
        frozen_file_cells(files, seg_id, entries[i].0.1, entries[i].1) is Err,
    ensures
        frozen_gather(entries, files, seg_id, snapshot) == Err::<Seq<CellView>, RockDuckError>(
            frozen_file_cells(files, seg_id, entries[i].0.1, entries[i].1)->Err_0,
        ),
    decreases entries.len(),
{
    if i == entries.len() - 1 {
        assert(entries.drop_last() =~= entries.take(i));
    } else {
        assert(entries.drop_last().take(i) =~= entries.take(i));
        lemma_gather_fails(entries.drop_last(), files, seg_id, snapshot, i);
    }
}

/// A frozen patch that was written is read back.
pub proof fn law_frozen_patch_is_read_back(
    d: FrozenView,
    root: Seq<char>,
    seg_id: Seq<char>,
    col: Seq<char>,
    version: u64,
    txn: u64,
    f: FormatView,
)
    requires
        parse_payload(patch_payload(f)) == Some(f),
    ensures
        ({
            let after = frozen_with(d, root, seg_id, col, version, txn, f);
            frozen_file_cells(after.files, seg_id, col, after.index[(seg_id, col, version)])
                == frozen_cells(seg_id, col, txn, f)
        }),
{
}

} // verus!
