//! L2: patch files indexed by guards.
//!
//! A guard covers a range of rows of one column of one segment and owns one
//! patch file, to which patches are appended. The contents of the files are held
//! in `files`; whoever owns the store mirrors them to disk.
//!
//! ```text
//! {root_dir}/{seg_id}/{col}/guard_{start}_{end}.delta
//! ```
use vstd::prelude::*;
use crate::bitmap::{bitmap_add, bitmap_new, bitmap_rows, bitmap_serialize, lemma_listing, lemma_lists_len, listing, lists, portable_rows};
use crate::codec::{bytes_before, bytes_copy, bytes_less, lemma_le_len};
use crate::error::{DeltaFault, RockDuckError};
use crate::ipc::{cell_view, cells_size, cells_view, encode_arrow_array, ipc_column, IpcColumn};
use crate::ordmap::{lemma_key_added, lemma_value_changed, OrdKey, OrdMap};
use crate::storage::delta::patch_file::{append_record, bad_magic, cache_fits, check_magic, covers, file_header, law_appended_record_reads_back, law_new_file_is_whole, load_file, load_patches, new_file, patch_row_positions, patch_value, place_cells, placed, read_patch_value_cached, read_record, record_at, record_bytes, whole_file, whole_from, RecordView, DELTA_FILE_MAGIC, MAX_PAYLOAD_SIZE};
use crate::storage::delta::mem_store::{pick_cell, picks_cell};
use crate::storage::delta::sparsity::SparsitySelector;
use crate::storage::delta::types::{cell_views, law_patch_round_trip, le_u32_at, parse_payload, patch_payload, CellView, DeltaCell, DeltaPatch, DeltaPatchFormat, FormatView, ZoneMap};
use crate::segment::projection::ends;
use crate::text::{append_decimal, decimal, join_path, joined, lists_text, text_copy, text_same};

verus! {

/// Rows per guard.
pub const GUARD_ROWS: u64 = 10_000;

/// Key of a guard.
#[derive(Debug)]
pub struct GuardKey {
    pub seg_id: String,
    pub col: String,
    /// First row of the guard.
    pub start_row: u64,
    /// Row after the last row of the guard.
    pub end_row: u64,
}

/// Segment, column, first row and end row of a guard.
#[verifier::ext_equal]
pub struct GuardKeyView {
    pub seg_id: Seq<char>,
    pub col: Seq<char>,
    pub start_row: u64,
    pub end_row: u64,
}

impl GuardKeyView {
    /// What guards are ordered and found by; the end row plays no part.
    pub open spec fn index(self) -> (Seq<char>, Seq<char>, u64) {
        (self.seg_id, self.col, self.start_row)
    }
}

impl View for GuardKey {
    type V = GuardKeyView;

    open spec fn view(&self) -> GuardKeyView {
        GuardKeyView {
            seg_id: self.seg_id@,
            col: self.col@,
            start_row: self.start_row,
            end_row: self.end_row,
        }
    }
}

impl Clone for GuardKey {
    fn clone(&self) -> (r: Self)
        ensures
            r == *self,
    {
        GuardKey {
            seg_id: self.seg_id.clone(),
            col: self.col.clone(),
            start_row: self.start_row,
            end_row: self.end_row,
        }
    }
}

impl GuardKey {
    fn index(&self) -> (r: (String, String, u64))
        ensures
            r@ == self@.index(),
    {
        (self.seg_id.clone(), self.col.clone(), self.start_row)
    }
}

/// Statistics of the patches of a guard.
#[derive(Debug)]
pub struct GuardZoneMap {
    pub min_txn: u64,
    pub max_txn: u64,
    pub patch_count: u64,
    pub total_affected: u64,
    pub min_value: Option<Vec<u8>>,
    pub max_value: Option<Vec<u8>>,
}

/// What the statistics of a guard hold.
#[verifier::ext_equal]
pub struct GuardZoneView {
    pub min_txn: u64,
    pub max_txn: u64,
    pub patch_count: u64,
    pub total_affected: u64,
    pub min_value: Option<Seq<u8>>,
    pub max_value: Option<Seq<u8>>,
}

impl View for GuardZoneMap {
    type V = GuardZoneView;

    open spec fn view(&self) -> GuardZoneView {
        GuardZoneView {
            min_txn: self.min_txn,
            max_txn: self.max_txn,
            patch_count: self.patch_count,
            total_affected: self.total_affected,
            min_value: cell_view(self.min_value),
            max_value: cell_view(self.max_value),
        }
    }
}

/// The statistics of a guard without patches.
pub open spec fn empty_zone() -> GuardZoneView {
    GuardZoneView {
        min_txn: 0,
        max_txn: 0,
        patch_count: 0,
        total_affected: 0,
        min_value: None,
        max_value: None,
    }
}

impl Default for GuardZoneMap {
    fn default() -> (r: Self)
        ensures
            r@ == empty_zone(),
    {
        GuardZoneMap {
            min_txn: 0,
            max_txn: 0,
            patch_count: 0,
            total_affected: 0,
            min_value: None,
            max_value: None,
        }
    }
}

/// The lesser of two known values.
pub open spec fn lesser(held: Option<Seq<u8>>, new: Option<Seq<u8>>) -> Option<Seq<u8>> {
    match (held, new) {
        (Some(a), Some(b)) => if bytes_before(b, a) {
            Some(b)
        } else {
            Some(a)
        },
        (None, _) => new,
        (_, None) => held,
    }
}

/// The greater of two known values.
pub open spec fn greater(held: Option<Seq<u8>>, new: Option<Seq<u8>>) -> Option<Seq<u8>> {
    match (held, new) {
        (Some(a), Some(b)) => if bytes_before(a, b) {
            Some(b)
        } else {
            Some(a)
        },
        (None, _) => new,
        (_, None) => held,
    }
}

/// The sum of two numbers, modulo the range of `u64`.
pub open spec fn wrapping_sum(a: u64, b: u64) -> u64 {
    ((a + b) % 0x1_0000_0000_0000_0000) as u64
}

/// The statistics of a guard after one more patch. A transaction number of zero
/// stands for none seen yet.
pub open spec fn zone_with(z: GuardZoneView, p: ZoneMap, patch_count: u64) -> GuardZoneView {
    GuardZoneView {
        min_txn: if z.min_txn == 0 || p.min_txn < z.min_txn {
            p.min_txn
        } else {
            z.min_txn
        },
        max_txn: if z.max_txn == 0 || p.max_txn > z.max_txn {
            p.max_txn
        } else {
            z.max_txn
        },
        patch_count,
        total_affected: wrapping_sum(z.total_affected, p.affected_rows),
        min_value: lesser(z.min_value, cell_view(p.min_value)),
        max_value: greater(z.max_value, cell_view(p.max_value)),
    }
}

impl GuardZoneMap {
    /// Takes in the statistics of one more patch.
    pub fn update(&mut self, patch_zm: &ZoneMap, patch_count: u64)
        ensures
            final(self)@ == zone_with(old(self)@, *patch_zm, patch_count),
    {
        if self.min_txn == 0 || patch_zm.min_txn < self.min_txn {
            self.min_txn = patch_zm.min_txn;
        }
        if self.max_txn == 0 || patch_zm.max_txn > self.max_txn {
            self.max_txn = patch_zm.max_txn;
        }
        self.patch_count = patch_count;
        self.total_affected = self.total_affected.wrapping_add(patch_zm.affected_rows);
        if let Some(new_min) = &patch_zm.min_value {
            let replace = match &self.min_value {
                Some(min) => bytes_less(new_min.as_slice(), min.as_slice()),
                None => true,
            };
            if replace {
                self.min_value = Some(bytes_copy(new_min.as_slice()));
            }
        }
        if let Some(new_max) = &patch_zm.max_value {
            let replace = match &self.max_value {
                Some(max) => bytes_less(max.as_slice(), new_max.as_slice()),
                None => true,
            };
            if replace {
                self.max_value = Some(bytes_copy(new_max.as_slice()));
            }
        }
    }
}

/// A guard: a range of rows and its patch file.
#[derive(Debug)]
pub struct Guard {
    pub key: GuardKey,
    /// Path of the patch file.
    pub file_path: String,
    pub zone_map: GuardZoneMap,
    /// How many patches were appended.
    pub patch_count: u32,
}

/// What a guard holds.
#[verifier::ext_equal]
pub struct GuardView {
    pub key: GuardKeyView,
    pub file_path: Seq<char>,
    pub zone_map: GuardZoneView,
    pub patch_count: u32,
}

impl View for Guard {
    type V = GuardView;

    open spec fn view(&self) -> GuardView {
        GuardView {
            key: self.key@,
            file_path: self.file_path@,
            zone_map: self.zone_map@,
            patch_count: self.patch_count,
        }
    }
}

/// A guard without patches.
pub open spec fn fresh_guard(key: GuardKeyView, file_path: Seq<char>) -> GuardView {
    GuardView { key, file_path, zone_map: empty_zone(), patch_count: 0 }
}

impl Guard {
    pub fn new(key: GuardKey, file_path: String) -> (g: Self)
        ensures
            g@ == fresh_guard(key@, file_path@),
    {
        Guard { key, file_path, zone_map: GuardZoneMap::default(), patch_count: 0 }
    }

    /// Whether a row lies in the range of this guard.
    pub fn contains_row(&self, row: u64) -> (r: bool)
        ensures
            r == (self.key.start_row <= row < self.key.end_row),
    {
        row >= self.key.start_row && row < self.key.end_row
    }

    /// First row and end row.
    pub fn range(&self) -> (r: (u64, u64))
        ensures
            r == (self.key.start_row, self.key.end_row),
    {
        (self.key.start_row, self.key.end_row)
    }
}

/// A patch as read from a guard for merging.
#[derive(Debug)]
pub struct MergePatchRef {
    pub patch_id: u64,
    pub seg_id: String,
    pub col: String,
    pub file_path: String,
    pub format: DeltaPatchFormat,
    pub txn_range: (u64, u64),
    /// First row of the guard and patch number: two patches with the same pair
    /// stand for the same update.
    pub dedup_key: (u64, u64),
}

/// What a patch to be merged holds.
#[verifier::ext_equal]
pub struct PatchRefView {
    pub patch_id: u64,
    pub seg_id: Seq<char>,
    pub col: Seq<char>,
    pub file_path: Seq<char>,
    pub format: FormatView,
    pub txn_range: (u64, u64),
    pub dedup_key: (u64, u64),
}

impl View for MergePatchRef {
    type V = PatchRefView;

    open spec fn view(&self) -> PatchRefView {
        PatchRefView {
            patch_id: self.patch_id,
            seg_id: self.seg_id@,
            col: self.col@,
            file_path: self.file_path@,
            format: self.format@,
            txn_range: self.txn_range,
            dedup_key: self.dedup_key,
        }
    }
}

/// What patches to be merged hold.
pub open spec fn patch_views(patches: Seq<MergePatchRef>) -> Seq<PatchRefView> {
    patches.map_values(|p: MergePatchRef| p@)
}

/// The patch that a record of a guard's file holds.
pub open spec fn patch_ref(key: GuardKeyView, path: Seq<char>, rec: RecordView, f: FormatView) -> PatchRefView {
    PatchRefView {
        patch_id: rec.patch_id,
        seg_id: key.seg_id,
        col: key.col,
        file_path: path,
        format: f,
        txn_range: (rec.txn_start, rec.txn_end),
        dedup_key: (key.start_row, rec.patch_id),
    }
}

/// The patches of the records from an offset on; records whose payload is no
/// patch are passed over.
pub open spec fn patches_from(key: GuardKeyView, path: Seq<char>, file: Seq<u8>, offset: nat) -> Result<
    Seq<PatchRefView>,
    RockDuckError,
>
    decreases file.len() - offset,
{
    match record_at(file, offset) {
        None => Ok(Seq::empty()),
        Some(Err(f)) => Err(RockDuckError::Delta(f)),
        Some(Ok(rec)) => if rec.end() > file.len() {
            Ok(Seq::empty())
        } else {
            match (parse_payload(rec.payload), patches_from(key, path, file, rec.end())) {
                (_, Err(e)) => Err(e),
                (None, Ok(rest)) => Ok(rest),
                (Some(f), Ok(rest)) => Ok(seq![patch_ref(key, path, rec, f)] + rest),
            }
        },
    }
}

/// The patches of a guard's file.
pub open spec fn guard_patches(key: GuardKeyView, path: Seq<char>, file: Seq<u8>) -> Result<
    Seq<PatchRefView>,
    RockDuckError,
> {
    if bad_magic(file) {
        Err(RockDuckError::Delta(DeltaFault::BadMagic(le_u32_at(file, 0) as u32)))
    } else {
        patches_from(key, path, file, 64)
    }
}

/// Patches in front of those of a result.
pub open spec fn patches_then(front: Seq<PatchRefView>, rest: Result<Seq<PatchRefView>, RockDuckError>) -> Result<
    Seq<PatchRefView>,
    RockDuckError,
> {
    match rest {
        Ok(more) => Ok(front + more),
        Err(e) => Err(e),
    }
}

/// Reads every patch of a guard's file.
pub fn read_patch_file(key: &GuardKey, file_path: &String, file: &[u8]) -> (r: Result<
    Vec<MergePatchRef>,
    RockDuckError,
>)
    ensures
        match r {
            Ok(p) => guard_patches(key@, file_path@, file@) == Ok::<
                Seq<PatchRefView>,
                RockDuckError,
            >(patch_views(p@)),
            Err(e) => guard_patches(key@, file_path@, file@) == Err::<
                Seq<PatchRefView>,
                RockDuckError,
            >(e),
        },
{
    match check_magic(file) {
        Ok(_) => {},
        Err(f) => return Err(RockDuckError::Delta(f)),
    }
    let mut patches: Vec<MergePatchRef> = Vec::new();
    let mut offset: usize = 64;
    let len: usize = file.len();
    let ghost whole = guard_patches(key@, file_path@, file@);
    proof {
        assert(patch_views(patches@) =~= Seq::empty());
        if whole is Ok {
            assert(patch_views(patches@) + whole->Ok_0 =~= whole->Ok_0);
        }
    }
    loop
        invariant
            len == file@.len(),
            whole == patches_then(
                patch_views(patches@),
                patches_from(key@, file_path@, file@, offset as nat),
            ),
            whole == guard_patches(key@, file_path@, file@),
        ensures
            whole == Ok::<Seq<PatchRefView>, RockDuckError>(patch_views(patches@)),
        decreases usize::MAX - offset,
    {
        let next = read_record(file, offset);
        match next {
            None => {
                assert(patch_views(patches@) + Seq::<PatchRefView>::empty() =~= patch_views(
                    patches@,
                ));
                break;
            },
            Some(Err(f)) => return Err(RockDuckError::Delta(f)),
            Some(Ok(rec)) => {
                let end: usize = offset + 33 + rec.payload.len();
                match DeltaPatchFormat::from_bytes(rec.payload.as_slice()) {
                    None => {},
                    Some(format) => {
                        let p = MergePatchRef {
                            patch_id: rec.patch_id,
                            seg_id: key.seg_id.clone(),
                            col: key.col.clone(),
                            file_path: file_path.clone(),
                            format,
                            txn_range: (rec.txn_start, rec.txn_end),
                            dedup_key: (key.start_row, rec.patch_id),
                        };
                        proof {
                            let a = patch_views(patches@);
                            assert(patch_views(patches@.push(p)) =~= a.push(p@));
                            let rest = patches_from(key@, file_path@, file@, end as nat);
                            if rest is Ok {
                                assert(a + (seq![p@] + rest->Ok_0) =~= a.push(p@) + rest->Ok_0);
                            }
                        }
                        patches.push(p);
                    },
                }
                offset = end;
            },
        }
    }
    Ok(patches)
}

/// What the store holds: guards by segment, column and first row, and files by
/// path.
#[verifier::ext_equal]
pub struct DiskView {
    pub guards: Map<(Seq<char>, Seq<char>, u64), GuardView>,
    pub files: Map<Seq<char>, Seq<u8>>,
}

/// The path of a guard's file.
pub open spec fn guard_file_path(root: Seq<char>, key: GuardKeyView) -> Seq<char> {
    joined(
        joined(joined(root, key.seg_id), key.col),
        "guard_"@ + decimal(key.start_row as nat) + "_"@ + decimal(key.end_row as nat)
            + ".delta"@,
    )
}

/// The key of the guard that a row belongs to.
pub open spec fn guard_key_for(seg_id: Seq<char>, col: Seq<char>, row: u64) -> GuardKeyView {
    let start = (row / GUARD_ROWS) * GUARD_ROWS;
    GuardKeyView {
        seg_id,
        col,
        start_row: start as u64,
        end_row: if start + GUARD_ROWS > u64::MAX {
            u64::MAX
        } else {
            (start + GUARD_ROWS) as u64
        },
    }
}

/// Every row below the largest number lies in the range of its guard.
pub proof fn law_guard_contains_its_rows(seg_id: Seq<char>, col: Seq<char>, row: u64)
    requires
        row < u64::MAX,
    ensures
        guard_key_for(seg_id, col, row).start_row <= row < guard_key_for(seg_id, col, row).end_row,
{
}

/// Two rows have the same guard or guards without a common row.
pub proof fn law_guards_partition_rows(seg_id: Seq<char>, col: Seq<char>, a: u64, b: u64)
    ensures
        ({
            let g = guard_key_for(seg_id, col, a);
            let h = guard_key_for(seg_id, col, b);
            g == h || g.end_row <= h.start_row || h.end_row <= g.start_row
        }),
{
    let x = a / GUARD_ROWS;
    let y = b / GUARD_ROWS;
    if x < y {
        assert(x * GUARD_ROWS + GUARD_ROWS <= y * GUARD_ROWS);
    } else if y < x {
        assert(y * GUARD_ROWS + GUARD_ROWS <= x * GUARD_ROWS);
    }
}

/// The cells of a guard that a snapshot sees, under its segment and its column.
pub open spec fn guard_cells(
    g: GuardView,
    files: Map<Seq<char>, Seq<u8>>,
    snapshot: u64,
) -> Result<Seq<CellView>, RockDuckError> {
    if files.dom().contains(g.file_path) {
        match load_file(files[g.file_path], snapshot) {
            Ok(cells) => Ok(placed(g.key.seg_id, g.key.col, cells)),
            Err(e) => Err(e),
        }
    } else {
        Ok(Seq::empty())
    }
}

/// The cells of a segment that a snapshot sees in a list of guards, and the
/// first error on the way.
pub open spec fn gather(
    guards: Seq<GuardView>,
    files: Map<Seq<char>, Seq<u8>>,
    seg_id: Seq<char>,
    snapshot: u64,
) -> (Seq<CellView>, Option<RockDuckError>)
    decreases guards.len(),
{
    if guards.len() == 0 {
        (Seq::empty(), None)
    } else {
        let (cells, err) = gather(guards.drop_last(), files, seg_id, snapshot);
        let g = guards.last();
        if g.key.seg_id == seg_id {
            match guard_cells(g, files, snapshot) {
                Ok(more) => (cells + more, err),
                Err(e) => (
                    cells,
                    if err is None {
                        Some(e)
                    } else {
                        err
                    },
                ),
            }
        } else {
            (cells, err)
        }
    }
}

/// The cells of the segments of a list, segment by segment; cells of damaged
/// guards are missing.
pub open spec fn gather_batch(
    guards: Seq<GuardView>,
    files: Map<Seq<char>, Seq<u8>>,
    seg_ids: Seq<String>,
    snapshot: u64,
) -> Map<Seq<char>, Seq<CellView>>
    decreases seg_ids.len(),
{
    if seg_ids.len() == 0 {
        Map::empty()
    } else {
        let before = gather_batch(guards, files, seg_ids.drop_last(), snapshot);
        let seg = seg_ids.last()@;
        let held = if before.dom().contains(seg) {
            before[seg]
        } else {
            Seq::empty()
        };
        before.insert(seg, held + gather(guards, files, seg, snapshot).0)
    }
}

/// L2 store.
#[derive(Debug)]
pub struct DeltaL2Disk {
    guards: OrdMap<(String, String, u64), Guard>,
    files: OrdMap<String, Vec<u8>>,
    compaction_threshold: u32,
    root_dir: String,
    sparsity_selector: SparsitySelector,
    async_compaction: Option<usize>,
}

impl View for DeltaL2Disk {
    type V = DiskView;

    closed spec fn view(&self) -> DiskView {
        DiskView {
            guards: self.guards@.map_values(|g: Guard| g@),
            files: self.files@.map_values(|f: Vec<u8>| f@),
        }
    }
}

impl DeltaL2Disk {
    /// The guards, by segment, column and first row.
    pub closed spec fn guard_list(&self) -> Seq<GuardView> {
        Seq::new(self.guards.keys().len(), |i: int| self.guards.value_of(i)@)
    }

    /// The directory of the store.
    pub closed spec fn root(&self) -> Seq<char> {
        self.root_dir@
    }

    /// Patches per guard at which a merge is due.
    pub closed spec fn threshold(&self) -> u32 {
        self.compaction_threshold
    }

    /// How many threads merges are to run in, if they are to run in the background;
    /// zero leaves the number open.
    pub closed spec fn in_background(&self) -> Option<usize> {
        self.async_compaction
    }

    /// Every guard is filed under its own key.
    pub closed spec fn wf(&self) -> bool {
        &&& self.guards.wf()
        &&& self.files.wf()
        &&& forall|k: (Seq<char>, Seq<char>, u64)| #[trigger]
            self.guards@.dom().contains(k) ==> self.guards@[k].key@.index() == k
    }

    /// The list of guards holds exactly the guards of the store.
    pub proof fn lemma_guard_list(&self)
        requires
            self.wf(),
        ensures
            forall|i: int|
                #![trigger self.guard_list()[i]]
                0 <= i < self.guard_list().len() ==> {
                    let g = self.guard_list()[i];
                    self@.guards.dom().contains(g.key.index()) && self@.guards[g.key.index()] == g
                },
            forall|k: (Seq<char>, Seq<char>, u64)| #[trigger]
                self@.guards.dom().contains(k) ==> self@.guards[k].key.index() == k
                    && self.guard_list().contains(self@.guards[k]),
            self@.guards.dom().finite(),
            self@.guards.dom().len() == self.guard_list().len(),
    {
        self.guards.lemma_dom();
        assert(self@.guards.dom() =~= self.guards@.dom());
        assert forall|i: int|
            #![trigger self.guard_list()[i]]
            0 <= i < self.guard_list().len() implies {
            let g = self.guard_list()[i];
            self@.guards.dom().contains(g.key.index()) && self@.guards[g.key.index()] == g
        } by {
            self.guards.lemma_index(i);
        }
        assert forall|k: (Seq<char>, Seq<char>, u64)| #[trigger]
            self@.guards.dom().contains(k) implies self@.guards[k].key.index() == k
            && self.guard_list().contains(self@.guards[k]) by {
            let i = self.guards.lemma_key(k);
            assert(self.guard_list()[i] == self@.guards[k]);
        }
    }

    /// No two guards of the list have one key.
    pub proof fn lemma_guards_distinct(&self)
        requires
            self.wf(),
        ensures
            forall|i: int, j: int|
                #![trigger self.guard_list()[i], self.guard_list()[j]]
                0 <= i < j < self.guard_list().len() ==> self.guard_list()[i].key.index()
                    != self.guard_list()[j].key.index(),
    {
        self.guards.lemma_dom();
        assert forall|i: int, j: int|
            #![trigger self.guard_list()[i], self.guard_list()[j]]
            0 <= i < j < self.guard_list().len() implies self.guard_list()[i].key.index()
            != self.guard_list()[j].key.index() by {
            self.guards.lemma_index(i);
            self.guards.lemma_index(j);
            assert(self.guards.keys()[i] != self.guards.keys()[j]);
        }
    }

    /// A guard that is filed takes the place of the one with its key, or a new
    /// place in the list.
    pub proof fn lemma_list_grown(&self, after: &Self, index: (Seq<char>, Seq<char>, u64), g: GuardView) -> (i:
        int)
        requires
            self.wf(),
            after.wf(),
            after@.guards == self@.guards.insert(index, g),
        ensures
            0 <= i < after.guard_list().len(),
            self@.guards.dom().contains(index) ==> i < self.guard_list().len() && self.guard_list()[i]
                == self@.guards[index] && after.guard_list() == self.guard_list().update(i, g),
            !self@.guards.dom().contains(index) ==> i <= self.guard_list().len() && after.guard_list()
                == self.guard_list().insert(i, g),
    {
        assert(after.guards@.dom() =~= self.guards@.dom().insert(index)) by {
            assert(after@.guards.dom() =~= after.guards@.dom());
            assert(self@.guards.dom() =~= self.guards@.dom());
        }
        assert(self@.guards.dom() =~= self.guards@.dom());
        let i = lemma_key_added(self.guards, after.guards, index);
        let a = self.guard_list();
        let b = after.guard_list();
        assert forall|j: int| 0 <= j < b.len() implies #[trigger] b[j] == after@.guards[after.guards.keys()[j]] by {
            after.guards.lemma_index(j);
        }
        assert forall|j: int| 0 <= j < a.len() implies #[trigger] a[j] == self@.guards[self.guards.keys()[j]] by {
            self.guards.lemma_index(j);
        }
        self.guards.lemma_dom();
        after.guards.lemma_dom();
        if self@.guards.dom().contains(index) {
            assert(b =~= a.update(i, g)) by {
                assert forall|j: int| 0 <= j < b.len() implies b[j] == a.update(i, g)[j] by {
                    if j != i {
                        assert(after.guards.keys()[j] != after.guards.keys()[i]);
                    }
                }
            }
        } else {
            assert(b =~= a.insert(i, g)) by {
                assert forall|j: int| 0 <= j < b.len() implies b[j] == a.insert(i, g)[j] by {
                    if j != i {
                        assert(after.guards.keys()[j] != after.guards.keys()[i]);
                    }
                }
            }
        }
        i
    }

    /// An empty store.
    pub fn new(root_dir: String) -> (r: Self)
        ensures
            r.wf(),
            r@ == (DiskView { guards: Map::empty(), files: Map::empty() }),
            r.root() == root_dir@,
            r.threshold() == 64,
            r.in_background() is None,
    {
        let r = DeltaL2Disk {
            guards: OrdMap::new(),
            files: OrdMap::new(),
            compaction_threshold: 64,
            root_dir,
            sparsity_selector: SparsitySelector::new(),
            async_compaction: None,
        };
        assert(r@.guards =~= Map::empty());
        assert(r@.files =~= Map::empty());
        r
    }

    /// How many threads merges are to run in, if they are to run in the background.
    pub fn background_threads(&self) -> (r: Option<usize>)
        ensures
            r == self.in_background(),
    {
        self.async_compaction
    }

    /// Sets whether merges are to run in the background, and in how many threads.
    pub fn with_async_compaction(self, async_enabled: bool, num_threads: usize) -> (r: Result<
        Self,
        RockDuckError,
    >)
        requires
            self.wf(),
        ensures
            match r {
                Ok(store) => {
                    &&& store.wf()
                    &&& store@ == self@
                    &&& store.root() == self.root()
                    &&& store.threshold() == self.threshold()
                    &&& store.in_background() == if async_enabled {
                        Some(num_threads)
                    } else {
                        None
                    }
                },
                Err(_) => false,
            },
    {
        let async_compaction: Option<usize> = if async_enabled {
            Some(num_threads)
        } else {
            None
        };
        Ok(DeltaL2Disk { async_compaction, ..self })
    }

    /// Sets how many patches per guard make a merge due.
    pub fn set_compaction_threshold(&mut self, threshold: u32)
        requires
            old(self).wf(),
        ensures
            final(self).wf(),
            final(self)@ == old(self)@,
            final(self).guard_list() == old(self).guard_list(),
            final(self).root() == old(self).root(),
            final(self).threshold() == threshold,
    {
        self.compaction_threshold = threshold;
    }

    /// Patches per guard at which a merge is due.
    pub fn compaction_threshold(&self) -> (r: u32)
        ensures
            r == self.threshold(),
    {
        self.compaction_threshold
    }

    /// How many guards there are.
    pub fn num_guards(&self) -> (n: usize)
        ensures
            n == self.guard_list().len(),
    {
        self.guards.len()
    }

    /// How many entries there are: one for each guard.
    pub fn num_entries(&self) -> (n: usize)
        ensures
            n == self.guard_list().len(),
    {
        self.guards.len()
    }

    /// The bytes of a file.
    pub fn file(&self, path: &String) -> (r: Option<&Vec<u8>>)
        requires
            self.wf(),
        ensures
            match r {
                Some(f) => self@.files.dom().contains(path@) && f@ == self@.files[path@],
                None => !self@.files.dom().contains(path@),
            },
    {
        self.files.get(path)
    }

    /// Takes in the bytes of a file, as found on disk.
    pub fn put_file(&mut self, path: String, bytes: Vec<u8>)
        requires
            old(self).wf(),
        ensures
            final(self).wf(),
            final(self)@.files == old(self)@.files.insert(path@, bytes@),
            final(self)@.guards == old(self)@.guards,
            final(self).guard_list() == old(self).guard_list(),
            final(self).root() == old(self).root(),
            final(self).threshold() == old(self).threshold(),
    {
        let ghost before = self.files@;
        let _ = self.files.insert(path, bytes);
        assert(self@.files =~= old(self)@.files.insert(path@, bytes@));
    }

    /// The path of a guard's file.
    pub fn guard_path(&self, guard_key: &GuardKey) -> (r: String)
        ensures
            r@ == guard_file_path(self.root(), guard_key@),
    {
        let dir = join_path(
            join_path(self.root_dir.as_str(), guard_key.seg_id.as_str()).as_str(),
            guard_key.col.as_str(),
        );
        let mut name = text_copy("guard_");
        append_decimal(&mut name, guard_key.start_row);
        name.append("_");
        append_decimal(&mut name, guard_key.end_row);
        name.append(".delta");
        join_path(dir.as_str(), name.as_str())
    }

    /// The segments that have guards, each once.
    pub fn get_segment_ids(&self) -> (r: Vec<String>)
        ensures
            forall|s: Seq<char>| #[trigger] lists_text(r@, s) <==> has_segment(self.guard_list(), s),
            forall|i: int, j: int| 0 <= i < j < r@.len() ==> r@[i]@ != r@[j]@,
    {
        let mut r: Vec<String> = Vec::new();
        let mut i: usize = 0;
        let ghost list = self.guard_list();
        while i < self.guards.len()
            invariant
                list == self.guard_list(),
                i <= list.len() == self.guards.keys().len(),
                forall|s: Seq<char>| #[trigger] lists_text(r@, s) <==> has_segment(list.take(i as int), s),
                forall|a: int, b: int| 0 <= a < b < r@.len() ==> r@[a]@ != r@[b]@,
            decreases list.len() - i,
        {
            let seg: &String = &self.guards.value_at(i).key.seg_id;
            assert(list[i as int].key.seg_id == seg@);
            let mut known = false;
            let mut j: usize = 0;
            while j < r.len()
                invariant
                    j <= r@.len(),
                    known ==> lists_text(r@, seg@),
                    !known ==> forall|a: int| 0 <= a < j ==> (#[trigger] r@[a])@ != seg@,
                decreases r@.len() - j,
            {
                if text_same(r[j].as_str(), seg.as_str()) {
                    known = true;
                    assert(r@[j as int]@ == seg@);
                }
                j = j + 1;
            }
            let ghost prev = r@;
            if !known {
                r.push(seg.clone());
            }
            proof {
                let next = list.take(i + 1);
                assert forall|s: Seq<char>| #[trigger] lists_text(r@, s) <==> has_segment(next, s) by {
                    if lists_text(r@, s) {
                        let a = choose|a: int| 0 <= a < r@.len() && (#[trigger] r@[a])@ == s;
                        if a < prev.len() {
                            assert(prev[a]@ == s);
                            assert(lists_text(prev, s));
                            let g = choose|g: int|
                                0 <= g < i && #[trigger] list.take(i as int)[g].key.seg_id == s;
                            assert(next[g].key.seg_id == s);
                        } else {
                            assert(next[i as int].key.seg_id == s);
                        }
                    }
                    if has_segment(next, s) {
                        let g = choose|g: int|
                            0 <= g < next.len() && #[trigger] next[g].key.seg_id == s;
                        if g < i {
                            assert(list.take(i as int)[g].key.seg_id == s);
                            assert(lists_text(prev, s));
                            let a = choose|a: int| 0 <= a < prev.len() && (#[trigger] prev[a])@ == s;
                            assert(r@[a]@ == s);
                        } else if known {
                            let a = choose|a: int| 0 <= a < prev.len() && (#[trigger] prev[a])@ == s;
                            assert(r@[a]@ == s);
                        } else {
                            assert(r@[prev.len() as int]@ == s);
                        }
                    }
                }
            }
            i = i + 1;
        }
        assert(list.take(i as int) =~= list);
        r
    }

    /// The first guard of a column whose range holds a row.
    pub fn find_guard(&self, seg_id: &str, col: &str, row: u64) -> (r: Option<GuardKey>)
        requires
            self.wf(),
        ensures
            match r {
                Some(k) => exists|i: int|
                    #![trigger self.guard_list()[i]]
                    0 <= i < self.guard_list().len() && holds_row(
                        self.guard_list()[i],
                        seg_id@,
                        col@,
                        row,
                    ) && k@ == self.guard_list()[i].key && forall|j: int|
                        #![trigger self.guard_list()[j]]
                        0 <= j < i ==> !holds_row(self.guard_list()[j], seg_id@, col@, row),
                None => forall|j: int|
                    #![trigger self.guard_list()[j]]
                    0 <= j < self.guard_list().len() ==> !holds_row(
                        self.guard_list()[j],
                        seg_id@,
                        col@,
                        row,
                    ),
            },
    {
        let mut i: usize = 0;
        while i < self.guards.len()
            invariant
                i <= self.guard_list().len() == self.guards.keys().len(),
                forall|j: int|
                    #![trigger self.guard_list()[j]]
                    0 <= j < i ==> !holds_row(self.guard_list()[j], seg_id@, col@, row),
            decreases self.guard_list().len() - i,
        {
            let g = self.guards.value_at(i);
            assert(self.guard_list()[i as int] == g@);
            if text_same(g.key.seg_id.as_str(), seg_id) && text_same(g.key.col.as_str(), col)
                && g.contains_row(row) {
                return Some(g.key.clone());
            }
            i = i + 1;
        }
        None
    }

    /// The guard that a row belongs to, made if it does not exist.
    pub fn find_or_create_guard(&mut self, seg_id: &str, col: &str, row: u64) -> (r: GuardKey)
        requires
            old(self).wf(),
        ensures
            final(self).wf(),
            final(self)@.files == old(self)@.files,
            final(self).root() == old(self).root(),
            final(self).threshold() == old(self).threshold(),
            final(self).in_background() == old(self).in_background(),
            ({
                let key = guard_key_for(seg_id@, col@, row);
                if old(self)@.guards.dom().contains(key.index()) {
                    r@ == old(self)@.guards[key.index()].key && final(self)@.guards
                        == old(self)@.guards
                } else {
                    r@ == key && final(self)@.guards == old(self)@.guards.insert(
                        key.index(),
                        fresh_guard(key, guard_file_path(old(self).root(), key)),
                    )
                }
            }),
    {
        let start_row: u64 = (row / GUARD_ROWS) * GUARD_ROWS;
        let end_row: u64 = start_row.saturating_add(GUARD_ROWS);
        let key = GuardKey {
            seg_id: text_copy(seg_id),
            col: text_copy(col),
            start_row,
            end_row,
        };
        assert(key@ == guard_key_for(seg_id@, col@, row));
        let index = key.index();
        let existing = match self.guards.get(&index) {
            Some(g) => Some(g.key.clone()),
            None => None,
        };
        match existing {
            Some(k) => k,
            None => {
                let path = self.guard_path(&key);
                let guard = Guard::new(key.clone(), path);
                let ghost g = guard@;
                let ghost before = self.guards@;
                let _ = self.guards.insert(index, guard);
                assert(self@.guards =~= old(self)@.guards.insert(key@.index(), g));
                key
            },
        }
    }

    /// Appends a patch to the file of the first guard of its column and takes it
    /// into the statistics of that guard.
    pub fn append_patch(&mut self, seg_id: &str, col: &str, patch: &DeltaPatch)
        requires
            old(self).wf(),
        ensures
            final(self).wf(),
            final(self).root() == old(self).root(),
            final(self).threshold() == old(self).threshold(),
            final(self).in_background() == old(self).in_background(),
            final(self)@ == appended(old(self)@, old(self).root(), seg_id@, col@, *patch),
    {
        let guard_key = self.find_or_create_guard(seg_id, col, 0);
        let ghost mid = self@;
        let ghost index = guard_key_for(seg_id@, col@, 0).index();
        assert(guard_key@.index() == index) by {
            old(self).lemma_guard_list();
        }
        let path = self.guard_path(&guard_key);
        let payload = patch.format.to_bytes();
        let affected: u64 = patch.zone_map.affected_rows;
        let mut file = match self.files.remove(&path) {
            Some(f) => f,
            None => new_file(),
        };
        let flag: u8 = if patch.format.is_sparse() {
            0
        } else {
            1
        };
        append_record(
            &mut file,
            patch.patch_id,
            patch.txn_range,
            flag,
            affected,
            payload.as_slice(),
        );
        let ghost bytes = file@;
        let _ = self.files.insert(path, file);
        assert(self@.files =~= mid.files.insert(
            guard_file_path(self.root(), guard_key@),
            bytes,
        ));
        let key = guard_key.index();
        if let Ok(i) = self.guards.find(&key) {
            let ghost before = self.guards;
            let guard = self.guards.value_mut(i);
            guard.patch_count = guard.patch_count.wrapping_add(1);
            guard.zone_map.update(&patch.zone_map, guard.patch_count as u64);
            proof {
                lemma_value_changed(before, self.guards, i as int);
                assert(self@.guards =~= mid.guards.insert(
                    index,
                    guard_with(mid.guards[index], *patch),
                ));
            }
        }
    }
}

/// Whether one of the keys has an index.
pub open spec fn lists_index(keys: Seq<GuardKey>, index: (Seq<char>, Seq<char>, u64)) -> bool {
    exists|i: int| 0 <= i < keys.len() && (#[trigger] keys[i])@.index() == index
}

/// Whether one of the guards is of a segment.
pub open spec fn has_segment(guards: Seq<GuardView>, seg_id: Seq<char>) -> bool {
    exists|g: int| 0 <= g < guards.len() && #[trigger] guards[g].key.seg_id == seg_id
}

/// Whether a guard is of a column and its range holds a row.
pub open spec fn holds_row(g: GuardView, seg_id: Seq<char>, col: Seq<char>, row: u64) -> bool {
    g.key.seg_id == seg_id && g.key.col == col && g.key.start_row <= row < g.key.end_row
}

/// A guard after one more patch.
pub open spec fn guard_with(g: GuardView, patch: DeltaPatch) -> GuardView {
    GuardView {
        zone_map: zone_with(g.zone_map, patch.zone_map, patches_after(g) as u64),
        patch_count: patches_after(g),
        ..g
    }
}

/// How many patches were appended to a guard once one more is, modulo the range
/// of `u32`.
pub open spec fn patches_after(g: GuardView) -> u32 {
    if g.patch_count == u32::MAX {
        0
    } else {
        (g.patch_count + 1) as u32
    }
}

/// The record of a patch.
pub open spec fn patch_record(patch: DeltaPatch) -> Seq<u8> {
    record_bytes(
        patch.patch_id,
        patch.txn_range,
        if patch.format@ is Sparse {
            0
        } else {
            1
        },
        patch.zone_map.affected_rows as nat,
        patch_payload(patch.format@),
    )
}

/// The store after one more patch of a column.
pub open spec fn appended(
    d: DiskView,
    root: Seq<char>,
    seg_id: Seq<char>,
    col: Seq<char>,
    patch: DeltaPatch,
) -> DiskView {
    let wanted = guard_key_for(seg_id, col, 0);
    let index = wanted.index();
    let held = d.guards.dom().contains(index);
    let key = if held {
        d.guards[index].key
    } else {
        wanted
    };
    let path = guard_file_path(root, key);
    let guard = if held {
        d.guards[index]
    } else {
        fresh_guard(key, path)
    };
    let file = if d.files.dom().contains(path) {
        d.files[path]
    } else {
        file_header()
    };
    DiskView {
        guards: d.guards.insert(index, guard_with(guard, patch)),
        files: d.files.insert(path, file + patch_record(patch)),
    }
}

impl DeltaL2Disk {
    /// Reads the cells of a guard that a snapshot sees; a guard without a file
    /// has none.
    pub fn load_patches_from_guard(&self, guard: &Guard, snapshot_txn: u64) -> (r: Result<
        Vec<DeltaCell>,
        RockDuckError,
    >)
        requires
            self.wf(),
        ensures
            match r {
                Ok(cells) => guard_cells(guard@, self@.files, snapshot_txn) == Ok::<
                    Seq<CellView>,
                    RockDuckError,
                >(cell_views(cells@)),
                Err(e) => guard_cells(guard@, self@.files, snapshot_txn) == Err::<
                    Seq<CellView>,
                    RockDuckError,
                >(e),
            },
    {
        match self.file(&guard.file_path) {
            None => {
                let none: Vec<DeltaCell> = Vec::new();
                assert(cell_views(none@) =~= Seq::empty());
                Ok(none)
            },
            Some(file) => match load_patches(file.as_slice(), snapshot_txn) {
                Ok(mut cells) => {
                    place_cells(&mut cells, &guard.key.seg_id, &guard.key.col);
                    Ok(cells)
                },
                Err(e) => Err(e),
            },
        }
    }

    /// Reads the cells of a segment and remembers the first error.
    fn gather_segment(&self, seg_id: &str, snapshot_txn: u64) -> (r: (
        Vec<DeltaCell>,
        Option<RockDuckError>,
    ))
        requires
            self.wf(),
        ensures
            gather(self.guard_list(), self@.files, seg_id@, snapshot_txn) == (
                cell_views(r.0@),
                r.1,
            ),
    {
        let mut cells: Vec<DeltaCell> = Vec::new();
        let mut err: Option<RockDuckError> = None;
        let mut i: usize = 0;
        let ghost list = self.guard_list();
        proof {
            assert(list.take(0) =~= Seq::empty());
            assert(cell_views(cells@) =~= Seq::empty());
        }
        while i < self.guards.len()
            invariant
                self.wf(),
                list == self.guard_list(),
                i <= list.len() == self.guards.keys().len(),
                gather(list.take(i as int), self@.files, seg_id@, snapshot_txn) == (
                    cell_views(cells@),
                    err,
                ),
            decreases list.len() - i,
        {
            let guard = self.guards.value_at(i);
            proof {
                assert(list[i as int] == guard@);
                assert(list.take(i + 1).drop_last() =~= list.take(i as int));
            }
            if text_same(guard.key.seg_id.as_str(), seg_id) {
                match self.load_patches_from_guard(guard, snapshot_txn) {
                    Ok(mut more) => {
                        assert(cell_views(cells@ + more@) =~= cell_views(cells@) + cell_views(
                            more@,
                        ));
                        cells.append(&mut more);
                    },
                    Err(e) => {
                        if err.is_none() {
                            err = Some(e);
                        }
                    },
                }
            }
            i = i + 1;
        }
        assert(list.take(i as int) =~= list);
        (cells, err)
    }

    /// The cells of a segment that a snapshot sees: those of the patches that are
    /// not newer than it. A damaged guard is reported after the others were read.
    pub fn get_visible(&self, seg_id: &str, snapshot_txn: u64) -> (r: Result<
        Vec<DeltaCell>,
        RockDuckError,
    >)
        requires
            self.wf(),
        ensures
            ({
                let (cells, err) = gather(self.guard_list(), self@.files, seg_id@, snapshot_txn);
                match r {
                    Ok(v) => err is None && cell_views(v@) == cells,
                    Err(e) => err == Some(e),
                }
            }),
    {
        let (cells, err) = self.gather_segment(seg_id, snapshot_txn);
        match err {
            Some(e) => Err(e),
            None => Ok(cells),
        }
    }

    /// The cells of several segments that a snapshot sees, by segment. What a
    /// damaged guard holds is missing from the result.
    pub fn get_visible_batch(&self, seg_ids: &Vec<String>, snapshot_txn: u64) -> (r: OrdMap<
        String,
        Vec<DeltaCell>,
    >)
        requires
            self.wf(),
        ensures
            r.wf(),
            r@.map_values(|v: Vec<DeltaCell>| cell_views(v@)) == gather_batch(
                self.guard_list(),
                self@.files,
                seg_ids@,
                snapshot_txn,
            ),
    {
        let mut results: OrdMap<String, Vec<DeltaCell>> = OrdMap::new();
        let mut i: usize = 0;
        let ghost cells_of = |v: Vec<DeltaCell>| cell_views(v@);
        proof {
            assert(seg_ids@.take(0) =~= Seq::empty());
            assert(results@.map_values(cells_of) =~= Map::empty());
        }
        while i < seg_ids.len()
            invariant
                self.wf(),
                results.wf(),
                i <= seg_ids@.len(),
                cells_of == (|v: Vec<DeltaCell>| cell_views(v@)),
                results@.map_values(cells_of) == gather_batch(
                    self.guard_list(),
                    self@.files,
                    seg_ids@.take(i as int),
                    snapshot_txn,
                ),
            decreases seg_ids@.len() - i,
        {
            let seg: &String = &seg_ids[i];
            let (mut more, _err) = self.gather_segment(seg.as_str(), snapshot_txn);
            let ghost before = results@;
            let mut held = match results.remove(seg) {
                Some(v) => v,
                None => Vec::new(),
            };
            proof {
                assert(seg_ids@.take(i + 1).drop_last() =~= seg_ids@.take(i as int));
                assert(cell_views(held@ + more@) =~= cell_views(held@) + cell_views(more@));
                if !before.dom().contains(seg@) {
                    assert(cell_views(held@) =~= Seq::empty());
                }
            }
            held.append(&mut more);
            let ghost joined_cells = held;
            let _ = results.insert(seg.clone(), held);
            assert(results@.map_values(cells_of) =~= before.map_values(cells_of).insert(
                seg@,
                cell_views(joined_cells@),
            ));
            i = i + 1;
        }
        assert(seg_ids@.take(i as int) =~= seg_ids@);
        results
    }

    /// Reads the cells of a column of a segment and remembers the first error.
    fn gather_column(&self, seg_id: &str, column: &str, snapshot_txn: u64) -> (r: (
        Vec<DeltaCell>,
        Option<RockDuckError>,
    ))
        requires
            self.wf(),
        ensures
            gather(column_guards(self.guard_list(), column@), self@.files, seg_id@, snapshot_txn) == (
                cell_views(r.0@),
                r.1,
            ),
    {
        let mut cells: Vec<DeltaCell> = Vec::new();
        let mut err: Option<RockDuckError> = None;
        let mut i: usize = 0;
        let ghost list = self.guard_list();
        proof {
            assert(list.take(0) =~= Seq::empty());
            assert(cell_views(cells@) =~= Seq::empty());
        }
        while i < self.guards.len()
            invariant
                self.wf(),
                list == self.guard_list(),
                i <= list.len() == self.guards.keys().len(),
                gather(
                    column_guards(list.take(i as int), column@),
                    self@.files,
                    seg_id@,
                    snapshot_txn,
                ) == (cell_views(cells@), err),
            decreases list.len() - i,
        {
            let guard = self.guards.value_at(i);
            let ghost front = column_guards(list.take(i as int), column@);
            proof {
                assert(list[i as int] == guard@);
                assert(list.take(i + 1).drop_last() =~= list.take(i as int));
                assert(front.push(guard@).drop_last() =~= front);
            }
            if text_same(guard.key.col.as_str(), column) && text_same(guard.key.seg_id.as_str(), seg_id) {
                match self.load_patches_from_guard(guard, snapshot_txn) {
                    Ok(mut more) => {
                        assert(cell_views(cells@ + more@) =~= cell_views(cells@) + cell_views(
                            more@,
                        ));
                        cells.append(&mut more);
                    },
                    Err(e) => {
                        if err.is_none() {
                            err = Some(e);
                        }
                    },
                }
            }
            i = i + 1;
        }
        assert(list.take(i as int) =~= list);
        (cells, err)
    }

    /// The cell of a row and column that a snapshot sees with the highest
    /// transaction, the last of them on a tie. A damaged guard of the column is reported.
    pub fn get_cell(&self, seg_id: &str, row_offset: u64, column: &str, snapshot_txn: u64) -> (r:
        Result<Option<DeltaCell>, RockDuckError>)
        requires
            self.wf(),
        ensures
            ({
                let (cells, err) = gather(
                    column_guards(self.guard_list(), column@),
                    self@.files,
                    seg_id@,
                    snapshot_txn,
                );
                match r {
                    Ok(answer) => err is None && picks_cell(cells, row_offset, column@, answer),
                    Err(e) => err == Some(e),
                }
            }),
    {
        let (cells, err) = self.gather_column(seg_id, column, snapshot_txn);
        match err {
            Some(e) => Err(e),
            None => Ok(pick_cell(&cells, row_offset, column)),
        }
    }
}

/// The guards of a column.
pub open spec fn column_guards(guards: Seq<GuardView>, column: Seq<char>) -> Seq<GuardView>
    decreases guards.len(),
{
    if guards.len() == 0 {
        Seq::empty()
    } else {
        let front = column_guards(guards.drop_last(), column);
        if guards.last().key.col == column {
            front.push(guards.last())
        } else {
            front
        }
    }
}

/// Rows of one column that a merge keeps.
#[derive(Debug)]
pub struct ColumnMergePlan {
    pub col: String,
    /// Kept rows, in ascending order.
    pub kept_rows: Vec<u64>,
    pub output_format: DeltaPatchFormat,
}

/// What a merge of a guard is to do.
#[derive(Debug)]
pub struct MergePlan {
    /// The guard to be merged.
    pub guard_key: GuardKey,
    /// The patches to be merged.
    pub patches: Vec<MergePatchRef>,
    pub column_plans: Vec<ColumnMergePlan>,
    /// First and last transaction of the merged patch.
    pub output_txn_range: (u64, u64),
}

/// One of the patches has a value for a row.
pub open spec fn any_covers(patches: Seq<PatchRefView>, row: u64) -> bool {
    exists|i: int| 0 <= i < patches.len() && covers(#[trigger] patches[i].format, row)
}

/// The least first and the greatest last transaction of some patches.
pub open spec fn spans(patches: Seq<PatchRefView>, range: (u64, u64)) -> bool {
    &&& forall|i: int|
        #![trigger patches[i]]
        0 <= i < patches.len() ==> range.0 <= patches[i].txn_range.0 && patches[i].txn_range.1
            <= range.1
    &&& exists|i: int| 0 <= i < patches.len() && (#[trigger] patches[i]).txn_range.0 == range.0
    &&& exists|i: int| 0 <= i < patches.len() && (#[trigger] patches[i]).txn_range.1 == range.1
}

/// `plan` merges `patches`: it keeps, in ascending order, every row that one of
/// them has a value for.
pub open spec fn plans_merge(
    plan: MergePlan,
    key: GuardKeyView,
    guard: GuardView,
    patches: Seq<PatchRefView>,
) -> bool {
    &&& plan.guard_key@ == key
    &&& patch_views(plan.patches@) == patches
    &&& spans(patches, plan.output_txn_range)
    &&& if exists|row: u64| any_covers(patches, row) {
        plan.column_plans@.len() == 1 && {
            let c = plan.column_plans@[0];
            &&& c.col@ == guard.key.col
            &&& c.output_format@ == (FormatView::Dense {
                values: Seq::empty(),
                total_rows: 0,
                txn_id: 0,
            })
            &&& forall|i: int, j: int|
                #![auto]
                0 <= i < j < c.kept_rows@.len() ==> c.kept_rows@[i] < c.kept_rows@[j]
            &&& forall|row: u64| #[trigger] c.kept_rows@.contains(row) <==> any_covers(patches, row)
        }
    } else {
        plan.column_plans@.len() == 0
    }
}

impl DeltaL2Disk {
    /// Reads every patch of a guard; a guard without a file has none.
    pub fn read_all_patches(&self, guard: &Guard) -> (r: Result<Vec<MergePatchRef>, RockDuckError>)
        requires
            self.wf(),
        ensures
            match r {
                Ok(p) => patches_of(guard@, self@.files) == Ok::<Seq<PatchRefView>, RockDuckError>(
                    patch_views(p@),
                ),
                Err(e) => patches_of(guard@, self@.files) == Err::<
                    Seq<PatchRefView>,
                    RockDuckError,
                >(e),
            },
    {
        match self.file(&guard.file_path) {
            None => {
                let none: Vec<MergePatchRef> = Vec::new();
                assert(patch_views(none@) =~= Seq::empty());
                Ok(none)
            },
            Some(file) => read_patch_file(&guard.key, &guard.file_path, file.as_slice()),
        }
    }

    /// Reads every patch of the guard with a key; without such a guard there is
    /// none.
    pub fn read_all_patches_from_guard(&self, guard_key: &GuardKey) -> (r: Result<
        Vec<MergePatchRef>,
        RockDuckError,
    >)
        requires
            self.wf(),
        ensures
            match r {
                Ok(p) => patches_under(self@, guard_key@) == Ok::<
                    Seq<PatchRefView>,
                    RockDuckError,
                >(patch_views(p@)),
                Err(e) => patches_under(self@, guard_key@) == Err::<
                    Seq<PatchRefView>,
                    RockDuckError,
                >(e),
            },
    {
        let index = guard_key.index();
        match self.guards.get(&index) {
            None => {
                let none: Vec<MergePatchRef> = Vec::new();
                assert(patch_views(none@) =~= Seq::empty());
                Ok(none)
            },
            Some(g) => {
                let guard = Guard::new(guard_key.clone(), g.file_path.clone());
                self.read_all_patches(&guard)
            },
        }
    }

    /// Plans the merge of a guard: `None` when there is no such guard or it has
    /// no patches.
    pub fn generate_merge_plan(&self, guard_key: &GuardKey) -> (r: Result<
        Option<MergePlan>,
        RockDuckError,
    >)
        requires
            self.wf(),
        ensures
            ({
                let index = guard_key@.index();
                if self@.guards.dom().contains(index) {
                    let guard = self@.guards[index];
                    match patches_of(guard, self@.files) {
                        Err(e) => r == Err::<Option<MergePlan>, RockDuckError>(e),
                        Ok(patches) => match r {
                            Ok(Some(plan)) => patches.len() > 0 && plans_merge(
                                plan,
                                guard_key@,
                                guard,
                                patches,
                            ),
                            Ok(None) => patches.len() == 0,
                            Err(_) => false,
                        },
                    }
                } else {
                    r == Ok::<Option<MergePlan>, RockDuckError>(None)
                }
            }),
    {
        let index = guard_key.index();
        let guard = match self.guards.get(&index) {
            Some(g) => g,
            None => return Ok(None),
        };
        let patches = match self.read_all_patches(guard) {
            Ok(p) => p,
            Err(e) => return Err(e),
        };
        let ghost views = patch_views(patches@);
        if patches.len() == 0 {
            return Ok(None);
        }
        let mut min_txn: u64 = patches[0].txn_range.0;
        let mut max_txn: u64 = patches[0].txn_range.1;
        let mut rows: OrdMap<u64, ()> = OrdMap::new();
        let mut i: usize = 0;
        proof {
            assert(views[0] == patches@[0]@);
            assert(views[0].txn_range.0 == min_txn && views[0].txn_range.1 == max_txn);
        }
        while i < patches.len()
            invariant
                i <= patches@.len(),
                0 < patches@.len(),
                views == patch_views(patches@),
                rows.wf(),
                forall|j: int|
                    #![trigger views[j]]
                    0 <= j < i ==> min_txn <= views[j].txn_range.0 && views[j].txn_range.1
                        <= max_txn,
                exists|j: int| 0 <= j < views.len() && (#[trigger] views[j]).txn_range.0 == min_txn,
                exists|j: int| 0 <= j < views.len() && (#[trigger] views[j]).txn_range.1 == max_txn,
                forall|row: u64| #[trigger]
                    rows@.dom().contains(row) <==> any_covers(views.take(i as int), row),
            decreases patches@.len() - i,
        {
            let patch: &MergePatchRef = &patches[i];
            assert(views[i as int] == patch@);
            if patch.txn_range.0 < min_txn {
                min_txn = patch.txn_range.0;
            }
            if patch.txn_range.1 > max_txn {
                max_txn = patch.txn_range.1;
            }
            let positions = patch_row_positions(&patch.format);
            let ghost before = rows@.dom();
            let mut j: usize = 0;
            while j < positions.len()
                invariant
                    j <= positions@.len(),
                    rows.wf(),
                    forall|row: u64| #[trigger]
                        rows@.dom().contains(row) <==> before.contains(row)
                            || positions@.take(j as int).contains(row),
                decreases positions@.len() - j,
            {
                let _ = rows.insert(positions[j], ());
                proof {
                    let now = positions@.take(j as int);
                    let next = positions@.take(j + 1);
                    assert(next =~= now.push(positions@[j as int]));
                    assert forall|row: u64| #[trigger] rows@.dom().contains(row) <==> before.contains(
                        row,
                    ) || next.contains(row) by {
                        if now.contains(row) {
                            assert(next[now.index_of(row)] == row);
                        }
                        if next.contains(row) && row != positions@[j as int] {
                            let k = next.index_of(row);
                            assert(now[k] == row);
                        }
                        if row == positions@[j as int] {
                            assert(next[j as int] == row);
                        }
                    }
                }
                j = j + 1;
            }
            proof {
                assert(positions@.take(j as int) =~= positions@);
                let now = views.take(i as int);
                let next = views.take(i + 1);
                assert forall|row: u64| #[trigger] rows@.dom().contains(row) <==> any_covers(
                    next,
                    row,
                ) by {
                    if any_covers(now, row) {
                        let k = choose|k: int|
                            0 <= k < now.len() && covers(#[trigger] now[k].format, row);
                        assert(next[k] == now[k]);
                    }
                    if positions@.contains(row) {
                        assert(covers(next[i as int].format, row));
                    }
                    if any_covers(next, row) {
                        let k = choose|k: int|
                            0 <= k < next.len() && covers(#[trigger] next[k].format, row);
                        if k < i {
                            assert(now[k] == next[k]);
                        } else {
                            assert(positions@.contains(row));
                        }
                    }
                }
            }
            i = i + 1;
        }
        assert(views.take(i as int) =~= views);
        let mut kept_rows: Vec<u64> = Vec::new();
        let mut k: usize = 0;
        while k < rows.len()
            invariant
                k <= rows.keys().len(),
                kept_rows@ == rows.keys().take(k as int),
            decreases rows.keys().len() - k,
        {
            kept_rows.push(*rows.key_at(k));
            k = k + 1;
            assert(kept_rows@ =~= rows.keys().take(k as int));
        }
        proof {
            assert(kept_rows@ =~= rows.keys());
            assert forall|row: u64| #[trigger] kept_rows@.contains(row) <==> any_covers(
                views,
                row,
            ) by {
                if kept_rows@.contains(row) {
                    rows.lemma_index(kept_rows@.index_of(row));
                }
                if any_covers(views, row) {
                    assert(rows@.dom().contains(row));
                    let at = rows.lemma_key(row);
                    assert(kept_rows@[at] == row);
                }
            }
            assert forall|a: int, b: int|
                #![auto]
                0 <= a < b < kept_rows@.len() implies kept_rows@[a] < kept_rows@[b] by {
                assert(<u64 as OrdKey>::before(rows.keys()[a], rows.keys()[b]));
            }
        }
        let mut column_plans: Vec<ColumnMergePlan> = Vec::new();
        if kept_rows.len() > 0 {
            assert(kept_rows@.contains(kept_rows@[0]));
            let values: Vec<u8> = Vec::new();
            let output_format = DeltaPatchFormat::dense(values, 0, 0);
            assert(values@ =~= Seq::empty());
            column_plans.push(
                ColumnMergePlan { col: guard.key.col.clone(), kept_rows, output_format },
            );
        } else {
            assert forall|row: u64| !any_covers(views, row) by {
                assert(!kept_rows@.contains(row));
            }
        }
        Ok(
            Some(
                MergePlan {
                    guard_key: guard_key.clone(),
                    patches,
                    column_plans,
                    output_txn_range: (min_txn, max_txn),
                },
            ),
        )
    }
}

/// The patches of a guard.
pub open spec fn patches_of(g: GuardView, files: Map<Seq<char>, Seq<u8>>) -> Result<
    Seq<PatchRefView>,
    RockDuckError,
> {
    if files.dom().contains(g.file_path) {
        guard_patches(g.key, g.file_path, files[g.file_path])
    } else {
        Ok(Seq::empty())
    }
}

/// The patches of the guard with a key, named by that key.
pub open spec fn patches_under(d: DiskView, key: GuardKeyView) -> Result<
    Seq<PatchRefView>,
    RockDuckError,
> {
    if d.guards.dom().contains(key.index()) {
        patches_of(fresh_guard(key, d.guards[key.index()].file_path), d.files)
    } else {
        Ok(Seq::empty())
    }
}

/// The patch at `a` comes before the one at `b` when the newest come first.
pub open spec fn newer(patches: Seq<PatchRefView>, a: int, b: int) -> bool {
    ||| patches[a].txn_range.1 > patches[b].txn_range.1
    ||| patches[a].txn_range.1 == patches[b].txn_range.1 && a < b
}

/// `order` lists the positions of all patches, the newest first.
pub open spec fn is_newest_first(order: Seq<usize>, patches: Seq<PatchRefView>) -> bool {
    &&& order.len() == patches.len()
    &&& forall|a: int| #![trigger order[a]] 0 <= a < order.len() ==> order[a] < patches.len()
    &&& forall|a: int, b: int|
        #![trigger order[a], order[b]]
        0 <= a < b < order.len() ==> newer(patches, order[a] as int, order[b] as int)
}

fn newest_first(patches: &Vec<MergePatchRef>) -> (order: Vec<usize>)
    ensures
        is_newest_first(order@, patch_views(patches@)),
{
    let mut order: Vec<usize> = Vec::new();
    let ghost views = patch_views(patches@);
    let mut i: usize = 0;
    while i < patches.len()
        invariant
            i <= patches@.len(),
            views == patch_views(patches@),
            order@.len() == i,
            forall|a: int| #![trigger order@[a]] 0 <= a < order@.len() ==> order@[a] < i,
            forall|a: int, b: int|
                #![trigger order@[a], order@[b]]
                0 <= a < b < order@.len() ==> newer(views, order@[a] as int, order@[b] as int),
        decreases patches@.len() - i,
    {
        let mut at: usize = order.len();
        while at > 0 && patches[order[at - 1]].txn_range.1 < patches[i].txn_range.1
            invariant
                at <= order@.len() == i,
                i < patches@.len(),
                views == patch_views(patches@),
                forall|a: int| #![trigger order@[a]] 0 <= a < order@.len() ==> order@[a] < i,
                forall|a: int|
                    #![trigger order@[a]]
                    at <= a < order@.len() ==> newer(views, i as int, order@[a] as int),
            decreases at,
        {
            at = at - 1;
            assert(views[order@[at as int] as int] == patches@[order@[at as int] as int]@);
            assert(views[i as int] == patches@[i as int]@);
        }
        let ghost prev = order@;
        proof {
            assert(views[i as int] == patches@[i as int]@);
            assert forall|a: int| #![trigger prev[a]] 0 <= a < at implies newer(
                views,
                prev[a] as int,
                i as int,
            ) by {
                let last = prev[at - 1] as int;
                assert(views[last] == patches@[last]@);
                if a < at - 1 {
                    assert(newer(views, prev[a] as int, last));
                }
            }
        }
        order.insert(at, i);
        proof {
            assert forall|a: int, b: int|
                #![trigger order@[a], order@[b]]
                0 <= a < b < order@.len() implies newer(
                views,
                order@[a] as int,
                order@[b] as int,
            ) by {
                let a1 = if a < at {
                    a
                } else {
                    a - 1
                };
                let b1 = if b < at {
                    b
                } else {
                    b - 1
                };
                if a != at && b != at {
                    assert(order@[a] == prev[a1] && order@[b] == prev[b1]);
                    assert(newer(views, prev[a1] as int, prev[b1] as int));
                } else if a == at {
                    assert(order@[b] == prev[b1]);
                } else {
                    assert(order@[a] == prev[a1]);
                }
            }
        }
        i = i + 1;
    }
    order
}

/// The value of a row: that of the newest patch of the column that has one.
pub open spec fn newest_value(
    patches: Seq<PatchRefView>,
    order: Seq<usize>,
    col: Seq<char>,
    row: u64,
    from: nat,
) -> Result<Option<Seq<u8>>, RockDuckError>
    decreases order.len() - from,
{
    if from >= order.len() {
        Ok(None)
    } else {
        let p = patches[order[from as int] as int];
        if p.col == col {
            match patch_value(p.format, row) {
                Err(e) => Err(e),
                Ok(Some(v)) => Ok(Some(v)),
                Ok(None) => newest_value(patches, order, col, row, from + 1),
            }
        } else {
            newest_value(patches, order, col, row, from + 1)
        }
    }
}

/// The values of rows, no bytes where no patch has one.
pub open spec fn newest_values(
    patches: Seq<PatchRefView>,
    order: Seq<usize>,
    col: Seq<char>,
    rows: Seq<u64>,
) -> Result<Seq<Option<Seq<u8>>>, RockDuckError>
    decreases rows.len(),
{
    if rows.len() == 0 {
        Ok(Seq::empty())
    } else {
        match newest_values(patches, order, col, rows.drop_last()) {
            Err(e) => Err(e),
            Ok(values) => match newest_value(patches, order, col, rows.last(), 0) {
                Err(e) => Err(e),
                Ok(Some(v)) => Ok(values.push(Some(v))),
                Ok(None) => Ok(values.push(Some(Seq::empty()))),
            },
        }
    }
}

/// The greatest patch number.
pub open spec fn max_patch_id(patches: Seq<PatchRefView>) -> u64
    decreases patches.len(),
{
    if patches.len() == 0 {
        0
    } else {
        let rest = max_patch_id(patches.drop_last());
        if patches.last().patch_id > rest {
            patches.last().patch_id
        } else {
            rest
        }
    }
}

/// The rows as a bitmap holds them.
pub open spec fn row_set(rows: Seq<u64>) -> Set<u32> {
    rows.map_values(|r: u64| r as u32).to_set()
}

/// `bytes` is a patch file with one sparse patch that has, for each kept row,
/// the newest value.
pub open spec fn is_merged_file(
    bytes: Seq<u8>,
    patches: Seq<PatchRefView>,
    order: Seq<usize>,
    txn_range: (u64, u64),
    col: Seq<char>,
    rows: Seq<u64>,
) -> bool {
    exists|positions: Seq<u8>, values: Seq<u8>|
        bytes == file_header() + record_bytes(
            max_patch_id(patches),
            txn_range,
            0,
            rows.len(),
            patch_payload(#[trigger] patch_of(positions, values, rows.len())),
        ) && portable_rows(positions) == row_set(rows) && (newest_values(patches, order, col, rows)
            matches Ok(cells) && ipc_column(values) == Some((rows.len(), Some(cells))))
}

/// A sparse patch.
pub open spec fn patch_of(positions: Seq<u8>, values: Seq<u8>, affected_count: nat) -> FormatView {
    FormatView::Sparse { positions, values, affected_count }
}

/// The key under which a merge files the patch of one column.
pub open spec fn merged_key(plan: MergePlan, col: Seq<char>) -> GuardKeyView {
    GuardKeyView {
        seg_id: plan.guard_key@.seg_id,
        col,
        start_row: plan.guard_key@.start_row,
        end_row: plan.guard_key@.end_row,
    }
}

/// How the merge of one column can fail.
pub open spec fn column_fails(
    patches: Seq<PatchRefView>,
    order: Seq<usize>,
    c: ColumnMergePlan,
    e: RockDuckError,
) -> bool {
    match newest_values(patches, order, c.col@, c.kept_rows@) {
        Err(x) => e == x,
        Ok(cells) => cells_size(cells) > i32::MAX && e == RockDuckError::TooLarge,
    }
}

/// The statistics of a patch that a merge wrote.
pub open spec fn merged_zone(txn_range: (u64, u64), rows: nat) -> ZoneMap {
    ZoneMap {
        min_txn: txn_range.0,
        max_txn: txn_range.1,
        affected_rows: rows as u64,
        min_value: None,
        max_value: None,
    }
}

/// A guard whose one patch a merge wrote.
pub open spec fn merged_guard(key: GuardKeyView, path: Seq<char>, txn_range: (u64, u64), rows: nat) -> GuardView {
    GuardView {
        key,
        file_path: path,
        zone_map: zone_with(empty_zone(), merged_zone(txn_range, rows), 1),
        patch_count: 0,
    }
}

/// One column was merged: its file was replaced by the merged patch, and its
/// guard, to which nothing was appended yet, has the statistics of that patch. A
/// column without kept rows is left alone.
pub open spec fn column_merged(
    before: DiskView,
    after: DiskView,
    root: Seq<char>,
    plan: MergePlan,
    order: Seq<usize>,
    c: ColumnMergePlan,
) -> bool {
    let key = merged_key(plan, c.col@);
    let path = guard_file_path(root, key);
    if c.kept_rows@.len() == 0 {
        after == before
    } else {
        &&& after.guards == before.guards.insert(
            key.index(),
            merged_guard(key, path, plan.output_txn_range, c.kept_rows@.len()),
        )
        &&& after.files.dom().contains(path)
        &&& after.files == before.files.insert(path, after.files[path])
        &&& is_merged_file(
            after.files[path],
            patch_views(plan.patches@),
            order,
            plan.output_txn_range,
            c.col@,
            c.kept_rows@,
        )
    }
}

/// `states` are the states of the store while the first columns of a plan are
/// merged.
pub open spec fn columns_merged(
    states: Seq<DiskView>,
    root: Seq<char>,
    plan: MergePlan,
    order: Seq<usize>,
) -> bool {
    &&& 0 < states.len() <= plan.column_plans@.len() + 1
    &&& forall|i: int|
        #![trigger states[i]]
        0 < i < states.len() ==> column_merged(
            states[i - 1],
            states[i],
            root,
            plan,
            order,
            plan.column_plans@[i - 1],
        )
}

/// One column more is merged.
proof fn lemma_column_merged(
    states: Seq<DiskView>,
    after: DiskView,
    root: Seq<char>,
    plan: MergePlan,
    order: Seq<usize>,
)
    requires
        columns_merged(states, root, plan, order),
        states.len() <= plan.column_plans@.len(),
        column_merged(states.last(), after, root, plan, order, plan.column_plans@[states.len() - 1]),
    ensures
        columns_merged(states.push(after), root, plan, order),
{
    let next = states.push(after);
    assert forall|k: int| #![trigger next[k]] 0 < k < next.len() implies column_merged(
        next[k - 1],
        next[k],
        root,
        plan,
        order,
        plan.column_plans@[k - 1],
    ) by {
        if k < states.len() {
            assert(next[k] == states[k] && next[k - 1] == states[k - 1]);
        } else {
            assert(next[k - 1] == states.last());
        }
    }
}

/// Whether a path is that of a merged file of a plan.
pub open spec fn is_merged_path(plan: MergePlan, root: Seq<char>, path: Seq<char>) -> bool {
    exists|i: int|
        0 <= i < plan.column_plans@.len() && guard_file_path(
            root,
            merged_key(plan, (#[trigger] plan.column_plans@[i]).col@),
        ) == path
}

/// Whether a key is that of a merged guard of a plan.
pub open spec fn is_merged_index(plan: MergePlan, index: (Seq<char>, Seq<char>, u64)) -> bool {
    exists|i: int|
        0 <= i < plan.column_plans@.len() && merged_key(
            plan,
            (#[trigger] plan.column_plans@[i]).col@,
        ).index() == index
}

/// The paths that a merge leaves behind: the files of the merged patches and
/// their statistics, unless a merged file took their place.
pub open spec fn stale_path(plan: MergePlan, root: Seq<char>, path: Seq<char>) -> bool {
    !is_merged_path(plan, root, path) && exists|i: int|
        0 <= i < plan.patches@.len() && ((#[trigger] plan.patches@[i]).file_path@ == path
            || plan.patches@[i].file_path@ + ".zm"@ == path)
}

/// The guards that a merge leaves behind.
pub open spec fn stale_index(plan: MergePlan, index: (Seq<char>, Seq<char>, u64)) -> bool {
    !is_merged_index(plan, index) && exists|i: int|
        0 <= i < plan.patches@.len() && patch_index((#[trigger] plan.patches@[i])@) == index
}

/// The guard that a patch was read from.
pub open spec fn patch_index(p: PatchRefView) -> (Seq<char>, Seq<char>, u64) {
    (p.seg_id, p.col, p.dedup_key.0)
}

/// The store without some guards and files.
pub open spec fn without(
    d: DiskView,
    indexes: Set<(Seq<char>, Seq<char>, u64)>,
    paths: Set<Seq<char>>,
) -> DiskView {
    DiskView { guards: d.guards.remove_keys(indexes), files: d.files.remove_keys(paths) }
}

impl DeltaL2Disk {
    /// Removes guards and files; keys and paths that are not there are passed
    /// over.
    pub fn cleanup_guard_patches(&mut self, old_guard_keys: &Vec<GuardKey>, old_file_paths: &Vec<String>)
        requires
            old(self).wf(),
        ensures
            final(self).wf(),
            final(self).root() == old(self).root(),
            final(self).threshold() == old(self).threshold(),
            final(self).in_background() == old(self).in_background(),
            final(self)@ == without(
                old(self)@,
                Set::new(|x: (Seq<char>, Seq<char>, u64)| lists_index(old_guard_keys@, x)),
                Set::new(|x: Seq<char>| lists_text(old_file_paths@, x)),
            ),
    {
        let ghost start = self@;
        let ghost keys = old_guard_keys@;
        let ghost paths = old_file_paths@;
        let mut i: usize = 0;
        while i < old_file_paths.len()
            invariant
                self.wf(),
                i <= paths.len(),
                paths == old_file_paths@,
                self.root() == old(self).root(),
                self.threshold() == old(self).threshold(),
                self.in_background() == old(self).in_background(),
                self@.guards == start.guards,
                self@.files =~= start.files.remove_keys(
                    Set::new(|x: Seq<char>| lists_text(paths.take(i as int), x)),
                ),
            decreases paths.len() - i,
        {
            let ghost before = self@.files;
            let _ = self.files.remove(&old_file_paths[i]);
            proof {
                let now = paths.take(i as int);
                let next = paths.take(i + 1);
                assert forall|x: Seq<char>| #[trigger] lists_text(next, x) <==> lists_text(now, x)
                    || paths[i as int]@ == x by {
                    if lists_text(now, x) {
                        let k = choose|k: int| 0 <= k < now.len() && (#[trigger] now[k])@ == x;
                        assert(next[k]@ == x);
                    }
                    if paths[i as int]@ == x {
                        assert(next[i as int]@ == x);
                    }
                    if lists_text(next, x) {
                        let k = choose|k: int| 0 <= k < next.len() && (#[trigger] next[k])@ == x;
                        if k < i {
                            assert(now[k]@ == x);
                        }
                    }
                }
                assert(self@.files =~= before.remove(paths[i as int]@));
            }
            i = i + 1;
        }
        assert(paths.take(i as int) =~= paths);
        let ghost files = self@.files;
        let mut j: usize = 0;
        while j < old_guard_keys.len()
            invariant
                self.wf(),
                j <= keys.len(),
                keys == old_guard_keys@,
                self.root() == old(self).root(),
                self.threshold() == old(self).threshold(),
                self.in_background() == old(self).in_background(),
                self@.files == files,
                self@.guards =~= start.guards.remove_keys(
                    Set::new(
                        |x: (Seq<char>, Seq<char>, u64)|
                            exists|i: int|
                                0 <= i < j && (#[trigger] keys[i])@.index() == x,
                    ),
                ),
            decreases keys.len() - j,
        {
            let index = old_guard_keys[j].index();
            let ghost before = self@.guards;
            let _ = self.guards.remove(&index);
            proof {
                assert(self@.guards =~= before.remove(keys[j as int]@.index()));
                let next = Set::new(
                    |x: (Seq<char>, Seq<char>, u64)|
                        exists|i: int| 0 <= i < j + 1 && (#[trigger] keys[i])@.index() == x,
                );
                let now = Set::new(
                    |x: (Seq<char>, Seq<char>, u64)|
                        exists|i: int| 0 <= i < j && (#[trigger] keys[i])@.index() == x,
                );
                assert(next =~= now.insert(keys[j as int]@.index()));
            }
            j = j + 1;
        }
        proof {
            let listed = Set::new(|x: (Seq<char>, Seq<char>, u64)| lists_index(keys, x));
            let seen = Set::new(
                |x: (Seq<char>, Seq<char>, u64)|
                    exists|i: int| 0 <= i < keys.len() && (#[trigger] keys[i])@.index() == x,
            );
            assert(listed =~= seen);
        }
    }

    /// Merges one column of a plan.
    fn merge_column(
        &mut self,
        plan: &MergePlan,
        c: &ColumnMergePlan,
        order: &Vec<usize>,
        caches: &mut Vec<Option<IpcColumn>>,
    ) -> (r: Result<(), RockDuckError>)
        requires
            old(self).wf(),
            is_newest_first(order@, patch_views(plan.patches@)),
            caches_fit(old(caches)@, patch_views(plan.patches@)),
        ensures
            final(self).wf(),
            final(self).root() == old(self).root(),
            final(self).threshold() == old(self).threshold(),
            final(self).in_background() == old(self).in_background(),
            caches_fit(final(caches)@, patch_views(plan.patches@)),
            match r {
                Ok(_) => column_merged(old(self)@, final(self)@, old(self).root(), *plan, order@, *c),
                Err(e) => final(self)@ == old(self)@ && c.kept_rows@.len() > 0 && column_fails(
                    patch_views(plan.patches@),
                    order@,
                    *c,
                    e,
                ),
            },
    {
        if c.kept_rows.len() == 0 {
            return Ok(());
        }
        let ghost patches = patch_views(plan.patches@);
        let ghost rows = c.kept_rows@;
        let (values, bitmap) = match column_values(plan, c, order, caches) {
            Ok(v) => v,
            Err(e) => return Err(e),
        };
        let encoded = match encode_arrow_array(&values) {
            Ok(b) => b,
            Err(e) => return Err(e),
        };
        let positions = bitmap_serialize(&bitmap);
        let compacted = DeltaPatchFormat::Sparse {
            positions: std::sync::Arc::new(positions),
            values: std::sync::Arc::new(encoded),
            affected_count: c.kept_rows.len() as u64,
        };
        assert(compacted@ == patch_of(positions@, encoded@, rows.len()));
        let payload = compacted.to_bytes();
        let patch_id: u64 = greatest_patch_id(&plan.patches);
        let key = GuardKey {
            seg_id: plan.guard_key.seg_id.clone(),
            col: c.col.clone(),
            start_row: plan.guard_key.start_row,
            end_row: plan.guard_key.end_row,
        };
        let path = self.guard_path(&key);
        let mut file = new_file();
        append_record(
            &mut file,
            patch_id,
            plan.output_txn_range,
            0,
            c.kept_rows.len() as u64,
            payload.as_slice(),
        );
        let index = key.index();
        let ghost key_view = key@;
        let mut guard = Guard::new(key, path.clone());
        let zone = ZoneMap {
            min_txn: plan.output_txn_range.0,
            max_txn: plan.output_txn_range.1,
            affected_rows: c.kept_rows.len() as u64,
            min_value: None,
            max_value: None,
        };
        guard.zone_map.update(&zone, 1);
        let ghost guard_view = guard@;
        let ghost bytes = file@;
        let ghost start = self@;
        let _ = self.files.insert(path, file);
        let _ = self.guards.insert(index, guard);
        proof {
            assert(self@.files =~= start.files.insert(path@, bytes));
            assert(self@.guards =~= start.guards.insert(key_view.index(), guard_view));
            assert(patch_of(positions@, encoded@, rows.len()) == compacted@);
        }
        Ok(())
    }
}

fn greatest_patch_id(patches: &Vec<MergePatchRef>) -> (r: u64)
    ensures
        r == max_patch_id(patch_views(patches@)),
{
    let ghost views = patch_views(patches@);
    let mut r: u64 = 0;
    let mut p: usize = 0;
    assert(views.take(0) =~= Seq::empty());
    while p < patches.len()
        invariant
            p <= patches@.len(),
            views == patch_views(patches@),
            r == max_patch_id(views.take(p as int)),
        decreases patches@.len() - p,
    {
        assert(views.take(p + 1).drop_last() =~= views.take(p as int));
        assert(views[p as int] == patches@[p as int]@);
        if patches[p].patch_id > r {
            r = patches[p].patch_id;
        }
        p = p + 1;
    }
    assert(views.take(p as int) =~= views);
    r
}

/// The value of a row: that of the newest patch of the column that has one.
fn row_value(
    patches: &Vec<MergePatchRef>,
    order: &Vec<usize>,
    col: &String,
    row: u64,
    caches: &mut Vec<Option<IpcColumn>>,
) -> (r: Result<Option<Vec<u8>>, RockDuckError>)
    requires
        is_newest_first(order@, patch_views(patches@)),
        caches_fit(old(caches)@, patch_views(patches@)),
    ensures
        caches_fit(final(caches)@, patch_views(patches@)),
        match r {
            Ok(v) => newest_value(patch_views(patches@), order@, col@, row, 0) == Ok::<
                Option<Seq<u8>>,
                RockDuckError,
            >(cell_view(v)),
            Err(e) => newest_value(patch_views(patches@), order@, col@, row, 0) == Err::<
                Option<Seq<u8>>,
                RockDuckError,
            >(e),
        },
{
    let ghost views = patch_views(patches@);
    let ghost want = newest_value(views, order@, col@, row, 0);
    let mut k: usize = 0;
    while k < order.len()
        invariant
            k <= order@.len(),
            views == patch_views(patches@),
            is_newest_first(order@, views),
            caches_fit(caches@, views),
            want == newest_value(views, order@, col@, row, 0),
            want == newest_value(views, order@, col@, row, k as nat),
        decreases order@.len() - k,
    {
        let at: usize = order[k];
        let patch: &MergePatchRef = &patches[at];
        assert(views[at as int] == patch@);
        if text_same(patch.col.as_str(), col.as_str()) {
            let slot: &mut Option<IpcColumn> = &mut caches[at];
            match read_patch_value_cached(&patch.format, row, slot) {
                Ok(Some(v)) => return Ok(Some(v)),
                Ok(None) => {},
                Err(e) => return Err(e),
            }
        }
        k = k + 1;
    }
    Ok(None)
}

/// The values of the kept rows of a column, and the rows as a bitmap.
fn column_values(
    plan: &MergePlan,
    c: &ColumnMergePlan,
    order: &Vec<usize>,
    caches: &mut Vec<Option<IpcColumn>>,
) -> (r: Result<(Vec<Option<Vec<u8>>>, croaring::Bitmap), RockDuckError>)
    requires
        is_newest_first(order@, patch_views(plan.patches@)),
        caches_fit(old(caches)@, patch_views(plan.patches@)),
    ensures
        caches_fit(final(caches)@, patch_views(plan.patches@)),
        match r {
            Ok((values, bitmap)) => newest_values(
                patch_views(plan.patches@),
                order@,
                c.col@,
                c.kept_rows@,
            ) == Ok::<Seq<Option<Seq<u8>>>, RockDuckError>(cells_view(values@)) && bitmap_rows(
                bitmap,
            ) == row_set(c.kept_rows@) && values@.len() == c.kept_rows@.len(),
            Err(e) => newest_values(patch_views(plan.patches@), order@, c.col@, c.kept_rows@)
                == Err::<Seq<Option<Seq<u8>>>, RockDuckError>(e),
        },
{
    let ghost patches = patch_views(plan.patches@);
    let ghost rows = c.kept_rows@;
    let mut values: Vec<Option<Vec<u8>>> = Vec::new();
    let mut bitmap = bitmap_new();
    let mut i: usize = 0;
    proof {
        assert(rows.take(0) =~= Seq::empty());
        assert(cells_view(values@) =~= Seq::empty());
        assert(row_set(rows.take(0)) =~= Set::empty());
    }
    while i < c.kept_rows.len()
        invariant
            i <= rows.len(),
            rows == c.kept_rows@,
            patches == patch_views(plan.patches@),
            is_newest_first(order@, patches),
            caches_fit(caches@, patches),
            values@.len() == i,
            bitmap_rows(bitmap) == row_set(rows.take(i as int)),
            newest_values(patches, order@, c.col@, rows.take(i as int)) == Ok::<
                Seq<Option<Seq<u8>>>,
                RockDuckError,
            >(cells_view(values@)),
        decreases rows.len() - i,
    {
        let row: u64 = c.kept_rows[i];
        let found = match row_value(&plan.patches, order, &c.col, row, caches) {
            Ok(v) => v,
            Err(e) => {
                proof {
                    lemma_values_fail(patches, order@, c.col@, rows, i as int);
                }
                return Err(e);
            },
        };
        let ghost prev = values@;
        let value = match found {
            Some(v) => v,
            None => Vec::new(),
        };
        proof {
            assert(rows.take(i + 1).drop_last() =~= rows.take(i as int));
            let cell = Some(value);
            assert(cells_view(prev.push(cell)) =~= cells_view(prev).push(cell_view(cell)));
            if found is None {
                assert(value@ =~= Seq::empty());
            }
            lemma_row_set_push(rows, i as int);
        }
        values.push(Some(value));
        #[verifier::truncate]
        let bit: u32 = row as u32;
        bitmap_add(&mut bitmap, bit);
        i = i + 1;
    }
    assert(rows.take(i as int) =~= rows);
    Ok((values, bitmap))
}

/// Every cached column is the one that its patch's values decode to.
pub open spec fn caches_fit(caches: Seq<Option<IpcColumn>>, patches: Seq<PatchRefView>) -> bool {
    &&& caches.len() == patches.len()
    &&& forall|i: int|
        #![trigger caches[i]]
        0 <= i < caches.len() ==> cache_fits(caches[i], patches[i].format)
}

proof fn lemma_row_set_push(rows: Seq<u64>, i: int)
    requires
        0 <= i < rows.len(),
    ensures
        row_set(rows.take(i + 1)) == row_set(rows.take(i)).insert(rows[i] as u32),
{
    let f = |r: u64| r as u32;
    let now = rows.take(i).map_values(f);
    let next = rows.take(i + 1).map_values(f);
    assert(next =~= now.push(rows[i] as u32));
    assert forall|x: u32| next.to_set().contains(x) <==> now.to_set().insert(
        rows[i] as u32,
    ).contains(x) by {
        if next.contains(x) {
            let k = next.index_of(x);
            if k < i {
                assert(now[k] == x);
            }
        }
        if now.contains(x) {
            assert(next[now.index_of(x)] == x);
        }
        if x == rows[i] as u32 {
            assert(next[i] == x);
        }
    }
    assert(next.to_set() =~= now.to_set().insert(rows[i] as u32));
}

proof fn lemma_values_fail(
    patches: Seq<PatchRefView>,
    order: Seq<usize>,
    col: Seq<char>,
    rows: Seq<u64>,
    i: int,
)
    requires
        0 <= i < rows.len(),
        newest_values(patches, order, col, rows.take(i)) is Ok,
        newest_value(patches, order, col, rows[i], 0) is Err,
    ensures
        newest_values(patches, order, col, rows) == Err::<Seq<Option<Seq<u8>>>, RockDuckError>(
            newest_value(patches, order, col, rows[i], 0)->Err_0,
        ),
    decreases rows.len(),
{
    if i == rows.len() - 1 {
        assert(rows.drop_last() =~= rows.take(i));
    } else {
        assert(rows.drop_last().take(i) =~= rows.take(i));
        lemma_values_fail(patches, order, col, rows.drop_last(), i);
    }
}

/// How a merge plan was carried out: column after column, and, once all were
/// merged, without the guards and files left behind. An error leaves the columns
/// before the failing one merged.
pub open spec fn plan_executed(
    before: DiskView,
    after: DiskView,
    root: Seq<char>,
    plan: MergePlan,
    r: Result<(), RockDuckError>,
    states: Seq<DiskView>,
    order: Seq<usize>,
) -> bool {
    let patches = patch_views(plan.patches@);
    &&& is_newest_first(order, patches)
    &&& columns_merged(states, root, plan, order)
    &&& states[0] == before
    &&& match r {
        Ok(_) => states.len() == plan.column_plans@.len() + 1 && after == without(
            states.last(),
            Set::new(|x: (Seq<char>, Seq<char>, u64)| stale_index(plan, x)),
            Set::new(|x: Seq<char>| stale_path(plan, root, x)),
        ),
        Err(e) => states.len() <= plan.column_plans@.len() && after == states.last() && {
            let c = plan.column_plans@[states.len() - 1];
            c.kept_rows@.len() > 0 && column_fails(patches, order, c, e)
        },
    }
}

/// How the merge of a guard went: nothing happens to a guard without patches,
/// and one that cannot be read is left as it is.
pub open spec fn guard_merged(
    before: DiskView,
    after: DiskView,
    root: Seq<char>,
    key: GuardKeyView,
    r: Result<(), RockDuckError>,
) -> bool {
    let patches = if before.guards.dom().contains(key.index()) {
        patches_of(before.guards[key.index()], before.files)
    } else {
        Ok(Seq::empty())
    };
    match patches {
        Err(e) => r == Err::<(), RockDuckError>(e) && after == before,
        Ok(p) => if p.len() == 0 {
            r is Ok && after == before
        } else {
            exists|plan: MergePlan, states: Seq<DiskView>, order: Seq<usize>| #[trigger]
                plan_executed(before, after, root, plan, r, states, order) && plans_merge(
                    plan,
                    key,
                    before.guards[key.index()],
                    p,
                )
        },
    }
}

impl DeltaL2Disk {
    /// The paths and keys that a merge leaves behind.
    fn stale_parts(&self, plan: &MergePlan) -> (r: (Vec<GuardKey>, Vec<String>))
        ensures
            forall|x: Seq<char>| #[trigger] lists_text(r.1@, x) <==> stale_path(*plan, self.root(), x),
            forall|x: (Seq<char>, Seq<char>, u64)|
                #![trigger stale_index(*plan, x)]
                lists_index(r.0@, x) <==> stale_index(*plan, x),
    {
        let mut keys: Vec<GuardKey> = Vec::new();
        let mut paths: Vec<String> = Vec::new();
        let ghost patches = plan.patches@;
        let mut i: usize = 0;
        while i < plan.patches.len()
            invariant
                i <= patches.len(),
                patches == plan.patches@,
                forall|x: Seq<char>| #[trigger]
                    lists_text(paths@, x) <==> !is_merged_path(*plan, self.root(), x) && exists|k: int|
                        0 <= k < i && ((#[trigger] patches[k]).file_path@ == x
                            || patches[k].file_path@ + ".zm"@ == x),
                forall|a: int|
                    #![trigger keys@[a]]
                    0 <= a < keys@.len() ==> stale_index(*plan, keys@[a]@.index()),
                forall|k: int|
                    #![trigger patches[k]]
                    0 <= k < i && !is_merged_index(*plan, patch_index(patches[k]@)) ==> exists|a: int|
                        0 <= a < keys@.len() && (#[trigger] keys@[a])@.index() == patch_index(
                            patches[k]@,
                        ),
            decreases patches.len() - i,
        {
            let patch: &MergePatchRef = &plan.patches[i];
            let ghost paths0 = paths@;
            let ghost keys0 = keys@;
            if !self.takes_path(plan, &patch.file_path) {
                paths.push(patch.file_path.clone());
            }
            let ghost paths1 = paths@;
            let mut zone_path = patch.file_path.clone();
            zone_path.append(".zm");
            if !self.takes_path(plan, &zone_path) {
                paths.push(zone_path);
            }
            let key = GuardKey {
                seg_id: patch.seg_id.clone(),
                col: patch.col.clone(),
                start_row: patch.dedup_key.0,
                end_row: patch.dedup_key.0,
            };
            assert(key@.index() == patch_index(patch@));
            if !takes_index(plan, &key) {
                assert(patch_index(patches[i as int]@) == key@.index());
                keys.push(key);
            }
            proof {
                assert forall|x: Seq<char>| #[trigger] lists_text(paths@, x) <==> !is_merged_path(
                    *plan,
                    self.root(),
                    x,
                ) && exists|k: int|
                    0 <= k < i + 1 && ((#[trigger] patches[k]).file_path@ == x
                        || patches[k].file_path@ + ".zm"@ == x) by {
                    lemma_names_push(paths0, patch.file_path, x);
                    lemma_names_push(paths1, zone_path, x);
                    if exists|k: int|
                        0 <= k < i && ((#[trigger] patches[k]).file_path@ == x
                            || patches[k].file_path@ + ".zm"@ == x) {
                        let k = choose|k: int|
                            0 <= k < i && ((#[trigger] patches[k]).file_path@ == x
                                || patches[k].file_path@ + ".zm"@ == x);
                        assert(patches[k].file_path@ == x || patches[k].file_path@ + ".zm"@ == x);
                    }
                    if patch.file_path@ == x || zone_path@ == x {
                        assert(patches[i as int].file_path@ == x || patches[i as int].file_path@
                            + ".zm"@ == x);
                    }
                }
                assert forall|a: int|
                    #![trigger keys@[a]]
                    0 <= a < keys@.len() implies stale_index(*plan, keys@[a]@.index()) by {
                    if a < keys0.len() {
                        assert(keys@[a] == keys0[a]);
                    }
                }
                assert forall|k: int|
                    #![trigger patches[k]]
                    0 <= k < i + 1 && !is_merged_index(
                        *plan,
                        patch_index(patches[k]@),
                    ) implies exists|a: int|
                    0 <= a < keys@.len() && (#[trigger] keys@[a])@.index() == patch_index(
                        patches[k]@,
                    ) by {
                    if k < i {
                        let a = choose|a: int|
                            0 <= a < keys0.len() && (#[trigger] keys0[a])@.index() == patch_index(
                                patches[k]@,
                            );
                        assert(keys@[a] == keys0[a]);
                    } else {
                        assert(keys@[keys0.len() as int]@.index() == patch_index(patches[k]@));
                    }
                }
            }
            i = i + 1;
        }
        proof {
            assert forall|x: (Seq<char>, Seq<char>, u64)|
                #![trigger stale_index(*plan, x)]
                lists_index(keys@, x) <==> stale_index(*plan, x) by {
                if lists_index(keys@, x) {
                    let a = choose|a: int|
                        0 <= a < keys@.len() && (#[trigger] keys@[a])@.index() == x;
                    assert(stale_index(*plan, keys@[a]@.index()));
                }
                if stale_index(*plan, x) {
                    let k = choose|k: int|
                        0 <= k < patches.len() && patch_index((#[trigger] plan.patches@[k])@) == x;
                    assert(patches[k] == plan.patches@[k]);
                    let a = choose|a: int|
                        0 <= a < keys@.len() && (#[trigger] keys@[a])@.index() == patch_index(
                            patches[k]@,
                        );
                    assert(keys@[a]@.index() == x);
                }
            }
        }
        (keys, paths)
    }

    /// Whether a path is that of a merged file of a plan.
    fn takes_path(&self, plan: &MergePlan, path: &String) -> (r: bool)
        ensures
            r == is_merged_path(*plan, self.root(), path@),
    {
        let mut i: usize = 0;
        while i < plan.column_plans.len()
            invariant
                i <= plan.column_plans@.len(),
                forall|k: int|
                    #![trigger plan.column_plans@[k]]
                    0 <= k < i ==> guard_file_path(
                        self.root(),
                        merged_key(*plan, plan.column_plans@[k].col@),
                    ) != path@,
            decreases plan.column_plans@.len() - i,
        {
            let key = GuardKey {
                seg_id: plan.guard_key.seg_id.clone(),
                col: plan.column_plans[i].col.clone(),
                start_row: plan.guard_key.start_row,
                end_row: plan.guard_key.end_row,
            };
            assert(key@ == merged_key(*plan, plan.column_plans@[i as int].col@));
            if text_same(self.guard_path(&key).as_str(), path.as_str()) {
                return true;
            }
            i = i + 1;
        }
        false
    }

    /// Carries out a merge plan: for each column, its file is replaced by one
    /// patch that has the newest value of each kept row. The guards and files of
    /// the merged patches are removed, unless a merged file took their place.
    #[verifier::rlimit(50)]
    pub fn execute_merge_plan(&mut self, plan: MergePlan) -> (r: Result<(), RockDuckError>)
        requires
            old(self).wf(),
        ensures
            final(self).wf(),
            final(self).root() == old(self).root(),
            final(self).threshold() == old(self).threshold(),
            final(self).in_background() == old(self).in_background(),
            exists|states: Seq<DiskView>, order: Seq<usize>|
                plan_executed(old(self)@, final(self)@, old(self).root(), plan, r, states, order),
    {
        let order = newest_first(&plan.patches);
        let ghost patches = patch_views(plan.patches@);
        let mut caches: Vec<Option<IpcColumn>> = Vec::new();
        let mut n: usize = 0;
        while n < plan.patches.len()
            invariant
                n <= plan.patches@.len(),
                caches@.len() == n,
                forall|i: int| #![trigger caches@[i]] 0 <= i < n ==> caches@[i] is None,
            decreases plan.patches@.len() - n,
        {
            caches.push(None);
            n = n + 1;
        }
        let ghost mut states: Seq<DiskView> = seq![self@];
        let mut i: usize = 0;
        while i < plan.column_plans.len()
            invariant
                self.wf(),
                self.root() == old(self).root(),
                self.threshold() == old(self).threshold(),
                self.in_background() == old(self).in_background(),
                i <= plan.column_plans@.len(),
                patches == patch_views(plan.patches@),
                is_newest_first(order@, patches),
                caches_fit(caches@, patches),
                states.len() == i + 1,
                states[0] == old(self)@,
                states.last() == self@,
                columns_merged(states, self.root(), plan, order@),
            decreases plan.column_plans@.len() - i,
        {
            match self.merge_column(&plan, &plan.column_plans[i], &order, &mut caches) {
                Ok(_) => {
                    proof {
                        lemma_column_merged(states, self@, self.root(), plan, order@);
                        states = states.push(self@);
                    }
                },
                Err(e) => {
                    proof {
                        assert(plan_executed(
                            old(self)@,
                            self@,
                            old(self).root(),
                            plan,
                            Err(e),
                            states,
                            order@,
                        ));
                    }
                    return Err(e);
                },
            }
            i = i + 1;
        }
        let (keys, paths) = self.stale_parts(&plan);
        self.cleanup_guard_patches(&keys, &paths);
        proof {
            let a = Set::new(|x: (Seq<char>, Seq<char>, u64)| lists_index(keys@, x));
            let b = Set::new(|x: (Seq<char>, Seq<char>, u64)| stale_index(plan, x));
            assert forall|x: (Seq<char>, Seq<char>, u64)| a.contains(x) <==> b.contains(x) by {
                assert(stale_index(plan, x) == stale_index(plan, x));
            }
            assert(a =~= b);
            assert(Set::new(|x: Seq<char>| lists_text(paths@, x)) =~= Set::new(
                |x: Seq<char>| stale_path(plan, old(self).root(), x),
            ));
            assert(plan_executed(
                old(self)@,
                self@,
                old(self).root(),
                plan,
                Ok(()),
                states,
                order@,
            ));
        }
        Ok(())
    }

    /// Plans and carries out the merge of a guard.
    pub fn schedule_guard_merge(&mut self, guard_key: &GuardKey) -> (r: Result<(), RockDuckError>)
        requires
            old(self).wf(),
        ensures
            final(self).wf(),
            final(self).root() == old(self).root(),
            final(self).threshold() == old(self).threshold(),
            final(self).in_background() == old(self).in_background(),
            guard_merged(old(self)@, final(self)@, old(self).root(), guard_key@, r),
    {
        let planned = match self.generate_merge_plan(guard_key) {
            Ok(p) => p,
            Err(e) => return Err(e),
        };
        match planned {
            None => Ok(()),
            Some(plan) => self.execute_merge_plan(plan),
        }
    }

    /// Removes a guard and its file.
    pub fn delete_guard_file(&mut self, guard_key: &GuardKey)
        requires
            old(self).wf(),
        ensures
            final(self).wf(),
            final(self).root() == old(self).root(),
            final(self).threshold() == old(self).threshold(),
            final(self).in_background() == old(self).in_background(),
            ({
                let index = guard_key@.index();
                if old(self)@.guards.dom().contains(index) {
                    final(self)@ == (DiskView {
                        guards: old(self)@.guards.remove(index),
                        files: old(self)@.files.remove(old(self)@.guards[index].file_path),
                    })
                } else {
                    final(self)@ == old(self)@
                }
            }),
    {
        let index = guard_key.index();
        let path = match self.guards.get(&index) {
            Some(g) => g.file_path.clone(),
            None => return,
        };
        let ghost start = self@;
        let _ = self.files.remove(&path);
        let _ = self.guards.remove(&index);
        assert(self@.files =~= start.files.remove(path@));
        assert(self@.guards =~= start.guards.remove(index@));
    }

    /// The guards of a segment and their least transactions, in order.
    pub fn guards_by_seg(&self, seg_id: &str) -> (r: Vec<(GuardKey, u64)>)
        ensures
            r@.map_values(|e: (GuardKey, u64)| (e.0@, e.1)) == guards_of(self.guard_list(), seg_id@),
    {
        let mut r: Vec<(GuardKey, u64)> = Vec::new();
        let ghost list = self.guard_list();
        let ghost f = |e: (GuardKey, u64)| (e.0@, e.1);
        let mut i: usize = 0;
        assert(list.take(0) =~= Seq::empty());
        assert(r@.map_values(f) =~= Seq::empty());
        while i < self.guards.len()
            invariant
                list == self.guard_list(),
                i <= list.len() == self.guards.keys().len(),
                f == (|e: (GuardKey, u64)| (e.0@, e.1)),
                r@.map_values(f) == guards_of(list.take(i as int), seg_id@),
            decreases list.len() - i,
        {
            let g = self.guards.value_at(i);
            proof {
                assert(list[i as int] == g@);
                assert(list.take(i + 1).drop_last() =~= list.take(i as int));
            }
            if text_same(g.key.seg_id.as_str(), seg_id) {
                let e = (g.key.clone(), g.zone_map.min_txn);
                assert(r@.push(e).map_values(f) =~= r@.map_values(f).push((g@.key, g@.zone_map.min_txn)));
                r.push(e);
            }
            i = i + 1;
        }
        assert(list.take(i as int) =~= list);
        r
    }

    /// The first guard with as many patches as make a merge due.
    pub fn find_overloaded_guard(&self) -> (r: Option<GuardKey>)
        ensures
            match r {
                Some(k) => first_overloaded(self.guard_list(), self.threshold()) == Some(k@),
                None => first_overloaded(self.guard_list(), self.threshold()) is None,
            },
    {
        let mut i: usize = 0;
        let ghost list = self.guard_list();
        assert(list.take(0) =~= Seq::empty());
        while i < self.guards.len()
            invariant
                list == self.guard_list(),
                i <= list.len() == self.guards.keys().len(),
                first_overloaded(list.take(i as int), self.threshold()) is None,
            decreases list.len() - i,
        {
            let g = self.guards.value_at(i);
            assert(list[i as int] == g@);
            assert(list.take(i + 1).drop_last() =~= list.take(i as int));
            if g.patch_count >= self.compaction_threshold {
                proof {
                    lemma_first_overloaded(list, self.threshold(), i + 1);
                }
                return Some(g.key.clone());
            }
            i = i + 1;
        }
        assert(list.take(i as int) =~= list);
        None
    }
}

/// The key of the first guard with as many patches as a threshold.
pub open spec fn first_overloaded(guards: Seq<GuardView>, threshold: u32) -> Option<GuardKeyView>
    decreases guards.len(),
{
    if guards.len() == 0 {
        None
    } else {
        match first_overloaded(guards.drop_last(), threshold) {
            Some(k) => Some(k),
            None => if guards.last().patch_count >= threshold {
                Some(guards.last().key)
            } else {
                None
            },
        }
    }
}

proof fn lemma_first_overloaded(guards: Seq<GuardView>, threshold: u32, n: int)
    requires
        0 <= n <= guards.len(),
        first_overloaded(guards.take(n), threshold) is Some,
    ensures
        first_overloaded(guards, threshold) == first_overloaded(guards.take(n), threshold),
    decreases guards.len() - n,
{
    if n < guards.len() {
        assert(guards.take(n + 1).drop_last() =~= guards.take(n));
        lemma_first_overloaded(guards, threshold, n + 1);
    } else {
        assert(guards.take(n) =~= guards);
    }
}

/// Whether a key is that of a merged guard of a plan.
fn takes_index(plan: &MergePlan, key: &GuardKey) -> (r: bool)
    ensures
        r == is_merged_index(*plan, key@.index()),
{
    let mut i: usize = 0;
    while i < plan.column_plans.len()
        invariant
            i <= plan.column_plans@.len(),
            forall|k: int|
                #![trigger plan.column_plans@[k]]
                0 <= k < i ==> merged_key(*plan, plan.column_plans@[k].col@).index()
                    != key@.index(),
        decreases plan.column_plans@.len() - i,
    {
        if text_same(plan.guard_key.seg_id.as_str(), key.seg_id.as_str()) && text_same(
            plan.column_plans[i].col.as_str(),
            key.col.as_str(),
        ) && plan.guard_key.start_row == key.start_row {
            assert(merged_key(*plan, plan.column_plans@[i as int].col@).index() == key@.index());
            return true;
        }
        i = i + 1;
    }
    false
}

proof fn lemma_names_push(list: Seq<String>, s: String, x: Seq<char>)
    ensures
        lists_text(list.push(s), x) <==> lists_text(list, x) || s@ == x,
{
    let next = list.push(s);
    if lists_text(list, x) {
        let i = choose|i: int| 0 <= i < list.len() && (#[trigger] list[i])@ == x;
        assert(next[i]@ == x);
    }
    if s@ == x {
        assert(next[list.len() as int]@ == x);
    }
    if lists_text(next, x) {
        let i = choose|i: int| 0 <= i < next.len() && (#[trigger] next[i])@ == x;
        if i < list.len() {
            assert(list[i]@ == x);
        }
    }
}

/// The keys and least transactions of the guards of a segment.
pub open spec fn guards_of(guards: Seq<GuardView>, seg_id: Seq<char>) -> Seq<(GuardKeyView, u64)>
    decreases guards.len(),
{
    if guards.len() == 0 {
        Seq::empty()
    } else {
        let rest = guards_of(guards.drop_last(), seg_id);
        let g = guards.last();
        if g.key.seg_id == seg_id {
            rest.push((g.key, g.zone_map.min_txn))
        } else {
            rest
        }
    }
}

proof fn lemma_patches_grown(
    key: GuardKeyView,
    path: Seq<char>,
    file: Seq<u8>,
    patch: DeltaPatch,
    offset: nat,
)
    requires
        whole_from(file, offset),
        patch_payload(patch.format@).len() <= MAX_PAYLOAD_SIZE,
        parse_payload(patch_payload(patch.format@)) == Some(patch.format@),
    ensures
        ({
            let grown = file + patch_record(patch);
            patches_from(key, path, grown, offset) == match patches_from(key, path, file, offset) {
                Err(e) => Err::<Seq<PatchRefView>, RockDuckError>(e),
                Ok(old) => Ok(old.push(appended_ref(key, path, patch))),
            }
        }),
    decreases file.len() - offset,
{
    let grown = file + patch_record(patch);
    let payload = patch_payload(patch.format@);
    let flag = if patch.format@ is Sparse {
        0u8
    } else {
        1u8
    };
    let affected = patch.zone_map.affected_rows as nat;
    law_appended_record_reads_back(
        file,
        patch.patch_id,
        patch.txn_range,
        flag,
        affected,
        payload,
        offset,
    );
    lemma_le_len(patch.patch_id as nat, 8);
    lemma_le_len(patch.txn_range.0 as nat, 8);
    lemma_le_len(patch.txn_range.1 as nat, 8);
    lemma_le_len(affected, 4);
    lemma_le_len(payload.len(), 4);
    if offset == file.len() {
        let rec = record_at(grown, file.len())->0->Ok_0;
        assert(rec.end() == grown.len());
        assert(record_at(grown, grown.len()) is None);
        let none = Seq::<PatchRefView>::empty();
        assert(patches_from(key, path, grown, grown.len()) == Ok::<
            Seq<PatchRefView>,
            RockDuckError,
        >(none));
        assert(seq![appended_ref(key, path, patch)] + none =~= none.push(
            appended_ref(key, path, patch),
        ));
    } else {
        let rec = record_at(file, offset)->0->Ok_0;
        lemma_patches_grown(key, path, file, patch, rec.end());
        let rest = patches_from(key, path, file, rec.end());
        if rest is Ok && parse_payload(rec.payload) is Some {
            let first = patch_ref(key, path, rec, parse_payload(rec.payload)->0);
            let new = appended_ref(key, path, patch);
            assert(seq![first] + rest->Ok_0.push(new) =~= (seq![first] + rest->Ok_0).push(new));
        }
    }
}

/// How a patch that was appended is read back.
pub open spec fn appended_ref(key: GuardKeyView, path: Seq<char>, patch: DeltaPatch) -> PatchRefView {
    PatchRefView {
        patch_id: patch.patch_id,
        seg_id: key.seg_id,
        col: key.col,
        file_path: path,
        format: patch.format@,
        txn_range: patch.txn_range,
        dedup_key: (key.start_row, patch.patch_id),
    }
}

/// A patch that was appended is read back from its guard, after the patches that
/// the guard had before.
pub proof fn law_appended_patch_is_read_back(
    d: DiskView,
    root: Seq<char>,
    seg_id: Seq<char>,
    col: Seq<char>,
    patch: DeltaPatch,
)
    requires
        patch_payload(patch.format@).len() <= MAX_PAYLOAD_SIZE,
        parse_payload(patch_payload(patch.format@)) == Some(patch.format@),
        ({
            let index = guard_key_for(seg_id, col, 0).index();
            d.guards.dom().contains(index) ==> {
                let g = d.guards[index];
                &&& g.file_path == guard_file_path(root, g.key)
                &&& d.files.dom().contains(g.file_path) ==> whole_file(d.files[g.file_path])
            }
        }),
        ({
            let index = guard_key_for(seg_id, col, 0).index();
            let path = guard_file_path(root, guard_key_for(seg_id, col, 0));
            !d.guards.dom().contains(index) ==> !d.files.dom().contains(path)
        }),
    ensures
        ({
            let index = guard_key_for(seg_id, col, 0).index();
            let after = appended(d, root, seg_id, col, patch);
            let g = after.guards[index];
            let new = appended_ref(g.key, g.file_path, patch);
            let none = Ok::<Seq<PatchRefView>, RockDuckError>(Seq::empty());
            let before = if d.guards.dom().contains(index) {
                patches_of(d.guards[index], d.files)
            } else {
                none
            };
            &&& whole_file(after.files[g.file_path])
            &&& patches_of(g, after.files) == match before {
                Err(e) => Err::<Seq<PatchRefView>, RockDuckError>(e),
                Ok(old) => Ok(old.push(new)),
            }
        }),
{
    let index = guard_key_for(seg_id, col, 0).index();
    let after = appended(d, root, seg_id, col, patch);
    let g = after.guards[index];
    let file = if d.files.dom().contains(g.file_path) {
        d.files[g.file_path]
    } else {
        file_header()
    };
    law_new_file_is_whole();
    assert(whole_file(file));
    assert(after.files[g.file_path] == file + patch_record(patch));
    lemma_patches_grown(g.key, g.file_path, file, patch, 64);
    let grown = file + patch_record(patch);
    assert(grown.subrange(0, 4) =~= file.subrange(0, 4));
    lemma_whole_grown(file, patch, 64);
    if !d.files.dom().contains(g.file_path) {
        assert(record_at(file_header(), 64) is None) by {
            lemma_le_len(DELTA_FILE_MAGIC as nat, 4);
        }
    }
}

proof fn lemma_whole_grown(file: Seq<u8>, patch: DeltaPatch, offset: nat)
    requires
        whole_from(file, offset),
        patch_payload(patch.format@).len() <= MAX_PAYLOAD_SIZE,
    ensures
        whole_from(file + patch_record(patch), offset),
    decreases file.len() - offset,
{
    let grown = file + patch_record(patch);
    let payload = patch_payload(patch.format@);
    let flag = if patch.format@ is Sparse {
        0u8
    } else {
        1u8
    };
    let affected = patch.zone_map.affected_rows as nat;
    law_appended_record_reads_back(
        file,
        patch.patch_id,
        patch.txn_range,
        flag,
        affected,
        payload,
        offset,
    );
    lemma_le_len(patch.patch_id as nat, 8);
    lemma_le_len(patch.txn_range.0 as nat, 8);
    lemma_le_len(patch.txn_range.1 as nat, 8);
    lemma_le_len(affected, 4);
    lemma_le_len(payload.len(), 4);
    if offset < file.len() {
        let rec = record_at(file, offset)->0->Ok_0;
        lemma_whole_grown(file, patch, rec.end());
    } else {
        let rec = record_at(grown, file.len())->0->Ok_0;
        assert(rec.end() == grown.len());
        assert(whole_from(grown, grown.len()));
    }
}

/// The values of rows are those of the rows, one by one.
pub proof fn lemma_newest_values(
    patches: Seq<PatchRefView>,
    order: Seq<usize>,
    col: Seq<char>,
    rows: Seq<u64>,
    i: int,
)
    requires
        newest_values(patches, order, col, rows) is Ok,
        0 <= i < rows.len(),
    ensures
        ({
            let cells = newest_values(patches, order, col, rows)->Ok_0;
            &&& cells.len() == rows.len()
            &&& newest_value(patches, order, col, rows[i], 0) is Ok
            &&& cells[i] == Some(
                match newest_value(patches, order, col, rows[i], 0)->Ok_0 {
                    Some(v) => v,
                    None => Seq::empty(),
                },
            )
        }),
    decreases rows.len(),
{
    reveal_with_fuel(newest_values, 2);
    let front = rows.drop_last();
    if front.len() > 0 {
        if i < front.len() {
            assert(front[i] == rows[i]);
            lemma_newest_values(patches, order, col, front, i);
        } else {
            lemma_newest_values(patches, order, col, front, 0);
        }
    }
}

/// A file of one record holds the patch of the record.
proof fn lemma_one_record(
    key: GuardKeyView,
    path: Seq<char>,
    id: u64,
    txn_range: (u64, u64),
    flag: u8,
    affected: nat,
    payload: Seq<u8>,
    f: FormatView,
)
    requires
        payload.len() <= MAX_PAYLOAD_SIZE,
        parse_payload(payload) == Some(f),
    ensures
        ({
            let bytes = file_header() + record_bytes(id, txn_range, flag, affected, payload);
            let read = guard_patches(key, path, bytes);
            &&& read is Ok
            &&& read->Ok_0.len() == 1
            &&& read->Ok_0[0].txn_range == txn_range
            &&& read->Ok_0[0].format == f
        }),
{
    let file = file_header();
    let bytes = file + record_bytes(id, txn_range, flag, affected, payload);
    assert(file.len() == 64) by {
        lemma_le_len(DELTA_FILE_MAGIC as nat, 4);
    }
    law_appended_record_reads_back(file, id, txn_range, flag, affected, payload, 64);
    assert(!bad_magic(bytes)) by {
        law_new_file_is_whole();
        assert(bytes.subrange(0, 4) =~= file.subrange(0, 4));
    }
    let rec = record_at(bytes, 64)->0->Ok_0;
    assert(rec.end() == bytes.len()) by {
        lemma_le_len(id as nat, 8);
        lemma_le_len(txn_range.0 as nat, 8);
        lemma_le_len(txn_range.1 as nat, 8);
        lemma_le_len(affected, 4);
        lemma_le_len(payload.len(), 4);
    }
    let none = Seq::<PatchRefView>::empty();
    assert(patches_from(key, path, bytes, bytes.len()) == Ok::<Seq<PatchRefView>, RockDuckError>(none)) by {
        assert(record_at(bytes, bytes.len()) is None);
    }
    let one = patch_ref(key, path, rec, f);
    assert(seq![one] + none =~= seq![one]);
}

/// Ascending rows of 32 bits are listed by their set, each at its own place.
proof fn lemma_row_listing(rows: Seq<u64>, i: int)
    requires
        forall|a: int, b: int| #![trigger rows[a], rows[b]] 0 <= a < b < rows.len() ==> rows[a] < rows[b],
        forall|a: int| #![trigger rows[a]] 0 <= a < rows.len() ==> rows[a] <= u32::MAX,
        0 <= i < rows.len(),
    ensures
        row_set(rows).len() == rows.len(),
        row_set(rows).contains(rows[i] as u32),
        listing(row_set(rows)).index_of(rows[i] as u32) == i,
{
    let short = rows.map_values(|r: u64| r as u32);
    let set = row_set(rows);
    assert(lists(short, set)) by {
        assert forall|a: int, b: int| #![auto] 0 <= a < b < short.len() implies short[a] < short[b] by {
            assert(rows[a] < rows[b]);
        }
    }
    lemma_lists_len(short, set);
    lemma_listing(short, set);
    assert(short[i] == rows[i]);
    assert(short.contains(rows[i] as u32));
    let k = short.index_of(rows[i] as u32);
    assert(short[k] == short[i]);
    if k < i {
        assert(rows[k] < rows[i]);
    } else if i < k {
        assert(rows[i] < rows[k]);
    }
}

/// A merged file holds one patch, of all transactions that were merged, and in it
/// each kept row has the newest value that the merged patches had for it. The
/// rows are numbers of 32 bits in ascending order, and the file is not larger
/// than a payload may be.
pub proof fn law_merged_file_gives_newest_values(
    bytes: Seq<u8>,
    patches: Seq<PatchRefView>,
    order: Seq<usize>,
    txn_range: (u64, u64),
    col: Seq<char>,
    rows: Seq<u64>,
    key: GuardKeyView,
    path: Seq<char>,
    i: int,
)
    requires
        is_merged_file(bytes, patches, order, txn_range, col, rows),
        bytes.len() <= MAX_PAYLOAD_SIZE,
        forall|a: int, b: int| #![trigger rows[a], rows[b]] 0 <= a < b < rows.len() ==> rows[a] < rows[b],
        forall|a: int| #![trigger rows[a]] 0 <= a < rows.len() ==> rows[a] <= u32::MAX,
        0 <= i < rows.len(),
    ensures
        newest_value(patches, order, col, rows[i], 0) is Ok,
        ({
            let read = guard_patches(key, path, bytes);
            &&& read is Ok
            &&& read->Ok_0.len() == 1
            &&& read->Ok_0[0].txn_range == txn_range
            &&& patch_value(read->Ok_0[0].format, rows[i]) == Ok::<Option<Seq<u8>>, RockDuckError>(
                Some(
                    match newest_value(patches, order, col, rows[i], 0)->Ok_0 {
                        Some(v) => v,
                        None => Seq::empty(),
                    },
                ),
            )
        }),
{
    let (positions, values) = choose|positions: Seq<u8>, values: Seq<u8>|
        bytes == file_header() + record_bytes(
            max_patch_id(patches),
            txn_range,
            0,
            rows.len(),
            patch_payload(#[trigger] patch_of(positions, values, rows.len())),
        ) && portable_rows(positions) == row_set(rows) && (newest_values(patches, order, col, rows)
            matches Ok(cells) && ipc_column(values) == Some((rows.len(), Some(cells))));
    let f = patch_of(positions, values, rows.len());
    let payload = patch_payload(f);
    let id = max_patch_id(patches);
    lemma_newest_values(patches, order, col, rows, i);
    lemma_row_listing(rows, i);
    assert(payload.len() <= bytes.len());
    assert(positions.len() <= payload.len() && values.len() <= payload.len()) by {
        lemma_le_len(positions.len(), 4);
        lemma_le_len(values.len(), 4);
    }
    law_patch_round_trip(f);
    lemma_one_record(key, path, id, txn_range, 0, rows.len(), payload, f);
    assert(covers(f, rows[i]));
}

/// Whether a file of this name was left over by an interrupted write: one whose
/// name ends with `.tmp`, or a merged file that never took the place of the ones
/// it was merged from.
pub open spec fn is_orphan(name: Seq<char>) -> bool {
    (ends(name, ".tmp"@) && name.len() > 4) || ends(name, ".delta.merged"@)
}

/// Whether a file of this name is removed at the start.
pub fn is_orphan_file(name: &str) -> (r: bool)
    ensures
        r == is_orphan(name@),
{
    proof {
        reveal_strlit(".tmp");
        reveal_strlit(".delta.merged");
    }
    let n: usize = name.unicode_len();
    if n > 4 {
        let tail = name.substring_char(n - 4, n);
        assert(tail@ =~= name@.skip(n - 4));
        if text_same(tail, ".tmp") {
            return true;
        }
    }
    if n >= 13 {
        let tail = name.substring_char(n - 13, n);
        assert(tail@ =~= name@.skip(n - 13));
        if text_same(tail, ".delta.merged") {
            return true;
        }
    }
    false
}

/// The file of a guard is never taken for one that was left over.
pub proof fn law_guard_files_are_kept(start: nat, end: nat)
    ensures
        !is_orphan("guard_"@ + decimal(start) + "_"@ + decimal(end) + ".delta"@),
{
    let name = "guard_"@ + decimal(start) + "_"@ + decimal(end) + ".delta"@;
    reveal_strlit(".tmp");
    reveal_strlit(".delta.merged");
    reveal_strlit(".delta");
    assert(name.last() == 'a');
    assert(name.skip(name.len() - 4).last() == name.last());
    assert(".tmp"@.last() == 'p');
    assert(".delta.merged"@.last() == 'd');
    if name.len() >= 13 {
        assert(name.skip(name.len() - 13).last() == name.last());
    }
}

} // verus!
