//! A mask of deleted rows as it is stored: a list below one percent of the rows,
//! a compressed bitmap up to half of them, a bit for every row above that.
use vstd::prelude::*;
use crate::codec::bytes_copy;
use crate::error::RockDuckError;
use crate::ratio::{above, below, is_above, is_below, Ratio};
use crate::roaring_set::{roaring_contains, roaring_insert, roaring_list, roaring_new, roaring_read, roaring_rows, roaring_stored, roaring_write};

verus! {

/// Form of a mask.
#[derive(Debug)]
pub enum DelMaskMode {
    Empty,
    /// The deleted rows.
    SkipList(Vec<u32>),
    /// A bitmap in the standard Roaring form.
    Roaring(Vec<u8>),
    /// A bit for every row, eight to a byte, the first in the lowest place.
    FullBitmap(Vec<u8>),
}

impl Default for DelMaskMode {
    fn default() -> (r: Self)
        ensures
            r is Empty,
    {
        DelMaskMode::Empty
    }
}

/// Whether the bit of a row is set.
pub open spec fn bit_set(data: Seq<u8>, pos: u64) -> bool {
    pos / 8 < data.len() && (data[(pos / 8) as int] >> ((pos % 8) as u8)) & 1 == 1
}

/// The rows that bytes in the standard Roaring form hold, none when they are of
/// another form.
pub open spec fn stored_rows(bytes: Seq<u8>) -> Set<u32> {
    match roaring_stored(bytes) {
        Some(rows) => rows,
        None => Set::empty(),
    }
}

/// The rows that a form marks.
pub open spec fn marked(mode: DelMaskMode) -> Set<u64> {
    match mode {
        DelMaskMode::Empty => Set::empty(),
        DelMaskMode::SkipList(list) => Set::new(
            |p: u64| p <= u32::MAX && list@.contains(p as u32),
        ),
        DelMaskMode::Roaring(data) => Set::new(
            |p: u64| p <= u32::MAX && stored_rows(data@).contains(p as u32),
        ),
        DelMaskMode::FullBitmap(data) => Set::new(|p: u64| bit_set(data@, p)),
    }
}

/// Rows in ascending order.
pub open spec fn ascending_rows(rows: Seq<u32>) -> bool {
    forall|i: int, j: int| #![auto] 0 <= i < j < rows.len() ==> rows[i] < rows[j]
}

/// `list` lists some positions, in ascending order.
pub open spec fn lists_positions(list: Seq<u64>, set: Set<u64>) -> bool {
    &&& forall|i: int, j: int| #![auto] 0 <= i < j < list.len() ==> list[i] < list[j]
    &&& forall|p: u64| #[trigger] set.contains(p) <==> list.contains(p)
}

/// There are as many positions as a list of them has.
pub proof fn lemma_positions_len(list: Seq<u64>, set: Set<u64>)
    requires
        lists_positions(list, set),
    ensures
        set.finite(),
        set.len() == list.len(),
{
    assert(list.no_duplicates());
    list.unique_seq_to_set();
    assert(set =~= list.to_set());
}

/// Form of a mask, without what it holds.
#[derive(Debug, Clone, Copy, PartialEq, Eq, Structural)]
pub enum MaskForm {
    Empty,
    SkipList,
    Roaring,
    FullBitmap,
}

/// The form for a number of deleted rows.
pub open spec fn form_for(deleted: int, total: u32, threshold: Ratio) -> MaskForm {
    if total == 0 || below(deleted, total as int, Ratio { num: 1, den: 100 }) {
        MaskForm::SkipList
    } else if above(deleted, total as int, threshold) {
        MaskForm::FullBitmap
    } else {
        MaskForm::Roaring
    }
}

/// The form of a mask.
pub open spec fn form_of(mode: DelMaskMode) -> MaskForm {
    match mode {
        DelMaskMode::Empty => MaskForm::Empty,
        DelMaskMode::SkipList(_) => MaskForm::SkipList,
        DelMaskMode::Roaring(_) => MaskForm::Roaring,
        DelMaskMode::FullBitmap(_) => MaskForm::FullBitmap,
    }
}

/// The row under which a form marks a position: but for a bit for every row,
/// positions are kept in 32 bits.
pub open spec fn kept_position(form: MaskForm, pos: u64) -> u64 {
    if form == MaskForm::FullBitmap {
        pos
    } else {
        pos as u32 as u64
    }
}

/// How many bytes have a bit for each of some rows.
pub open spec fn bitmap_bytes(total: u32) -> int {
    (total + 7) / 8
}

/// The positions that have a place among the bits of some rows.
pub open spec fn in_bitmap(set: Set<u64>, total: u32) -> Set<u64> {
    Set::new(|p: u64| set.contains(p) && p < 8 * bitmap_bytes(total))
}

/// A mask of deleted rows.
#[derive(Debug)]
pub struct DelMask {
    pub total_rows: u32,
    pub mode: DelMaskMode,
    /// Share of deleted rows above which the segment is to be compacted.
    pub compaction_threshold: Ratio,
}

/// What a bit says after another was set.
proof fn lemma_bit_or(b: u8, i: u8, j: u8)
    requires
        i < 8,
        j < 8,
    ensures
        ((b | (1u8 << i)) >> j) & 1 == if i == j {
            1u8
        } else {
            (b >> j) & 1
        },
{
    assert(((b | (1u8 << i)) >> j) & 1 == if i == j {
        1u8
    } else {
        (b >> j) & 1
    }) by (bit_vector)
        requires
            i < 8,
            j < 8,
    ;
}

proof fn lemma_bit_zero(j: u8)
    requires
        j < 8,
    ensures
        (0u8 >> j) & 1 == 0,
{
    assert((0u8 >> j) & 1 == 0) by (bit_vector)
        requires
            j < 8,
    ;
}

/// Sets the bit of a position.
fn set_position(data: &mut Vec<u8>, pos: u64)
    requires
        pos / 8 < old(data)@.len(),
    ensures
        final(data)@.len() == old(data)@.len(),
        forall|p: u64| #[trigger]
            bit_set(final(data)@, p) == (p == pos || bit_set(old(data)@, p)),
{
    let n: usize = data.len();
    assert(pos / 8 < n);
    let byte: usize = (pos / 8) as usize;
    let bit: u8 = (pos % 8) as u8;
    let ghost before = data@;
    let b: u8 = data[byte];
    let changed: u8 = b | (1u8 << bit);
    data.set(byte, changed);
    proof {
        assert forall|p: u64| #[trigger] bit_set(data@, p) == (p == pos || bit_set(before, p)) by {
            let j = (p % 8) as u8;
            if p / 8 == pos / 8 {
                lemma_bit_or(b, bit, j);
                assert((p == pos) == (bit == j));
            } else if p / 8 < before.len() {
                assert(data@[(p / 8) as int] == before[(p / 8) as int]);
            }
        }
    }
}

/// Bytes without a set bit.
fn clear_bytes(n: usize) -> (data: Vec<u8>)
    ensures
        data@.len() == n,
        forall|p: u64| !#[trigger] bit_set(data@, p),
{
    let mut data: Vec<u8> = Vec::new();
    let mut i: usize = 0;
    while i < n
        invariant
            i <= n,
            data@.len() == i,
            forall|k: int| #![trigger data@[k]] 0 <= k < i ==> data@[k] == 0,
        decreases n - i,
    {
        data.push(0);
        i = i + 1;
    }
    proof {
        assert forall|p: u64| !#[trigger] bit_set(data@, p) by {
            if p / 8 < data@.len() {
                assert(data@[(p / 8) as int] == 0);
                lemma_bit_zero((p % 8) as u8);
            }
        }
    }
    data
}

/// The positions of the set bits, in ascending order.
fn list_bits(data: &Vec<u8>) -> (list: Vec<u64>)
    ensures
        lists_positions(list@, Set::new(|p: u64| bit_set(data@, p))),
{
    let ghost set = Set::new(|p: u64| bit_set(data@, p));
    let mut list: Vec<u64> = Vec::new();
    let mut byte: usize = 0;
    let n: usize = data.len();
    while byte < n && byte as u64 <= 0x1fff_ffff_ffff_ffff
        invariant
            n == data@.len(),
            byte <= n,
            byte <= 0x2000_0000_0000_0000,
            set == Set::new(|p: u64| bit_set(data@, p)),
            forall|i: int, j: int| #![auto] 0 <= i < j < list@.len() ==> list@[i] < list@[j],
            forall|p: u64| #[trigger] list@.contains(p) <==> p / 8 < byte && set.contains(p),
        decreases n - byte,
    {
        let b: u8 = data[byte];
        let mut i: u8 = 0;
        while i < 8
            invariant
                i <= 8,
                n == data@.len(),
                byte < n,
                byte <= 0x1fff_ffff_ffff_ffff,
                b == data@[byte as int],
                set == Set::new(|p: u64| bit_set(data@, p)),
                forall|x: int, y: int| #![auto] 0 <= x < y < list@.len() ==> list@[x] < list@[y],
                forall|p: u64| #[trigger]
                    list@.contains(p) <==> (p < byte * 8 + i) && set.contains(p),
            decreases 8 - i,
        {
            let pos: u64 = byte as u64 * 8 + i as u64;
            let ghost was = list@;
            assert(pos / 8 == byte && pos % 8 == i);
            if (b >> i) & 1 == 1 {
                list.push(pos);
                proof {
                    assert forall|x: int, y: int| #![auto] 0 <= x < y < list@.len() implies list@[x] < list@[y] by {
                        if y == was.len() {
                            assert(was.contains(was[x]));
                        }
                    }
                    assert forall|p: u64| #[trigger] list@.contains(p) <==> (p < byte * 8 + i + 1) && set.contains(
                        p,
                    ) by {
                        if list@.contains(p) {
                            let k = choose|k: int| 0 <= k < list@.len() && list@[k] == p;
                            if k < was.len() {
                                assert(was[k] == p);
                                assert(was.contains(p));
                            }
                        }
                        if p < byte * 8 + i + 1 && set.contains(p) {
                            if p < pos {
                                assert(was.contains(p));
                                let k = choose|k: int| 0 <= k < was.len() && was[k] == p;
                                assert(list@[k] == p);
                            } else {
                                assert(list@[was.len() as int] == p);
                            }
                        }
                    }
                }
            } else {
                proof {
                    assert forall|p: u64| #[trigger] list@.contains(p) <==> (p < byte * 8 + i + 1) && set.contains(
                        p,
                    ) by {
                        if p == pos {
                            assert(!set.contains(p));
                        }
                        assert(was.contains(p) <==> (p < byte * 8 + i) && set.contains(p));
                    }
                }
            }
            i = i + 1;
        }
        byte = byte + 1;
    }
    proof {
        assert forall|p: u64| #[trigger] set.contains(p) <==> list@.contains(p) by {
            assert(p / 8 <= 0x1fff_ffff_ffff_ffff);
        }
    }
    list
}

/// The positions of rows of 32 bits.
fn widen(rows: &Vec<u32>) -> (list: Vec<u64>)
    requires
        ascending_rows(rows@),
    ensures
        lists_positions(list@, Set::new(|p: u64| p <= u32::MAX && rows@.contains(p as u32))),
        list@.len() == rows@.len(),
{
    let mut list: Vec<u64> = Vec::new();
    let mut i: usize = 0;
    while i < rows.len()
        invariant
            i <= rows@.len(),
            list@.len() == i,
            forall|k: int| #![trigger list@[k]] 0 <= k < i ==> list@[k] == rows@[k],
        decreases rows@.len() - i,
    {
        list.push(rows[i] as u64);
        i = i + 1;
    }
    proof {
        let set = Set::new(|p: u64| p <= u32::MAX && rows@.contains(p as u32));
        assert forall|x: int, y: int| #![auto] 0 <= x < y < list@.len() implies list@[x] < list@[y] by {
            assert(rows@[x] < rows@[y]);
        }
        assert forall|p: u64| #[trigger] set.contains(p) <==> list@.contains(p) by {
            if set.contains(p) {
                let k = choose|k: int| 0 <= k < rows@.len() && rows@[k] == p as u32;
                assert(list@[k] == p);
            }
            if list@.contains(p) {
                let k = choose|k: int| 0 <= k < list@.len() && list@[k] == p;
                assert(rows@[k] == p as u32);
            }
        }
    }
    list
}

impl DelMask {
    /// The rows that the mask marks.
    pub open spec fn positions(&self) -> Set<u64> {
        marked(self.mode)
    }

    /// A list of rows is in ascending order.
    pub open spec fn wf(&self) -> bool {
        match self.mode {
            DelMaskMode::SkipList(list) => ascending_rows(list@),
            _ => true,
        }
    }

    /// A mask without deleted rows. The number of rows is kept in 32 bits.
    pub fn new(total_rows: u64) -> (r: Self)
        ensures
            r.wf(),
            r.total_rows == total_rows as u32,
            r.mode is Empty,
            r.positions() == Set::<u64>::empty(),
            r.compaction_threshold == (Ratio { num: 1, den: 2 }),
    {
        #[verifier::truncate]
        let total: u32 = total_rows as u32;
        DelMask {
            total_rows: total,
            mode: DelMaskMode::Empty,
            compaction_threshold: Ratio { num: 1, den: 2 },
        }
    }

    /// Whether a row is deleted; a row past the end is not.
    pub fn is_deleted(&self, pos: u64) -> (r: bool)
        ensures
            r == (pos < self.total_rows && self.positions().contains(pos)),
    {
        if pos >= self.total_rows as u64 {
            return false;
        }
        match &self.mode {
            DelMaskMode::Empty => false,
            DelMaskMode::SkipList(list) => has_row(list, pos as u32),
            DelMaskMode::Roaring(data) => match roaring_read(data.as_slice()) {
                Some(b) => roaring_contains(&b, pos as u32),
                None => false,
            },
            DelMaskMode::FullBitmap(data) => {
                let byte: u64 = pos / 8;
                byte < data.len() as u64 && (data[byte as usize] >> ((pos % 8) as u8)) & 1 == 1
            },
        }
    }

    /// Marks a row as deleted and gives the mask the form for the number of rows
    /// that it then marks. A bit for every row is kept once there is one.
    pub fn add_delete(&mut self, pos: u64)
        requires
            old(self).wf(),
            form_of(old(self).mode) == MaskForm::FullBitmap ==> pos / 8 < usize::MAX,
        ensures
            final(self).wf(),
            final(self).total_rows == old(self).total_rows,
            final(self).compaction_threshold == old(self).compaction_threshold,
            delete_added(*old(self), *final(self), pos),
    {
        if let DelMaskMode::FullBitmap(data) = &mut self.mode {
            let ghost before = data@;
            let byte: usize = (pos / 8) as usize;
            if byte >= data.len() {
                grow(data, byte + 1);
            }
            set_position(data, pos);
            proof {
                assert(Set::new(|p: u64| bit_set(data@, p)) =~= Set::new(
                    |p: u64| bit_set(before, p),
                ).insert(pos));
            }
            return;
        }
        #[verifier::truncate]
        let row: u32 = pos as u32;
        let ghost was = self.positions();
        let ghost with = was.insert(row as u64);
        let rows = self.rows_with(row);
        proof {
            lemma_same_len(rows@, with);
        }
        let count: u64 = rows.len() as u64;
        if self.total_rows == 0 || is_below(
            count,
            self.total_rows as u64,
            Ratio { num: 1, den: 100 },
        ) {
            self.mode = DelMaskMode::SkipList(rows);
            assert(self.positions() =~= with);
            return;
        }
        let mut bitmap = roaring_new();
        fill_roaring(&mut bitmap, &rows);
        let data = roaring_write(&bitmap);
        self.mode = DelMaskMode::Roaring(data);
        proof {
            assert(self.positions() =~= with) by {
                assert forall|p: u64| #[trigger] self.positions().contains(p) <==> with.contains(p) by {
                    if p <= u32::MAX {
                        assert(rows@.to_set().contains(p as u32) <==> rows@.contains(p as u32));
                    }
                }
            }
        }
        if is_above(count, self.total_rows as u64, self.compaction_threshold) {
            self.to_full_bitmap();
        }
    }

    /// The marked rows and one more, in ascending order.
    fn rows_with(&self, row: u32) -> (rows: Vec<u32>)
        requires
            self.wf(),
            form_of(self.mode) != MaskForm::FullBitmap,
        ensures
            ascending_rows(rows@),
            forall|p: u64| #[trigger]
                self.positions().insert(row as u64).contains(p) <==> p <= u32::MAX && rows@.contains(
                    p as u32,
                ),
    {
        let mut rows: Vec<u32> = Vec::new();
        match &self.mode {
            DelMaskMode::SkipList(list) => {
                rows = list.clone();
                assert(rows@ =~= list@);
            },
            DelMaskMode::Roaring(data) => {
                if let Some(b) = roaring_read(data.as_slice()) {
                    rows = roaring_list(&b);
                }
            },
            _ => {},
        }
        let ghost before = rows@;
        proof {
            assert forall|p: u64| #[trigger] self.positions().contains(p) <==> p <= u32::MAX && before.contains(
                p as u32,
            ) by {
                if p <= u32::MAX {
                    match self.mode {
                        DelMaskMode::Roaring(data) => {
                            assert(stored_rows(data@).contains(p as u32) <==> before.contains(p as u32));
                        },
                        _ => {},
                    }
                }
            }
        }
        insert_row(&mut rows, row);
        proof {
            assert forall|p: u64| #[trigger] self.positions().insert(row as u64).contains(p) <==> p <= u32::MAX
                && rows@.contains(p as u32) by {
                assert(self.positions().contains(p) <==> p <= u32::MAX && before.contains(p as u32));
                if p <= u32::MAX {
                    assert(rows@.contains(p as u32) <==> before.contains(p as u32) || p as u32 == row);
                }
            }
        }
        rows
    }

    /// Gives the mask a bit for every row. Marked rows past the end are left out.
    pub fn to_full_bitmap(&mut self)
        requires
            old(self).wf(),
        ensures
            final(self).wf(),
            final(self).total_rows == old(self).total_rows,
            final(self).compaction_threshold == old(self).compaction_threshold,
            final(self).mode matches DelMaskMode::FullBitmap(data) && data@.len() == bitmap_bytes(
                old(self).total_rows,
            ),
            final(self).positions() == in_bitmap(old(self).positions(), old(self).total_rows),
    {
        let list = self.deleted_positions();
        let ghost was = self.positions();
        let bytes: usize = ((self.total_rows as u64 + 7) / 8) as usize;
        let mut full = clear_bytes(bytes);
        let mut i: usize = 0;
        while i < list.len()
            invariant
                i <= list@.len(),
                lists_positions(list@, was),
                full@.len() == bytes,
                bytes == bitmap_bytes(self.total_rows),
                forall|p: u64| #[trigger]
                    bit_set(full@, p) <==> list@.take(i as int).contains(p) && p < 8 * bytes,
                *self == *old(self),
            decreases list@.len() - i,
        {
            let pos: u64 = list[i];
            let ghost before = full@;
            if pos / 8 < bytes as u64 {
                set_position(&mut full, pos);
            }
            proof {
                let now = list@.take(i as int);
                let next = list@.take(i + 1);
                assert(next =~= now.push(pos));
                assert forall|p: u64| #[trigger] bit_set(full@, p) <==> next.contains(p) && p < 8 * bytes by {
                    assert(bit_set(before, p) <==> now.contains(p) && p < 8 * bytes);
                    lemma_push_contains(now, pos, p);
                }
            }
            i = i + 1;
        }
        proof {
            assert(list@.take(i as int) =~= list@);
            assert(Set::new(|p: u64| bit_set(full@, p)) =~= in_bitmap(was, self.total_rows)) by {
                assert forall|p: u64| bit_set(full@, p) <==> #[trigger] in_bitmap(was, self.total_rows).contains(
                    p,
                ) by {
                    assert(was.contains(p) <==> list@.contains(p));
                }
            }
        }
        self.mode = DelMaskMode::FullBitmap(full);
    }

    /// How many rows are marked.
    pub fn deleted_count(&self) -> (n: u64)
        requires
            self.wf(),
        ensures
            n == self.positions().len(),
    {
        let list = self.deleted_positions();
        proof {
            lemma_positions_len(list@, self.positions());
        }
        list.len() as u64
    }

    /// The share of deleted rows.
    pub fn del_ratio(&self) -> (r: Ratio)
        requires
            self.wf(),
        ensures
            r == if self.total_rows == 0 {
                (Ratio { num: 0, den: 1 })
            } else {
                (Ratio { num: self.positions().len() as u64, den: self.total_rows as u64 })
            },
    {
        if self.total_rows == 0 {
            return Ratio { num: 0, den: 1 };
        }
        Ratio { num: self.deleted_count(), den: self.total_rows as u64 }
    }

    /// Whether so many rows are deleted that the segment is to be compacted.
    pub fn needs_compaction(&self) -> (r: bool)
        requires
            self.wf(),
        ensures
            r == if self.total_rows == 0 {
                above(0, 1, self.compaction_threshold)
            } else {
                above(
                    self.positions().len() as int,
                    self.total_rows as int,
                    self.compaction_threshold,
                )
            },
    {
        if self.total_rows == 0 {
            return is_above(0, 1, self.compaction_threshold);
        }
        is_above(self.deleted_count(), self.total_rows as u64, self.compaction_threshold)
    }

    /// Marks rows as deleted, one after the other.
    pub fn add_deletes(&mut self, positions: &[u64])
        requires
            old(self).wf(),
            forall|i: int|
                #![trigger positions@[i]]
                0 <= i < positions@.len() ==> positions@[i] / 8 < usize::MAX,
        ensures
            final(self).wf(),
            final(self).total_rows == old(self).total_rows,
            final(self).compaction_threshold == old(self).compaction_threshold,
            exists|steps: Seq<DelMask>| #[trigger]
                adds_all(*old(self), *final(self), positions@, steps),
    {
        let ghost mut steps: Seq<DelMask> = seq![*self];
        let mut i: usize = 0;
        while i < positions.len()
            invariant
                i <= positions@.len(),
                self.wf(),
                forall|k: int|
                    #![trigger positions@[k]]
                    0 <= k < positions@.len() ==> positions@[k] / 8 < usize::MAX,
                self.total_rows == old(self).total_rows,
                self.compaction_threshold == old(self).compaction_threshold,
                adds_all(*old(self), *self, positions@.take(i as int), steps),
            decreases positions@.len() - i,
        {
            let ghost before = *self;
            let ghost was = steps;
            assert(positions@[i as int] / 8 < usize::MAX);
            self.add_delete(positions[i]);
            proof {
                steps = steps.push(*self);
                let now = positions@.take(i + 1);
                assert forall|k: int| #![trigger steps[k + 1]] 0 <= k < now.len() implies delete_added(
                    steps[k],
                    steps[k + 1],
                    now[k],
                ) by {
                    if k < i {
                        assert(was[k + 1] == steps[k + 1]);
                        assert(was[k] == steps[k]);
                        assert(now[k] == positions@.take(i as int)[k]);
                    }
                }
                assert forall|k: int| #![trigger steps[k]] 0 <= k < steps.len() implies steps[k].total_rows
                    == old(self).total_rows && steps[k].compaction_threshold
                    == old(self).compaction_threshold by {
                    if k < was.len() {
                        assert(was[k] == steps[k]);
                    }
                }
            }
            i = i + 1;
        }
        assert(positions@.take(i as int) =~= positions@);
    }

    /// The marked rows, in ascending order.
    pub fn deleted_positions(&self) -> (list: Vec<u64>)
        requires
            self.wf(),
        ensures
            lists_positions(list@, self.positions()),
    {
        match &self.mode {
            DelMaskMode::Empty => Vec::new(),
            DelMaskMode::SkipList(list) => widen(list),
            DelMaskMode::Roaring(data) => match roaring_read(data.as_slice()) {
                Some(b) => {
                    let rows = roaring_list(&b);
                    let list = widen(&rows);
                    proof {
                        assert(self.positions() =~= Set::new(
                            |p: u64| p <= u32::MAX && rows@.contains(p as u32),
                        )) by {
                            assert forall|p: u64| #[trigger] self.positions().contains(p) <==> p <= u32::MAX
                                && rows@.contains(p as u32) by {
                                if p <= u32::MAX {
                                    assert(roaring_rows(b).contains(p as u32) <==> rows@.contains(
                                        p as u32,
                                    ));
                                }
                            }
                        }
                    }
                    list
                },
                None => {
                    assert(self.positions() =~= Set::empty());
                    Vec::new()
                },
            },
            DelMaskMode::FullBitmap(data) => list_bits(data),
        }
    }
}

/// One row was marked.
pub open spec fn delete_added(before: DelMask, after: DelMask, pos: u64) -> bool {
    let form = form_of(before.mode);
    let with = before.positions().insert(kept_position(form, pos));
    if form == MaskForm::FullBitmap {
        form_of(after.mode) == MaskForm::FullBitmap && after.positions() == with
    } else {
        let wanted = form_for(with.len() as int, before.total_rows, before.compaction_threshold);
        &&& form_of(after.mode) == wanted
        &&& after.positions() == if wanted == MaskForm::FullBitmap {
            in_bitmap(with, before.total_rows)
        } else {
            with
        }
    }
}

/// Rows were marked one after the other.
pub open spec fn adds_all(before: DelMask, after: DelMask, positions: Seq<u64>, steps: Seq<DelMask>) -> bool {
    &&& steps.len() == positions.len() + 1
    &&& steps[0] == before
    &&& steps.last() == after
    &&& forall|k: int|
        #![trigger steps[k + 1]]
        0 <= k < positions.len() ==> delete_added(steps[k], steps[k + 1], positions[k])
    &&& forall|k: int|
        #![trigger steps[k]]
        0 <= k < steps.len() ==> steps[k].total_rows == before.total_rows && steps[k].compaction_threshold
            == before.compaction_threshold
}

/// What a form holds.
#[verifier::ext_equal]
pub enum ModeView {
    Empty,
    SkipList(Seq<u32>),
    Roaring(Seq<u8>),
    FullBitmap(Seq<u8>),
}

/// What a mask holds.
#[verifier::ext_equal]
pub struct MaskView {
    pub total_rows: u32,
    pub mode: ModeView,
    pub compaction_threshold: Ratio,
}

/// What a form holds.
pub open spec fn mode_view(mode: DelMaskMode) -> ModeView {
    match mode {
        DelMaskMode::Empty => ModeView::Empty,
        DelMaskMode::SkipList(list) => ModeView::SkipList(list@),
        DelMaskMode::Roaring(data) => ModeView::Roaring(data@),
        DelMaskMode::FullBitmap(data) => ModeView::FullBitmap(data@),
    }
}

/// A mask in plain values: the number of rows, the number of the form, the rows
/// of a list, the bytes of a bitmap, and the threshold.
pub type StoredMask = (u32, u8, Vec<u32>, Vec<u8>, (u64, u64));

/// What a mask in plain values says.
pub open spec fn stored_mask_view(m: StoredMask) -> (u32, u8, Seq<u32>, Seq<u8>, (u64, u64)) {
    (m.0, m.1, m.2@, m.3@, m.4)
}

/// The mask in plain values that `postcard` reads from bytes, if it reads one.
pub uninterp spec fn postcard_mask(bytes: Seq<u8>) -> Option<
    (u32, u8, Seq<u32>, Seq<u8>, (u64, u64)),
>;

/// `postcard::to_stdvec`: bytes from which the same is read back. Writing to
/// memory does not fail.
#[verifier::external_body]
fn write_mask(m: &StoredMask) -> (r: Result<Vec<u8>, postcard::Error>)
    ensures
        r is Ok,
        r matches Ok(bytes) ==> postcard_mask(bytes@) == Some(stored_mask_view(*m)),
{
    postcard::to_stdvec(m)
}

/// `postcard::from_bytes`.
#[verifier::external_body]
fn read_mask(bytes: &[u8]) -> (r: Result<StoredMask, postcard::Error>)
    ensures
        match r {
            Ok(m) => postcard_mask(bytes@) == Some(stored_mask_view(m)),
            Err(_) => postcard_mask(bytes@) is None,
        },
{
    postcard::from_bytes(bytes)
}

/// The form with a number. Only a list has rows, and only a bitmap has bytes.
pub open spec fn numbered_mode(number: u8, rows: Seq<u32>, data: Seq<u8>) -> Option<ModeView> {
    if number == 0 && rows.len() == 0 && data.len() == 0 {
        Some(ModeView::Empty)
    } else if number == 1 && data.len() == 0 {
        Some(ModeView::SkipList(rows))
    } else if number == 2 && rows.len() == 0 {
        Some(ModeView::Roaring(data))
    } else if number == 3 && rows.len() == 0 {
        Some(ModeView::FullBitmap(data))
    } else {
        None
    }
}

/// The mask that is stored in bytes.
pub open spec fn stored_mask(bytes: Seq<u8>) -> Option<MaskView> {
    match postcard_mask(bytes) {
        Some((total_rows, number, rows, data, threshold)) => match numbered_mode(number, rows, data) {
            Some(mode) => Some(
                MaskView {
                    total_rows,
                    mode,
                    compaction_threshold: Ratio { num: threshold.0, den: threshold.1 },
                },
            ),
            None => None,
        },
        None => None,
    }
}

impl DelMask {
    /// What the mask holds.
    pub open spec fn held(&self) -> MaskView {
        MaskView {
            total_rows: self.total_rows,
            mode: mode_view(self.mode),
            compaction_threshold: self.compaction_threshold,
        }
    }

    /// The bytes of a stored mask.
    pub fn to_bytes(&self) -> (r: Result<Vec<u8>, RockDuckError>)
        ensures
            match r {
                Ok(bytes) => stored_mask(bytes@) == Some(self.held()),
                Err(_) => false,
            },
    {
        let (number, rows, data): (u8, Vec<u32>, Vec<u8>) = match &self.mode {
            DelMaskMode::Empty => (0, Vec::new(), Vec::new()),
            DelMaskMode::SkipList(list) => {
                let rows = list.clone();
                assert(rows@ =~= list@);
                (1, rows, Vec::new())
            },
            DelMaskMode::Roaring(bits) => (2, Vec::new(), bytes_copy(bits.as_slice())),
            DelMaskMode::FullBitmap(bits) => (3, Vec::new(), bytes_copy(bits.as_slice())),
        };
        let threshold = (self.compaction_threshold.num, self.compaction_threshold.den);
        match write_mask(&(self.total_rows, number, rows, data, threshold)) {
            Ok(bytes) => Ok(bytes),
            Err(_) => Err(RockDuckError::Serialization),
        }
    }

    /// The mask that is stored in bytes.
    pub fn from_bytes(bytes: &[u8]) -> (r: Result<DelMask, RockDuckError>)
        ensures
            match r {
                Ok(m) => stored_mask(bytes@) == Some(m.held()),
                Err(e) => stored_mask(bytes@) is None && e == RockDuckError::Deserialize,
            },
    {
        let (total_rows, number, rows, data, threshold) = match read_mask(bytes) {
            Ok(m) => m,
            Err(_) => {
                return Err(RockDuckError::Deserialize);
            },
        };
        let mode = if number == 0 && rows.len() == 0 && data.len() == 0 {
            DelMaskMode::Empty
        } else if number == 1 && data.len() == 0 {
            DelMaskMode::SkipList(rows)
        } else if number == 2 && rows.len() == 0 {
            DelMaskMode::Roaring(data)
        } else if number == 3 && rows.len() == 0 {
            DelMaskMode::FullBitmap(data)
        } else {
            return Err(RockDuckError::Deserialize);
        };
        Ok(
            DelMask {
                total_rows,
                mode,
                compaction_threshold: Ratio { num: threshold.0, den: threshold.1 },
            },
        )
    }

    /// Whether a list of rows is in ascending order, as it is in every mask that
    /// was made by marking rows.
    pub fn is_ordered(&self) -> (r: bool)
        ensures
            r == self.wf(),
    {
        match &self.mode {
            DelMaskMode::SkipList(list) => {
                let mut i: usize = 1;
                while i < list.len()
                    invariant
                        self.mode == DelMaskMode::SkipList(*list),
                        1 <= i,
                        i <= list@.len() || list@.len() == 0,
                        forall|a: int, b: int| #![auto] 0 <= a < b < i && b < list@.len() ==> list@[a] < list@[b],
                    decreases list@.len() - i,
                {
                    if list[i - 1] >= list[i] {
                        return false;
                    }
                    assert forall|a: int, b: int| #![auto] 0 <= a < b < i + 1 && b < list@.len() implies list@[a]
                        < list@[b] by {
                        if b == i && a < i - 1 {
                            assert(list@[a] < list@[i - 1]);
                        }
                    }
                    i = i + 1;
                }
                true
            },
            _ => true,
        }
    }
}

/// A mask that is read back from the bytes of another marks the same rows of as
/// many, in the same form, and its list is in order if that of the other is.
pub proof fn law_stored_mask_marks_the_same_rows(saved: DelMask, loaded: DelMask, bytes: Seq<u8>)
    requires
        stored_mask(bytes) == Some(saved.held()),
        stored_mask(bytes) == Some(loaded.held()),
    ensures
        loaded.total_rows == saved.total_rows,
        loaded.positions() == saved.positions(),
        form_of(loaded.mode) == form_of(saved.mode),
        loaded.compaction_threshold == saved.compaction_threshold,
        loaded.wf() == saved.wf(),
{
    assert(loaded.positions() =~= saved.positions());
}

impl Default for DelMask {
    fn default() -> (r: Self)
        ensures
            r.wf(),
            r.total_rows == 0,
            r.mode is Empty,
            r.compaction_threshold == (Ratio { num: 0, den: 1 }),
    {
        DelMask {
            total_rows: 0,
            mode: DelMaskMode::Empty,
            compaction_threshold: Ratio { num: 0, den: 1 },
        }
    }
}

proof fn lemma_push_contains(s: Seq<u64>, x: u64, y: u64)
    ensures
        s.push(x).contains(y) <==> s.contains(y) || x == y,
{
    let p = s.push(x);
    if s.contains(y) {
        let i = choose|i: int| 0 <= i < s.len() && s[i] == y;
        assert(p[i] == y);
    }
    if x == y {
        assert(p[s.len() as int] == y);
    }
    if p.contains(y) {
        let i = choose|i: int| 0 <= i < p.len() && p[i] == y;
        if i < s.len() {
            assert(s[i] == y);
        }
    }
}

/// A set of positions of 32 bits is as large as a list of them.
proof fn lemma_same_len(rows: Seq<u32>, set: Set<u64>)
    requires
        ascending_rows(rows),
        forall|p: u64| #[trigger] set.contains(p) <==> p <= u32::MAX && rows.contains(p as u32),
    ensures
        set.len() == rows.len(),
{
    let list = rows.map_values(|r: u32| r as u64);
    assert(lists_positions(list, set)) by {
        assert forall|x: int, y: int| #![auto] 0 <= x < y < list.len() implies list[x] < list[y] by {
            assert(rows[x] < rows[y]);
        }
        assert forall|p: u64| #[trigger] set.contains(p) <==> list.contains(p) by {
            if set.contains(p) {
                let k = choose|k: int| 0 <= k < rows.len() && rows[k] == p as u32;
                assert(list[k] == p);
            }
            if list.contains(p) {
                let k = choose|k: int| 0 <= k < list.len() && list[k] == p;
                assert(rows[k] == p as u32);
            }
        }
    }
    lemma_positions_len(list, set);
}

/// Whether a row is in a list.
fn has_row(list: &Vec<u32>, row: u32) -> (r: bool)
    ensures
        r == list@.contains(row),
{
    let mut i: usize = 0;
    while i < list.len()
        invariant
            i <= list@.len(),
            forall|k: int| #![trigger list@[k]] 0 <= k < i ==> list@[k] != row,
        decreases list@.len() - i,
    {
        if list[i] == row {
            assert(list@[i as int] == row);
            return true;
        }
        i = i + 1;
    }
    false
}

/// Puts a row into its place in a list, unless it is there.
fn insert_row(list: &mut Vec<u32>, row: u32)
    requires
        ascending_rows(old(list)@),
    ensures
        ascending_rows(final(list)@),
        forall|x: u32| #[trigger]
            final(list)@.contains(x) <==> old(list)@.contains(x) || x == row,
{
    let ghost before = list@;
    let mut at: usize = 0;
    while at < list.len() && list[at] < row
        invariant
            at <= list@.len(),
            list@ == before,
            forall|k: int| #![trigger list@[k]] 0 <= k < at ==> list@[k] < row,
        decreases list@.len() - at,
    {
        at = at + 1;
    }
    if at < list.len() && list[at] == row {
        assert(before[at as int] == row);
        return;
    }
    list.insert(at, row);
    proof {
        let after = list@;
        assert forall|x: int, y: int| #![auto] 0 <= x < y < after.len() implies after[x] < after[y] by {
            let x1 = if x < at {
                x
            } else {
                x - 1
            };
            let y1 = if y < at {
                y
            } else {
                y - 1
            };
            if x != at && y != at {
                assert(before[x1] < before[y1]);
            } else if x == at {
                assert(after[y] == before[y1]);
                if y1 > at {
                    assert(before[at as int] < before[y1]);
                }
            }
        }
        assert forall|z: u32| #[trigger] after.contains(z) <==> before.contains(z) || z == row by {
            if before.contains(z) {
                let k = choose|k: int| 0 <= k < before.len() && before[k] == z;
                if k < at {
                    assert(after[k] == z);
                } else {
                    assert(after[k + 1] == z);
                }
            }
            if z == row {
                assert(after[at as int] == z);
            }
            if after.contains(z) {
                let k = choose|k: int| 0 <= k < after.len() && after[k] == z;
                if k < at {
                    assert(before[k] == z);
                } else if k > at {
                    assert(before[k - 1] == z);
                }
            }
        }
    }
}

/// Puts rows into a bitmap.
fn fill_roaring(bitmap: &mut roaring::RoaringBitmap, rows: &Vec<u32>)
    ensures
        roaring_rows(*final(bitmap)) == roaring_rows(*old(bitmap)).union(rows@.to_set()),
{
    let ghost start = roaring_rows(*bitmap);
    let mut i: usize = 0;
    assert(start.union(rows@.take(0).to_set()) =~= start);
    while i < rows.len()
        invariant
            i <= rows@.len(),
            roaring_rows(*bitmap) == start.union(rows@.take(i as int).to_set()),
        decreases rows@.len() - i,
    {
        roaring_insert(bitmap, rows[i]);
        proof {
            let now = rows@.take(i as int);
            let next = rows@.take(i + 1);
            assert(next =~= now.push(rows@[i as int]));
            assert(start.union(next.to_set()) =~= start.union(now.to_set()).insert(rows@[i as int])) by {
                assert forall|x: u32| next.contains(x) <==> now.contains(x) || x == rows@[i as int] by {
                    if now.contains(x) {
                        let k = choose|k: int| 0 <= k < now.len() && now[k] == x;
                        assert(next[k] == x);
                    }
                    if x == rows@[i as int] {
                        assert(next[i as int] == x);
                    }
                    if next.contains(x) {
                        let k = choose|k: int| 0 <= k < next.len() && next[k] == x;
                        if k < i {
                            assert(now[k] == x);
                        }
                    }
                }
            }
        }
        i = i + 1;
    }
    assert(rows@.take(i as int) =~= rows@);
}

/// Appends cleared bytes.
fn grow(data: &mut Vec<u8>, len: usize)
    requires
        len >= old(data)@.len(),
    ensures
        final(data)@.len() == len,
        forall|p: u64| #[trigger] bit_set(final(data)@, p) == bit_set(old(data)@, p),
{
    let ghost before = data@;
    while data.len() < len
        invariant
            before.len() <= data@.len() <= len,
            forall|k: int| #![trigger data@[k]] 0 <= k < before.len() ==> data@[k] == before[k],
            forall|k: int| #![trigger data@[k]] before.len() <= k < data@.len() ==> data@[k] == 0,
        decreases len - data@.len(),
    {
        data.push(0);
    }
    proof {
        assert forall|p: u64| #[trigger] bit_set(data@, p) == bit_set(before, p) by {
            if p / 8 < data@.len() {
                let b = data@[(p / 8) as int];
                if p / 8 >= before.len() {
                    lemma_bit_zero((p % 8) as u8);
                }
            }
        }
    }
}

/// A row that was marked below the end of the segment is deleted.
pub proof fn law_added_row_is_deleted(before: DelMask, after: DelMask, pos: u64)
    requires
        delete_added(before, after, pos),
        pos < before.total_rows,
        after.total_rows == before.total_rows,
    ensures
        pos < after.total_rows && after.positions().contains(pos),
        forall|p: u64| #![trigger after.positions().contains(p)] p < before.total_rows
            && before.positions().contains(p) ==> after.positions().contains(p),
{
    assert(kept_position(form_of(before.mode), pos) == pos);
}

} // verus!
