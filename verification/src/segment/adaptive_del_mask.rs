//! A mask of deleted rows that changes its form with their number: a sorted set
//! below one percent of the rows, a compressed bitmap below thirty percent, a
//! bit for every row from there on.
use vstd::prelude::*;
use crate::bitmap::{bitmap_add, bitmap_cardinality, bitmap_contains, bitmap_list, bitmap_new, bitmap_or, bitmap_range_cardinality, bitmap_rows, lemma_lists_len, lists};
use crate::bits::{bits_count_ones, bits_get, bits_len, bits_new, bits_of, bits_ones, bits_resize, bits_set, lists_ones, max_bits, set_bits, BitVector};
use crate::ordmap::{OrdKey, OrdMap};
use crate::ratio::{below, is_below, Ratio};

verus! {

/// Form of a mask.
#[derive(Debug, Clone, Copy, PartialEq, Eq, Structural)]
pub enum Representation {
    /// A sorted set.
    Sparse,
    /// A compressed bitmap.
    Roaring,
    /// A bit for every row.
    Dense,
}

/// Percent of deleted rows below which a mask is sparse.
pub const SPARSE_THRESHOLD: u64 = 1;

/// Percent of deleted rows below which a mask is a compressed bitmap.
pub const DENSE_THRESHOLD: u64 = 30;

/// The form for a number of deleted rows out of all rows; no rows are none
/// deleted.
pub open spec fn rate_form(deleted: int, total: int) -> Representation {
    if total == 0 || below(deleted, total, Ratio { num: SPARSE_THRESHOLD, den: 100 }) {
        Representation::Sparse
    } else if below(deleted, total, Ratio { num: DENSE_THRESHOLD, den: 100 }) {
        Representation::Roaring
    } else {
        Representation::Dense
    }
}

impl Representation {
    /// The form for a number of deleted rows out of all rows.
    pub fn from_rate(deleted: u64, total: u64) -> (r: Self)
        ensures
            r == rate_form(deleted as int, total as int),
    {
        if total == 0 || is_below(deleted, total, Ratio { num: SPARSE_THRESHOLD, den: 100 }) {
            Representation::Sparse
        } else if is_below(deleted, total, Ratio { num: DENSE_THRESHOLD, den: 100 }) {
            Representation::Roaring
        } else {
            Representation::Dense
        }
    }
}

/// The rows whose bits are set.
pub open spec fn set_rows(bits: Seq<bool>) -> Set<u32> {
    Set::new(|r: u32| r < bits.len() && bits[r as int])
}

/// Whether all rows can have a bit of their own. Where `usize` has 64 bits, all
/// rows can.
pub open spec fn addressable(rows: Set<u32>) -> bool {
    forall|r: u32| #[trigger] rows.contains(r) ==> r < max_bits()
}

/// The rows from one up to another that are not deleted.
pub open spec fn rows_kept(deleted: Set<u32>, start: u32, end: u32) -> Set<u32> {
    Set::new(|r: u32| start <= r < end && !deleted.contains(r))
}

/// The form of the union of two masks: compressed bitmaps and sets make a
/// compressed bitmap, unless one of a set and a bitmap is empty; otherwise the
/// form of the second.
pub open spec fn merged_form(a: Representation, a_empty: bool, b: Representation, b_empty: bool) -> Representation {
    match (a, b) {
        (Representation::Sparse, Representation::Roaring) => if a_empty || b_empty {
            Representation::Sparse
        } else {
            Representation::Roaring
        },
        (Representation::Roaring, Representation::Sparse) => Representation::Roaring,
        _ => b,
    }
}

/// A mask of deleted rows.
#[derive(Debug)]
pub enum AdaptiveDelMask {
    Sparse(OrdMap<u32, ()>),
    Roaring(croaring::Bitmap),
    Dense(BitVector),
}

impl View for AdaptiveDelMask {
    type V = Set<u32>;

    open spec fn view(&self) -> Set<u32> {
        match self {
            AdaptiveDelMask::Sparse(set) => set@.dom(),
            AdaptiveDelMask::Roaring(bm) => bitmap_rows(*bm),
            AdaptiveDelMask::Dense(bv) => set_rows(bits_of(*bv)),
        }
    }
}

/// There are as many set bits as rows whose bits are set.
proof fn lemma_set_rows(bits: Seq<bool>)
    requires
        bits.len() <= 0x1_0000_0000,
    ensures
        set_rows(bits).finite(),
        set_rows(bits).len() == set_bits(bits),
    decreases bits.len(),
{
    if bits.len() == 0 {
        assert(set_rows(bits) =~= Set::empty());
    } else {
        let front = bits.drop_last();
        lemma_set_rows(front);
        let last = (bits.len() - 1) as u32;
        if bits.last() {
            assert(set_rows(bits) =~= set_rows(front).insert(last)) by {
                assert forall|r: u32| set_rows(bits).contains(r) <==> set_rows(front).insert(last).contains(
                    r,
                ) by {
                    if r < front.len() {
                        assert(bits[r as int] == front[r as int]);
                    }
                }
            }
        } else {
            assert(set_rows(bits) =~= set_rows(front)) by {
                assert forall|r: u32| set_rows(bits).contains(r) <==> set_rows(front).contains(r) by {
                    if r < front.len() {
                        assert(bits[r as int] == front[r as int]);
                    }
                }
            }
        }
    }
}

impl AdaptiveDelMask {
    pub open spec fn wf(&self) -> bool {
        match self {
            AdaptiveDelMask::Sparse(set) => set.wf(),
            AdaptiveDelMask::Roaring(_) => true,
            AdaptiveDelMask::Dense(bv) => bits_of(*bv).len() <= 0x1_0000_0000,
        }
    }

    /// The form of the mask.
    pub open spec fn form(&self) -> Representation {
        match self {
            AdaptiveDelMask::Sparse(_) => Representation::Sparse,
            AdaptiveDelMask::Roaring(_) => Representation::Roaring,
            AdaptiveDelMask::Dense(_) => Representation::Dense,
        }
    }

    /// A mask without deleted rows.
    pub fn new() -> (r: Self)
        ensures
            r.wf(),
            r@ == Set::<u32>::empty(),
            r.form() == Representation::Sparse,
    {
        Self::with_representation(Representation::Sparse)
    }

    /// A mask of deleted rows, in the form for their number out of all rows.
    pub fn with_capacity(total_rows: u64, deleted_rows: &[u32]) -> (r: Self)
        ensures
            r.wf(),
            r@ == deleted_rows@.to_set(),
            addressable(r@) ==> r.form() == rate_form(
                deleted_rows@.len() as int,
                total_rows as int,
            ),
    {
        let rep = Representation::from_rate(deleted_rows.len() as u64, total_rows);
        let mut mask = Self::with_representation(rep);
        let ghost all = deleted_rows@;
        let mut i: usize = 0;
        assert(all.take(0).to_set() =~= Set::empty());
        while i < deleted_rows.len()
            invariant
                all == deleted_rows@,
                i <= all.len(),
                mask.wf(),
                mask@ == all.take(i as int).to_set(),
                addressable(mask@) ==> mask.form() == rep,
            decreases all.len() - i,
        {
            let ghost before = mask@;
            mask.delete(deleted_rows[i]);
            proof {
                assert(all.take(i + 1) =~= all.take(i as int).push(all[i as int]));
                lemma_push_row(all.take(i as int), all[i as int]);
                if addressable(mask@) {
                    assert(addressable(before)) by {
                        assert forall|r: u32| #[trigger] before.contains(r) implies r < max_bits() by {
                            assert(mask@.contains(r));
                        }
                    }
                }
            }
            i = i + 1;
        }
        assert(all.take(i as int) =~= all);
        mask
    }

    /// An empty mask of a form.
    fn with_representation(rep: Representation) -> (r: Self)
        ensures
            r.wf(),
            r@ == Set::<u32>::empty(),
            r.form() == rep,
    {
        match rep {
            Representation::Sparse => {
                let r = AdaptiveDelMask::Sparse(OrdMap::new());
                assert(r@ =~= Set::empty());
                r
            },
            Representation::Roaring => AdaptiveDelMask::Roaring(bitmap_new()),
            Representation::Dense => {
                let r = AdaptiveDelMask::Dense(bits_new());
                assert(r@ =~= Set::empty());
                r
            },
        }
    }

    /// Marks a row as deleted. The form stays as it is until
    /// `switch_if_needed` is called.
    pub fn delete(&mut self, row: u32)
        requires
            old(self).wf(),
        ensures
            final(self).wf(),
            final(self)@ == old(self)@.insert(row),
            addressable(final(self)@) ==> final(self).form() == old(self).form(),
    {
        let far = match self {
            AdaptiveDelMask::Dense(_) => row as usize >= usize::MAX / 8,
            _ => false,
        };
        if far {
            let rows = self.to_vec();
            let mut bm = bitmap_new();
            add_rows(&mut bm, &rows);
            bitmap_add(&mut bm, row);
            proof {
                assert(rows@.to_set() =~= self@);
            }
            *self = AdaptiveDelMask::Roaring(bm);
            proof {
                assert(self@ =~= old(self)@.insert(row));
                assert(self@.contains(row));
            }
            return;
        }
        match self {
            AdaptiveDelMask::Sparse(set) => {
                let ghost before = set@.dom();
                let _ = set.insert(row, ());
                assert(set@.dom() =~= before.insert(row));
            },
            AdaptiveDelMask::Roaring(bm) => {
                bitmap_add(bm, row);
            },
            AdaptiveDelMask::Dense(bv) => {
                set_bit(bv, row);
            },
        }
    }

    /// The form of the mask.
    pub fn representation(&self) -> (r: Representation)
        ensures
            r == self.form(),
    {
        match self {
            AdaptiveDelMask::Sparse(_) => Representation::Sparse,
            AdaptiveDelMask::Roaring(_) => Representation::Roaring,
            AdaptiveDelMask::Dense(_) => Representation::Dense,
        }
    }

    /// Gives the mask the form for its number of deleted rows.
    pub fn switch_if_needed(&mut self, total_rows: u64)
        requires
            old(self).wf(),
        ensures
            final(self).wf(),
            final(self)@ == old(self)@,
            addressable(final(self)@) ==> final(self).form() == rate_form(
                old(self)@.len() as int,
                total_rows as int,
            ),
    {
        let target = Representation::from_rate(self.deleted_count(), total_rows);
        if self.representation() != target {
            *self = self.convert_to(target);
        }
    }

    /// The same mask in a form.
    pub fn convert_to(&self, target: Representation) -> (r: Self)
        requires
            self.wf(),
        ensures
            r.wf(),
            r@ == self@,
            addressable(self@) ==> r.form() == target,
    {
        let rows = self.to_vec();
        let mut r = Self::with_representation(target);
        r.delete_all(&rows);
        assert(rows@.to_set() =~= self@);
        assert(r@ =~= self@);
        r
    }

    /// Marks rows as deleted.
    fn delete_all(&mut self, rows: &Vec<u32>)
        requires
            old(self).wf(),
        ensures
            final(self).wf(),
            final(self)@ == old(self)@.union(rows@.to_set()),
            addressable(final(self)@) ==> final(self).form() == old(self).form(),
    {
        let ghost start = self@;
        let ghost form = self.form();
        let mut i: usize = 0;
        assert(start.union(rows@.take(0).to_set()) =~= start);
        while i < rows.len()
            invariant
                i <= rows@.len(),
                self.wf(),
                self@ == start.union(rows@.take(i as int).to_set()),
                addressable(self@) ==> self.form() == form,
            decreases rows@.len() - i,
        {
            let ghost before = self@;
            self.delete(rows[i]);
            proof {
                assert(rows@.take(i + 1) =~= rows@.take(i as int).push(rows@[i as int]));
                lemma_push_row(rows@.take(i as int), rows@[i as int]);
                assert(self@ =~= start.union(rows@.take(i + 1).to_set()));
                if addressable(self@) {
                    assert(addressable(before)) by {
                        assert forall|r: u32| #[trigger] before.contains(r) implies r < max_bits() by {
                            assert(self@.contains(r));
                        }
                    }
                }
            }
            i = i + 1;
        }
        assert(rows@.take(i as int) =~= rows@);
    }

    /// Whether a row is deleted.
    pub fn is_deleted(&self, row: u32) -> (r: bool)
        requires
            self.wf(),
        ensures
            r == self@.contains(row),
    {
        match self {
            AdaptiveDelMask::Sparse(set) => set.contains_key(&row),
            AdaptiveDelMask::Roaring(bm) => bitmap_contains(bm, row),
            AdaptiveDelMask::Dense(bv) => match bits_get(bv, row as usize) {
                Some(bit) => bit,
                None => false,
            },
        }
    }

    /// How many rows are deleted.
    pub fn deleted_count(&self) -> (n: u64)
        requires
            self.wf(),
        ensures
            n == self@.len(),
    {
        match self {
            AdaptiveDelMask::Sparse(set) => {
                proof {
                    set.lemma_dom();
                }
                set.len() as u64
            },
            AdaptiveDelMask::Roaring(bm) => bitmap_cardinality(bm),
            AdaptiveDelMask::Dense(bv) => {
                proof {
                    lemma_set_rows(bits_of(*bv));
                }
                bits_count_ones(bv) as u64
            },
        }
    }

    /// The deleted rows, one after the other.
    pub fn iter(&self) -> (rows: Vec<u32>)
        requires
            self.wf(),
        ensures
            lists(rows@, self@),
    {
        self.to_vec()
    }

    /// The deleted rows, in ascending order.
    pub fn to_vec(&self) -> (rows: Vec<u32>)
        requires
            self.wf(),
        ensures
            lists(rows@, self@),
    {
        match self {
            AdaptiveDelMask::Sparse(set) => {
                let ghost keys = set.keys();
                let mut rows: Vec<u32> = Vec::new();
                let mut i: usize = 0;
                while i < set.len()
                    invariant
                        keys == set.keys(),
                        i <= keys.len(),
                        rows@ == keys.take(i as int),
                    decreases keys.len() - i,
                {
                    rows.push(*set.key_at(i));
                    i = i + 1;
                    assert(rows@ =~= keys.take(i as int));
                }
                proof {
                    assert(rows@ =~= keys);
                    set.lemma_dom();
                    assert forall|a: int, b: int| #![auto] 0 <= a < b < rows@.len() implies rows@[a] < rows@[b] by {
                        assert(<u32 as OrdKey>::before(keys[a], keys[b]));
                    }
                }
                rows
            },
            AdaptiveDelMask::Roaring(bm) => bitmap_list(bm),
            AdaptiveDelMask::Dense(bv) => {
                let ones = bits_ones(bv);
                let ghost bits = bits_of(*bv);
                let mut rows: Vec<u32> = Vec::new();
                let mut i: usize = 0;
                while i < ones.len()
                    invariant
                        i <= ones@.len(),
                        lists_ones(ones@, bits),
                        bits.len() <= 0x1_0000_0000,
                        rows@.len() == i,
                        forall|k: int|
                            #![trigger rows@[k]]
                            0 <= k < i ==> rows@[k] as usize == ones@[k],
                    decreases ones@.len() - i,
                {
                    let at: usize = ones[i];
                    rows.push(at as u32);
                    i = i + 1;
                }
                proof {
                    assert forall|a: int, b: int| #![auto] 0 <= a < b < rows@.len() implies rows@[a] < rows@[b] by {
                        assert(ones@[a] < ones@[b]);
                    }
                    assert forall|x: u32| #[trigger] self@.contains(x) <==> rows@.contains(x) by {
                        if self@.contains(x) {
                            assert(bits[x as int]);
                            let k = choose|k: int| 0 <= k < ones@.len() && ones@[k] == x as usize;
                            assert(rows@[k] == x);
                        }
                        if rows@.contains(x) {
                            let k = choose|k: int| 0 <= k < rows@.len() && rows@[k] == x;
                            assert(ones@[k] == x as usize);
                        }
                    }
                }
                rows
            },
        }
    }

    /// The rows of a range that are not deleted, in ascending order. Where few of
    /// them are deleted, the gaps between the deleted ones are listed; otherwise
    /// every row is looked up.
    pub fn filter_not_deleted(&self, start: u32, end: u32) -> (rows: Vec<u32>)
        requires
            self.wf(),
        ensures
            lists(rows@, rows_kept(self@, start, end)),
    {
        if end <= start {
            let none: Vec<u32> = Vec::new();
            assert(rows_kept(self@, start, end) =~= Set::empty());
            return none;
        }
        let few = match self {
            AdaptiveDelMask::Sparse(set) => {
                let from: usize = set.lower_bound(&start);
                let to: usize = set.lower_bound(&end);
                let count: u64 = if to > from {
                    (to - from) as u64
                } else {
                    0
                };
                is_below(count, (end - start) as u64, Ratio { num: DENSE_THRESHOLD, den: 100 })
            },
            AdaptiveDelMask::Roaring(bm) => {
                let count: u64 = bitmap_range_cardinality(bm, start, end);
                is_below(count, (end - start) as u64, Ratio { num: DENSE_THRESHOLD, den: 100 })
            },
            AdaptiveDelMask::Dense(_) => false,
        };
        if few {
            let deleted = self.to_vec();
            list_gaps(&deleted, Ghost(self@), start, end)
        } else {
            let mut rows: Vec<u32> = Vec::new();
            let mut r: u32 = start;
            while r < end
                invariant
                    self.wf(),
                    start <= r <= end,
                    lists(rows@, rows_kept(self@, start, r)),
                decreases end - r,
            {
                let gone = self.is_deleted(r);
                proof {
                    lemma_kept_step(self@, start, r, rows@);
                }
                if !gone {
                    rows.push(r);
                }
                r = r + 1;
            }
            rows
        }
    }

    /// Marks every row as deleted that another mask marks.
    pub fn merge(&mut self, other: &AdaptiveDelMask)
        requires
            old(self).wf(),
            other.wf(),
        ensures
            final(self).wf(),
            final(self)@ == old(self)@.union(other@),
            addressable(final(self)@) ==> final(self).form() == merged_form(
                old(self).form(),
                old(self)@ =~= Set::<u32>::empty(),
                other.form(),
                other@ =~= Set::<u32>::empty(),
            ),
    {
        let ghost start = self@;
        let mine = self.is_empty();
        let theirs = other.is_empty();
        let rep = self.representation();
        let other_rep = other.representation();
        if let AdaptiveDelMask::Roaring(b) = other {
            if let AdaptiveDelMask::Roaring(a) = self {
                bitmap_or(a, b);
                return;
            }
            if rep == Representation::Sparse && !mine && !theirs {
                let rows = self.to_vec();
                let mut merged = bitmap_new();
                add_rows(&mut merged, &rows);
                bitmap_or(&mut merged, b);
                assert(rows@.to_set() =~= start);
                *self = AdaptiveDelMask::Roaring(merged);
                assert(self@ =~= start.union(other@));
                return;
            }
        }
        let keep = rep == other_rep || (rep == Representation::Sparse && other_rep
            == Representation::Roaring) || (rep == Representation::Roaring && other_rep
            == Representation::Sparse);
        let rows = other.to_vec();
        assert(rows@.to_set() =~= other@);
        if keep {
            self.delete_all(&rows);
            assert(self@ =~= start.union(other@));
        } else {
            let own = self.to_vec();
            assert(own@.to_set() =~= start);
            let mut r = Self::with_representation(other_rep);
            r.delete_all(&own);
            let ghost half = r@;
            r.delete_all(&rows);
            proof {
                assert(half =~= start);
                assert(r@ =~= start.union(other@));
                if addressable(r@) {
                    assert(addressable(half)) by {
                        assert forall|x: u32| #[trigger] half.contains(x) implies x < max_bits() by {
                            assert(r@.contains(x));
                        }
                    }
                }
            }
            *self = r;
        }
    }

    /// Whether no row is deleted.
    pub fn is_empty(&self) -> (r: bool)
        requires
            self.wf(),
        ensures
            r == (self@ =~= Set::<u32>::empty()),
    {
        let rows = self.to_vec();
        proof {
            lemma_lists_len(rows@, self@);
            if rows@.len() > 0 {
                assert(self@.contains(rows@[0]));
            } else {
                assert forall|x: u32| !self@.contains(x) by {
                    if self@.contains(x) {
                        assert(rows@.contains(x));
                    }
                }
            }
        }
        rows.len() == 0
    }
}

impl Default for AdaptiveDelMask {
    fn default() -> (r: Self)
        ensures
            r.wf(),
            r@ == Set::<u32>::empty(),
            r.form() == Representation::Sparse,
    {
        Self::new()
    }
}

/// Sets the bit of a row.
fn set_bit(bv: &mut BitVector, row: u32)
    requires
        bits_of(*old(bv)).len() <= 0x1_0000_0000,
        row < max_bits(),
    ensures
        bits_of(*final(bv)).len() <= 0x1_0000_0000,
        set_rows(bits_of(*final(bv))) == set_rows(bits_of(*old(bv))).insert(row),
{
    let ghost before = bits_of(*bv);
    if row as usize >= bits_len(bv) {
        bits_resize(bv, row as usize + 1);
    }
    let ghost mid = bits_of(*bv);
    bits_set(bv, row as usize, true);
    proof {
        let after = bits_of(*bv);
        assert(set_rows(after) =~= set_rows(before).insert(row)) by {
            assert forall|r: u32| set_rows(after).contains(r) <==> set_rows(before).insert(row).contains(r) by {
                if r < after.len() && r != row {
                    assert(after[r as int] == mid[r as int]);
                }
            }
        }
    }
}

/// Puts rows into a bitmap.
fn add_rows(bm: &mut croaring::Bitmap, rows: &Vec<u32>)
    ensures
        bitmap_rows(*final(bm)) == bitmap_rows(*old(bm)).union(rows@.to_set()),
{
    let ghost start = bitmap_rows(*bm);
    let mut i: usize = 0;
    assert(start.union(rows@.take(0).to_set()) =~= start);
    while i < rows.len()
        invariant
            i <= rows@.len(),
            bitmap_rows(*bm) == start.union(rows@.take(i as int).to_set()),
        decreases rows@.len() - i,
    {
        bitmap_add(bm, rows[i]);
        proof {
            assert(rows@.take(i + 1) =~= rows@.take(i as int).push(rows@[i as int]));
            lemma_push_row(rows@.take(i as int), rows@[i as int]);
            assert(bitmap_rows(*bm) =~= start.union(rows@.take(i + 1).to_set()));
        }
        i = i + 1;
    }
    assert(rows@.take(i as int) =~= rows@);
}

proof fn lemma_push_row(rows: Seq<u32>, row: u32)
    ensures
        rows.push(row).to_set() == rows.to_set().insert(row),
{
    let p = rows.push(row);
    assert forall|y: u32| p.to_set().contains(y) <==> rows.to_set().insert(row).contains(y) by {
        if p.contains(y) {
            let i = choose|i: int| 0 <= i < p.len() && p[i] == y;
            if i < rows.len() {
                assert(rows[i] == y);
            }
        }
        if rows.contains(y) {
            let i = choose|i: int| 0 <= i < rows.len() && rows[i] == y;
            assert(p[i] == y);
        }
        if y == row {
            assert(p[rows.len() as int] == y);
        }
    }
    assert(p.to_set() =~= rows.to_set().insert(row));
}

/// One more row joins a list of kept rows, unless it is deleted.
proof fn lemma_kept_step(deleted: Set<u32>, start: u32, r: u32, rows: Seq<u32>)
    requires
        start <= r < u32::MAX,
        lists(rows, rows_kept(deleted, start, r)),
    ensures
        deleted.contains(r) ==> lists(rows, rows_kept(deleted, start, (r + 1) as u32)),
        !deleted.contains(r) ==> lists(rows.push(r), rows_kept(deleted, start, (r + 1) as u32)),
{
    let was = rows_kept(deleted, start, r);
    let now = rows_kept(deleted, start, (r + 1) as u32);
    if deleted.contains(r) {
        assert(now =~= was);
    } else {
        let p = rows.push(r);
        assert(now =~= was.insert(r));
        lemma_push_row(rows, r);
        assert forall|i: int| #![trigger rows[i]] 0 <= i < rows.len() implies rows[i] < r by {
            assert(rows.contains(rows[i]));
            assert(was.contains(rows[i]));
        }
        assert forall|x: u32| #[trigger] now.contains(x) <==> p.contains(x) by {
            assert(p.to_set().contains(x) <==> rows.to_set().insert(r).contains(x));
            assert(was.contains(x) <==> rows.contains(x));
        }
    }
}

/// Lists the rows of a range between deleted rows, which are in ascending order.
fn list_gaps(deleted: &Vec<u32>, Ghost(set): Ghost<Set<u32>>, start: u32, end: u32) -> (rows: Vec<u32>)
    requires
        lists(deleted@, set),
        start <= end,
    ensures
        lists(rows@, rows_kept(set, start, end)),
{
    let mut rows: Vec<u32> = Vec::new();
    let mut cur: u32 = start;
    let mut i: usize = 0;
    assert(rows_kept(set, start, start) =~= Set::empty());
    while i < deleted.len() && deleted[i] < end
        invariant
            lists(deleted@, set),
            i <= deleted@.len(),
            start <= cur <= end,
            lists(rows@, rows_kept(set, start, cur)),
            forall|k: int| #![trigger deleted@[k]] 0 <= k < i ==> deleted@[k] < cur || deleted@[k] < start,
        decreases deleted@.len() - i,
    {
        let gone: u32 = deleted[i];
        while cur < gone
            invariant
                lists(deleted@, set),
                i < deleted@.len(),
                gone == deleted@[i as int],
                gone < end,
                start <= cur <= end,
                lists(rows@, rows_kept(set, start, cur)),
                forall|k: int|
                    #![trigger deleted@[k]]
                    0 <= k < i ==> deleted@[k] < cur || deleted@[k] < start,
            decreases gone - cur,
        {
            proof {
                lemma_between(deleted@, set, i as int, cur, start);
                lemma_kept_step(set, start, cur, rows@);
            }
            rows.push(cur);
            cur = cur + 1;
        }
        if cur == gone {
            proof {
                assert(deleted@.contains(gone));
                lemma_kept_step(set, start, cur, rows@);
            }
            cur = cur + 1;
        }
        i = i + 1;
    }
    while cur < end
        invariant
            lists(deleted@, set),
            i <= deleted@.len(),
            i < deleted@.len() ==> deleted@[i as int] >= end,
            start <= cur <= end,
            lists(rows@, rows_kept(set, start, cur)),
            forall|k: int| #![trigger deleted@[k]] 0 <= k < i ==> deleted@[k] < cur || deleted@[k] < start,
        decreases end - cur,
    {
        proof {
            lemma_between(deleted@, set, i as int, cur, start);
            lemma_kept_step(set, start, cur, rows@);
        }
        rows.push(cur);
        cur = cur + 1;
    }
    rows
}

/// A row between two neighbours of a list is not in it.
proof fn lemma_between(list: Seq<u32>, set: Set<u32>, i: int, row: u32, start: u32)
    requires
        lists(list, set),
        0 <= i <= list.len(),
        start <= row,
        forall|k: int| #![trigger list[k]] 0 <= k < i ==> list[k] < row || list[k] < start,
        i < list.len() ==> list[i] > row,
    ensures
        !set.contains(row),
{
    if set.contains(row) {
        assert(list.contains(row));
        let k = choose|k: int| 0 <= k < list.len() && list[k] == row;
        if k > i {
            assert(list[i] < list[k]);
        }
    }
}

/// The form for a share of deleted rows is sparse below one percent, a bitmap
/// below thirty, and dense from there on.
pub proof fn law_form_follows_the_rate(deleted: u64, total: u64)
    requires
        total > 0,
    ensures
        (rate_form(deleted as int, total as int) == Representation::Sparse) == (100 * deleted < total),
        (rate_form(deleted as int, total as int) == Representation::Dense) == (100 * deleted >= 30
            * total),
{
}

} // verus!
