//! Updates of single values, kept beside the column files and applied when a
//! column is read.
use vstd::prelude::*;
use vstd::utf8::{encode_utf8, valid_utf8};
use crate::codec::{bytes_copy, bytes_range};
use crate::column::{copy_cell, fits, kind_of, number_width, CellKind, Column, ColumnType, ColumnView};
use crate::error::RockDuckError;
use crate::ipc::cell_view;
use crate::ordmap::{lemma_value_changed, OrdMap};
use crate::sums::{lemma_sum_insert, lemma_sum_listed, lemma_sum_part, listed_sum, map_sum};
use crate::text::{is_utf8, text_copy, text_same};

verus! {

/// Bytes that the updates of one mask may take.
pub const MAX_UPDATES_BYTES: usize = 67_108_864;

/// Bytes that an update takes besides the name of its column and its value.
pub const UPDATE_OVERHEAD: usize = 56;

/// The updates of a mask: column and row, and the new value.
pub type Updates = Map<(Seq<char>, u64), Vec<u8>>;

/// Bytes that an update takes.
pub open spec fn update_size(key: (Seq<char>, u64), value: Vec<u8>) -> nat {
    UPDATE_OVERHEAD as nat + encode_utf8(key.0).len() + value@.len()
}

/// Bytes that updates take together.
pub open spec fn updates_size(m: Updates) -> nat
    decreases m.dom().len(),
    when m.dom().finite()
{
    if m.dom().len() == 0 {
        0
    } else {
        let k = m.dom().choose();
        update_size(k, m[k]) + updates_size(m.remove(k))
    }
}

/// What an update takes can be taken out of the sum.
pub proof fn lemma_updates_size(m: Updates, k: (Seq<char>, u64))
    requires
        m.dom().finite(),
        m.dom().contains(k),
    ensures
        updates_size(m) == update_size(k, m[k]) + updates_size(m.remove(k)),
    decreases m.dom().len(),
{
    let c = m.dom().choose();
    assert(m.dom().contains(c));
    assert(m.remove(c).dom() =~= m.dom().remove(c));
    assert(m.remove(k).dom() =~= m.dom().remove(k));
    if c != k {
        lemma_updates_size(m.remove(c), k);
        lemma_updates_size(m.remove(k), c);
        assert(m.remove(c).remove(k) =~= m.remove(k).remove(c));
    }
}

/// What a column takes on when an update is stored.
pub proof fn lemma_updates_insert(m: Updates, k: (Seq<char>, u64), v: Vec<u8>)
    requires
        m.dom().finite(),
    ensures
        updates_size(m.insert(k, v)) == updates_size(m) + update_size(k, v) - if m.dom().contains(k) {
            update_size(k, m[k])
        } else {
            0
        },
{
    let n = m.insert(k, v);
    assert(n.dom() =~= m.dom().insert(k));
    lemma_updates_size(n, k);
    if m.dom().contains(k) {
        lemma_updates_size(m, k);
        assert(n.remove(k) =~= m.remove(k));
    } else {
        assert(n.remove(k) =~= m);
    }
}

/// Whether an update is of a column.
pub open spec fn in_column(col: Seq<char>) -> spec_fn((Seq<char>, u64)) -> bool {
    |k: (Seq<char>, u64)| k.0 == col
}

/// The updates of a column.
pub open spec fn updates_of(m: Updates, col: Seq<char>) -> Set<(Seq<char>, u64)> {
    m.dom().filter(in_column(col))
}

/// Listing each update once counts those of a column.
proof fn lemma_count_of(keys: Seq<(Seq<char>, u64)>, all: Set<(Seq<char>, u64)>, col: Seq<char>)
    requires
        keys.no_duplicates(),
        all == keys.to_set(),
    ensures
        all.filter(in_column(col)).finite(),
        all.filter(in_column(col)).len() == count_of(keys, col),
    decreases keys.len(),
{
    let f = in_column(col);
    if keys.len() == 0 {
        assert(all.filter(f) =~= Set::empty());
    } else {
        let front = keys.drop_last();
        let last = keys.last();
        lemma_count_of(front, front.to_set(), col);
        lemma_key_push(front, last);
        assert(front.push(last) =~= keys);
        assert(!front.contains(last)) by {
            if front.contains(last) {
                let i = choose|i: int| 0 <= i < front.len() && front[i] == last;
                assert(keys[i] == keys[keys.len() - 1]);
            }
        }
        if last.0 == col {
            assert(all.filter(f) =~= front.to_set().filter(f).insert(last));
        } else {
            assert(all.filter(f) =~= front.to_set().filter(f));
        }
    }
}

/// How many of some updates are of a column.
pub open spec fn count_of(keys: Seq<(Seq<char>, u64)>, col: Seq<char>) -> nat
    decreases keys.len(),
{
    if keys.len() == 0 {
        0
    } else {
        count_of(keys.drop_last(), col) + if keys.last().0 == col {
            1nat
        } else {
            0nat
        }
    }
}

/// The value that an update stands for in a column: numbers are read from as
/// many leading bytes as they have, a single byte also for a number of two;
/// bytes that are too few change nothing, bytes that are no text leave no value.
/// Other types are not updated.
pub open spec fn updated_value(dtype: ColumnType, bytes: Seq<u8>, held: Option<Seq<u8>>) -> Option<
    Seq<u8>,
> {
    match dtype {
        ColumnType::Int16 => if bytes.len() >= 2 {
            Some(bytes.take(2))
        } else if bytes.len() == 1 {
            Some(seq![bytes[0], 0u8])
        } else {
            held
        },
        ColumnType::Int8 | ColumnType::UInt8 | ColumnType::UInt16 | ColumnType::Int32
        | ColumnType::UInt32 | ColumnType::Float32 | ColumnType::Int64 | ColumnType::UInt64
        | ColumnType::Float64 => if bytes.len() >= value_width(dtype) {
            Some(bytes.take(value_width(dtype)))
        } else {
            held
        },
        ColumnType::Boolean => Some(
            seq![
                if bytes.len() > 0 && bytes[0] != 0 {
                    1u8
                } else {
                    0u8
                },
            ],
        ),
        ColumnType::Utf8 | ColumnType::LargeUtf8 => if valid_utf8(bytes) {
            Some(bytes)
        } else {
            None
        },
        ColumnType::Binary | ColumnType::LargeBinary => Some(bytes),
        _ => held,
    }
}

/// The bytes of a number.
pub open spec fn value_width(dtype: ColumnType) -> int {
    match kind_of(dtype) {
        CellKind::Signed { width } | CellKind::Unsigned { width } | CellKind::Float { width } =>
            width as int,
        _ => 0,
    }
}

/// A column after its updates.
pub open spec fn updated(c: ColumnView, col: Seq<char>, updates: Updates) -> ColumnView {
    ColumnView {
        dtype: c.dtype,
        cells: Seq::new(
            c.cells.len(),
            |i: int|
                if updates.dom().contains((col, i as u64)) {
                    updated_value(c.dtype, updates[(col, i as u64)]@, c.cells[i])
                } else {
                    c.cells[i]
                },
        ),
    }
}

/// Updates of the columns of a segment.
#[derive(Debug)]
pub struct UpdMask {
    pub total_rows: u64,
    updates: OrdMap<(String, u64), Vec<u8>>,
    current_bytes: usize,
    discarded: u64,
}

impl View for UpdMask {
    type V = Updates;

    closed spec fn view(&self) -> Updates {
        self.updates@
    }
}

impl UpdMask {
    /// The columns and rows of the updates, in order.
    pub closed spec fn keys(&self) -> Seq<(Seq<char>, u64)> {
        self.updates.keys()
    }

    /// The number of rows that the mask was made for.
    pub closed spec fn rows(&self) -> u64 {
        self.total_rows
    }

    /// The bytes that the updates are counted to take.
    pub closed spec fn counted(&self) -> usize {
        self.current_bytes
    }

    /// How many updates were not taken for want of space.
    pub closed spec fn dropped(&self) -> u64 {
        self.discarded
    }

    /// The updates are in order.
    pub closed spec fn ordered(&self) -> bool {
        self.updates.wf()
    }

    /// The updates are in order and counted.
    pub open spec fn wf(&self) -> bool {
        self.ordered() && self.counted() == updates_size(self@)
    }

    /// Each update is listed once, under its column and row.
    pub proof fn lemma_keys(&self)
        requires
            self.ordered(),
        ensures
            self.keys().no_duplicates(),
            self.keys().to_set() == self@.dom(),
            self@.dom().finite(),
            self@.dom().len() == self.keys().len(),
    {
        self.updates.lemma_dom();
    }

    /// A mask without updates.
    pub fn new(total_rows: u64) -> (r: Self)
        ensures
            r.wf(),
            r@ == Map::<(Seq<char>, u64), Vec<u8>>::empty(),
            r.keys() == Seq::<(Seq<char>, u64)>::empty(),
            r.rows() == total_rows,
            r.counted() == 0,
            r.dropped() == 0,
    {
        let r = UpdMask { total_rows, updates: OrdMap::new(), current_bytes: 0, discarded: 0 };
        assert(r.updates@.dom() =~= Set::empty());
        r
    }

    /// A mask that holds stored updates, not yet counted.
    pub fn restored(total_rows: u64, entries: Vec<(String, u64, Vec<u8>)>) -> (r: Self)
        ensures
            r.ordered(),
            r@ == stored_updates(entries@),
            r.rows() == total_rows,
            r.counted() == 0,
            r.dropped() == 0,
    {
        let mut updates: OrdMap<(String, u64), Vec<u8>> = OrdMap::new();
        let ghost all = entries@;
        assert(updates@ =~= stored_updates(all.take(0)));
        for e in it: entries
            invariant
                it.seq() == all,
                updates.wf(),
                updates@ == stored_updates(all.take(it.index() as int)),
        {
            let ghost i = it.index() as int;
            assert(all.take(i + 1).drop_last() =~= all.take(i));
            assert(all[i] == e);
            let _ = updates.insert((e.0, e.1), e.2);
        }
        assert(all.take(all.len() as int) =~= all);
        UpdMask { total_rows, updates, current_bytes: 0, discarded: 0 }
    }

    /// Stores an update, unless the updates would then take more bytes than a
    /// mask may. Gives whether it was stored.
    pub fn set(&mut self, col: &str, pos: u64, value: Vec<u8>) -> (r: bool)
        requires
            old(self).wf(),
        ensures
            final(self).wf(),
            final(self).rows() == old(self).rows(),
            r == (old(self).counted() + update_size((col@, pos), value) <= MAX_UPDATES_BYTES),
            r ==> final(self)@ == old(self)@.insert((col@, pos), value) && final(self).dropped()
                == old(self).dropped(),
            !r ==> final(self)@ == old(self)@ && final(self).keys() == old(self).keys()
                && final(self).dropped() == next_count(old(self).dropped()),
    {
        let size: u128 = UPDATE_OVERHEAD as u128 + col.as_bytes().len() as u128
            + value.len() as u128;
        assert(size == update_size((col@, pos), value));
        if self.current_bytes as u128 + size > MAX_UPDATES_BYTES as u128 {
            self.discarded = self.discarded.wrapping_add(1);
            return false;
        }
        let key = (text_copy(col), pos);
        let ghost before = self.updates@;
        let ghost v = value;
        proof {
            self.updates.lemma_dom();
            lemma_updates_insert(before, (col@, pos), value);
        }
        let held = self.updates.insert(key, value);
        let freed: usize = match held {
            Some(h) => {
                proof {
                    lemma_updates_size(before, (col@, pos));
                }
                UPDATE_OVERHEAD + col.as_bytes().len() + h.len()
            },
            None => 0,
        };
        self.current_bytes = self.current_bytes + size as usize - freed;
        true
    }

    /// Whether there is an update.
    pub fn has_updates(&self) -> (r: bool)
        requires
            self.wf(),
        ensures
            r == !(self@ =~= Map::<(Seq<char>, u64), Vec<u8>>::empty()),
    {
        let n: usize = self.updates.len();
        proof {
            self.updates.lemma_dom();
            if n > 0 {
                self.updates.lemma_index(0);
            }
        }
        n > 0
    }

    /// How many updates a column has.
    pub fn update_count(&self, col: &str) -> (n: usize)
        requires
            self.wf(),
        ensures
            n == updates_of(self@, col@).len(),
    {
        let ghost keys = self.keys();
        let mut n: usize = 0;
        let mut i: usize = 0;
        assert(keys.take(0) =~= Seq::empty());
        while i < self.updates.len()
            invariant
                keys == self.updates.keys(),
                i <= keys.len(),
                n <= i,
                n == count_of(keys.take(i as int), col@),
            decreases keys.len() - i,
        {
            let key = self.updates.key_at(i);
            assert(keys.take(i + 1).drop_last() =~= keys.take(i as int));
            if text_same(key.0.as_str(), col) {
                n = n + 1;
            }
            i = i + 1;
        }
        proof {
            assert(keys.take(i as int) =~= keys);
            self.lemma_keys();
            lemma_count_of(keys, self@.dom(), col@);
        }
        n
    }

    /// How many updates there are.
    pub fn total_updates(&self) -> (n: usize)
        requires
            self.wf(),
        ensures
            n == self@.dom().len(),
    {
        proof {
            self.updates.lemma_dom();
        }
        self.updates.len()
    }

    /// The new value of a row of a column.
    pub fn get(&self, col: &str, pos: u64) -> (r: Option<&Vec<u8>>)
        requires
            self.ordered(),
        ensures
            match r {
                Some(v) => self@.dom().contains((col@, pos)) && *v == self@[(col@, pos)],
                None => !self@.dom().contains((col@, pos)),
            },
    {
        let key = (text_copy(col), pos);
        self.updates.get(&key)
    }

    /// A column after its updates; none when it has no updates.
    pub fn apply(&self, col: &str, original: &Column) -> (r: Option<Column>)
        requires
            self.wf(),
            original.wf(),
        ensures
            match r {
                Some(c) => c.wf() && updates_of(self@, col@).len() > 0 && c@ == updated(
                    original@,
                    col@,
                    self@,
                ),
                None => updates_of(self@, col@).len() == 0,
            },
    {
        if self.update_count(col) == 0 {
            return None;
        }
        let ghost c = original@;
        let mut cells: Vec<Option<Vec<u8>>> = Vec::new();
        let mut i: usize = 0;
        while i < original.cells.len()
            invariant
                self.ordered(),
                original.wf(),
                c == original@,
                i <= original.cells@.len() == c.cells.len(),
                cells@.len() == i,
                forall|k: int|
                    #![trigger cells@[k]]
                    0 <= k < i ==> cell_view(cells@[k]) == updated(c, col@, self@).cells[k],
                forall|k: int|
                    #![trigger cells@[k]]
                    0 <= k < i ==> match cell_view(cells@[k]) {
                        Some(b) => fits(c.dtype, b),
                        None => true,
                    },
            decreases original.cells@.len() - i,
        {
            assert(c.cells[i as int] == cell_view(original.cells@[i as int]));
            let cell = match self.get(col, i as u64) {
                Some(bytes) => update_cell(original.dtype, bytes, &original.cells[i]),
                None => copy_cell(&original.cells[i]),
            };
            cells.push(cell);
            i = i + 1;
        }
        let r = Column { dtype: original.dtype, cells };
        proof {
            assert(r@.cells =~= updated(c, col@, self@).cells);
            assert forall|k: int| #![trigger r@.cells[k]] 0 <= k < r@.cells.len() implies match r@.cells[k] {
                Some(b) => fits(c.dtype, b),
                None => true,
            } by {
                assert(r@.cells[k] == cell_view(cells@[k]));
            }
        }
        Some(r)
    }

    /// The bytes that the updates take, unless they are too many to count.
    fn count_bytes(&self) -> (r: Option<usize>)
        requires
            self.ordered(),
        ensures
            match r {
                Some(n) => n == updates_size(self@),
                None => updates_size(self@) > usize::MAX,
            },
    {
        let mut total: usize = 0;
        let mut i: usize = 0;
        let ghost mut seen: Updates = Map::empty();
        let ghost all = self.updates@;
        let ghost keys = self.updates.keys();
        proof {
            self.updates.lemma_dom();
            assert(seen.dom() =~= keys.take(0).to_set());
        }
        while i < self.updates.len()
            invariant
                self.updates.wf(),
                all == self.updates@,
                keys == self.updates.keys(),
                i <= keys.len(),
                all.dom().finite(),
                keys.no_duplicates(),
                seen.dom() == keys.take(i as int).to_set(),
                seen.dom().finite(),
                forall|k: (Seq<char>, u64)| #[trigger]
                    seen.dom().contains(k) ==> all.dom().contains(k) && seen[k] == all[k],
                total == updates_size(seen),
            decreases keys.len() - i,
        {
            let key = self.updates.key_at(i);
            let value = self.updates.value_at(i);
            let ghost k = keys[i as int];
            let ghost next = seen.insert(k, all[k]);
            proof {
                self.updates.lemma_index(i as int);
                assert(!seen.dom().contains(k)) by {
                    if keys.take(i as int).contains(k) {
                        let j = choose|j: int| 0 <= j < i && keys[j] == k;
                        assert(false);
                    }
                }
                lemma_updates_insert(seen, k, all[k]);
                assert(keys.take(i + 1) =~= keys.take(i as int).push(k));
                assert(next.dom() =~= keys.take(i + 1).to_set()) by {
                    lemma_key_push(keys.take(i as int), k);
                }
                lemma_updates_subset(next, all);
            }
            let size: u128 = UPDATE_OVERHEAD as u128 + key.0.as_str().as_bytes().len() as u128
                + value.len() as u128;
            assert(size == update_size(k, all[k]));
            if total as u128 + size > usize::MAX as u128 {
                return None;
            }
            total = total + size as usize;
            proof {
                seen = next;
            }
            i = i + 1;
        }
        proof {
            assert(keys.take(i as int) =~= keys);
            assert(seen =~= all);
        }
        Some(total)
    }

    /// Counts the bytes that the updates take.
    pub fn recompute_bytes(&mut self)
        requires
            old(self).ordered(),
            updates_size(old(self)@) <= usize::MAX,
        ensures
            final(self).wf(),
            final(self)@ == old(self)@,
            final(self).keys() == old(self).keys(),
            final(self).rows() == old(self).rows(),
            final(self).dropped() == old(self).dropped(),
    {
        if let Some(total) = self.count_bytes() {
            self.current_bytes = total;
        }
    }

    /// The bytes of a stored mask. How many updates were not taken is not stored.
    pub fn to_bytes(&self) -> (r: Result<Vec<u8>, RockDuckError>)
        requires
            self.ordered(),
        ensures
            match r {
                Ok(bytes) => stored_mask(bytes@) == Some((self.rows(), contents(self@))),
                Err(_) => false,
            },
    {
        let ghost keys = self.updates.keys();
        let ghost all = contents(self@);
        let mut entries: Vec<(String, u64, Vec<u8>)> = Vec::new();
        let mut i: usize = 0;
        proof {
            self.updates.lemma_dom();
            assert(update_views(entries@) =~= Seq::empty());
        }
        while i < self.updates.len()
            invariant
                self.updates.wf(),
                keys == self.updates.keys(),
                all == contents(self.updates@),
                i <= keys.len(),
                entries@.len() == i,
                forall|k: (Seq<char>, u64)| #[trigger]
                    stored_contents(update_views(entries@)).dom().contains(k) <==> keys.take(
                        i as int,
                    ).contains(k),
                forall|k: (Seq<char>, u64)| #[trigger]
                    stored_contents(update_views(entries@)).dom().contains(k) ==> stored_contents(
                        update_views(entries@),
                    )[k] == all[k],
            decreases keys.len() - i,
        {
            let key = self.updates.key_at(i);
            let value = bytes_copy(self.updates.value_at(i).as_slice());
            let entry = (key.0.clone(), key.1, value);
            proof {
                self.updates.lemma_index(i as int);
                let k = keys[i as int];
                let before = update_views(entries@);
                let after = update_views(entries@.push(entry));
                assert(after.drop_last() =~= before);
                assert(after.last() == (k.0, k.1, value@));
                assert(k == (k.0, k.1));
                assert(stored_contents(after) == stored_contents(before).insert(k, value@));
                assert(all[k] == value@);
                assert(keys.take(i + 1) =~= keys.take(i as int).push(k));
                lemma_key_push(keys.take(i as int), k);
                assert forall|x: (Seq<char>, u64)| #[trigger]
                    stored_contents(after).dom().contains(x) <==> keys.take(i + 1).contains(x) by {
                    assert(keys.take(i + 1).to_set().contains(x) == keys.take(
                        i as int,
                    ).to_set().insert(k).contains(x));
                    assert(stored_contents(before).dom().contains(x) <==> keys.take(
                        i as int,
                    ).contains(x));
                }
                assert forall|x: (Seq<char>, u64)| #[trigger]
                    stored_contents(after).dom().contains(x) implies stored_contents(after)[x]
                    == all[x] by {
                    if x != k {
                        assert(stored_contents(before).dom().contains(x));
                    }
                }
            }
            entries.push(entry);
            i = i + 1;
        }
        proof {
            assert(keys.take(i as int) =~= keys);
            assert forall|k: (Seq<char>, u64)| #[trigger] all.dom().contains(k) <==> keys.contains(k) by {
                if all.dom().contains(k) {
                    let at = self.updates.lemma_key(k);
                    assert(keys[at] == k);
                }
                if keys.contains(k) {
                    self.updates.lemma_index(keys.index_of(k));
                }
            }
            assert(stored_contents(update_views(entries@)) =~= all);
        }
        match write_updates(&(self.total_rows, entries)) {
            Ok(bytes) => Ok(bytes),
            Err(_) => Err(RockDuckError::Serialization),
        }
    }

    /// The mask that is stored in bytes, its updates counted.
    pub fn from_bytes(bytes: &[u8]) -> (r: Result<UpdMask, RockDuckError>)
        ensures
            match r {
                Ok(m) => m.wf() && m.dropped() == 0 && stored_mask(bytes@) == Some(
                    (m.rows(), contents(m@)),
                ),
                Err(e) => match stored_mask(bytes@) {
                    Some((_, updates)) => e == RockDuckError::TooLarge && contents_size(updates)
                        > usize::MAX,
                    None => e == RockDuckError::Deserialize,
                },
            },
    {
        let (total_rows, entries) = match read_updates(bytes) {
            Ok(m) => m,
            Err(_) => {
                return Err(RockDuckError::Deserialize);
            },
        };
        let ghost all = entries@;
        let mut m = UpdMask::restored(total_rows, entries);
        proof {
            lemma_stored_contents(all);
            m.updates.lemma_dom();
            lemma_contents_size(m@);
        }
        match m.count_bytes() {
            Some(n) => {
                m.current_bytes = n;
                Ok(m)
            },
            None => Err(RockDuckError::TooLarge),
        }
    }

    /// The bytes that the updates are counted to take.
    pub fn current_bytes(&self) -> (n: usize)
        ensures
            n == self.counted(),
    {
        self.current_bytes
    }

    /// How many updates were not taken for want of space.
    pub fn discarded(&self) -> (n: u64)
        ensures
            n == self.dropped(),
    {
        self.discarded
    }
}

impl Default for UpdMask {
    fn default() -> (r: Self)
        ensures
            r.wf(),
            r@ == Map::<(Seq<char>, u64), Vec<u8>>::empty(),
            r.rows() == 0,
            r.dropped() == 0,
    {
        Self::new(0)
    }
}

/// A count that goes on from zero after the greatest number.
pub open spec fn next_count(n: u64) -> u64 {
    if n == u64::MAX {
        0
    } else {
        (n + 1) as u64
    }
}

/// Stored updates, a later one of the same row in place of an earlier.
pub open spec fn stored_updates(entries: Seq<(String, u64, Vec<u8>)>) -> Updates
    decreases entries.len(),
{
    if entries.len() == 0 {
        Map::empty()
    } else {
        let e = entries.last();
        stored_updates(entries.drop_last()).insert((e.0@, e.1), e.2)
    }
}

/// What updates hold: column and row, and the bytes of the new value.
pub open spec fn contents(m: Updates) -> Map<(Seq<char>, u64), Seq<u8>> {
    m.map_values(|v: Vec<u8>| v@)
}

/// Bytes that updates take together, from what they hold.
pub open spec fn contents_size(m: Map<(Seq<char>, u64), Seq<u8>>) -> nat
    decreases m.dom().len(),
    when m.dom().finite()
{
    if m.dom().len() == 0 {
        0
    } else {
        let k = m.dom().choose();
        UPDATE_OVERHEAD as nat + encode_utf8(k.0).len() + m[k].len() + contents_size(m.remove(k))
    }
}

/// The size of updates is that of what they hold.
proof fn lemma_contents_size(m: Updates)
    requires
        m.dom().finite(),
    ensures
        contents_size(contents(m)) == updates_size(m),
    decreases m.dom().len(),
{
    assert(contents(m).dom() =~= m.dom());
    if m.dom().len() > 0 {
        let k = m.dom().choose();
        assert(m.dom().contains(k));
        assert(m.remove(k).dom() =~= m.dom().remove(k));
        assert(contents(m.remove(k)) =~= contents(m).remove(k));
        lemma_contents_size(m.remove(k));
    }
}

/// Columns, rows and values of some entries.
pub open spec fn update_views(entries: Seq<(String, u64, Vec<u8>)>) -> Seq<
    (Seq<char>, u64, Seq<u8>),
> {
    entries.map_values(|e: (String, u64, Vec<u8>)| (e.0@, e.1, e.2@))
}

/// What stored updates hold, a later one of the same row in place of an earlier.
pub open spec fn stored_contents(entries: Seq<(Seq<char>, u64, Seq<u8>)>) -> Map<
    (Seq<char>, u64),
    Seq<u8>,
>
    decreases entries.len(),
{
    if entries.len() == 0 {
        Map::empty()
    } else {
        let e = entries.last();
        stored_contents(entries.drop_last()).insert((e.0, e.1), e.2)
    }
}

proof fn lemma_stored_contents(entries: Seq<(String, u64, Vec<u8>)>)
    ensures
        contents(stored_updates(entries)) == stored_contents(update_views(entries)),
    decreases entries.len(),
{
    let views = update_views(entries);
    if entries.len() == 0 {
        assert(contents(stored_updates(entries)) =~= stored_contents(views));
    } else {
        lemma_stored_contents(entries.drop_last());
        assert(views.drop_last() =~= update_views(entries.drop_last()));
        let e = entries.last();
        assert(views.last() == (e.0@, e.1, e.2@));
        assert(contents(stored_updates(entries)) =~= stored_contents(views));
    }
}

/// A mask in plain values: the number of rows, and the updates.
pub type StoredUpdates = (u64, Vec<(String, u64, Vec<u8>)>);

/// The mask in plain values that `postcard` reads from bytes, if it reads one.
pub uninterp spec fn postcard_updates(bytes: Seq<u8>) -> Option<
    (u64, Seq<(Seq<char>, u64, Seq<u8>)>),
>;

/// `postcard::to_stdvec`: bytes from which the same is read back. Writing to
/// memory does not fail.
#[verifier::external_body]
fn write_updates(m: &StoredUpdates) -> (r: Result<Vec<u8>, postcard::Error>)
    ensures
        r is Ok,
        r matches Ok(bytes) ==> postcard_updates(bytes@) == Some((m.0, update_views(m.1@))),
{
    postcard::to_stdvec(m)
}

/// `postcard::from_bytes`.
#[verifier::external_body]
fn read_updates(bytes: &[u8]) -> (r: Result<StoredUpdates, postcard::Error>)
    ensures
        match r {
            Ok(m) => postcard_updates(bytes@) == Some((m.0, update_views(m.1@))),
            Err(_) => postcard_updates(bytes@) is None,
        },
{
    postcard::from_bytes(bytes)
}

/// The number of rows and the updates of the mask that is stored in bytes.
pub open spec fn stored_mask(bytes: Seq<u8>) -> Option<(u64, Map<(Seq<char>, u64), Seq<u8>>)> {
    match postcard_updates(bytes) {
        Some((total_rows, entries)) => Some((total_rows, stored_contents(entries))),
        None => None,
    }
}

/// Fewer updates take no more bytes.
proof fn lemma_updates_subset(a: Updates, b: Updates)
    requires
        b.dom().finite(),
        a.dom().finite(),
        forall|k: (Seq<char>, u64)| #[trigger]
            a.dom().contains(k) ==> b.dom().contains(k) && a[k] == b[k],
    ensures
        updates_size(a) <= updates_size(b),
    decreases a.dom().len(),
{
    if a.dom().len() > 0 {
        let k = a.dom().choose();
        assert(a.dom().contains(k));
        lemma_updates_size(b, k);
        assert(a.remove(k).dom() =~= a.dom().remove(k));
        lemma_updates_subset(a.remove(k), b.remove(k));
    }
}

proof fn lemma_key_push(keys: Seq<(Seq<char>, u64)>, k: (Seq<char>, u64))
    ensures
        keys.push(k).to_set() == keys.to_set().insert(k),
{
    let p = keys.push(k);
    assert forall|y: (Seq<char>, u64)| p.to_set().contains(y) <==> keys.to_set().insert(k).contains(y) by {
        if p.contains(y) {
            let i = choose|i: int| 0 <= i < p.len() && p[i] == y;
            if i < keys.len() {
                assert(keys[i] == y);
            }
        }
        if keys.contains(y) {
            let i = choose|i: int| 0 <= i < keys.len() && keys[i] == y;
            assert(p[i] == y);
        }
        if y == k {
            assert(p[keys.len() as int] == y);
        }
    }
    assert(p.to_set() =~= keys.to_set().insert(k));
}

/// The value that an update leaves in a cell.
fn update_cell(dtype: ColumnType, bytes: &Vec<u8>, held: &Option<Vec<u8>>) -> (r: Option<Vec<u8>>)
    requires
        held matches Some(h) ==> fits(dtype, h@),
    ensures
        cell_view(r) == updated_value(dtype, bytes@, cell_view(*held)),
        r matches Some(b) ==> fits(dtype, b@),
{
    match dtype {
        ColumnType::Int16 => {
            if bytes.len() >= 2 {
                assert(bytes@.subrange(0, 2) =~= bytes@.take(2));
                Some(bytes_range(bytes.as_slice(), 0, 2))
            } else if bytes.len() == 1 {
                let mut r: Vec<u8> = Vec::new();
                r.push(bytes[0]);
                r.push(0);
                assert(r@ =~= seq![bytes@[0], 0u8]);
                Some(r)
            } else {
                copy_cell(held)
            }
        },
        ColumnType::Int8 | ColumnType::UInt8 | ColumnType::UInt16 | ColumnType::Int32
        | ColumnType::UInt32 | ColumnType::Float32 | ColumnType::Int64 | ColumnType::UInt64
        | ColumnType::Float64 => {
            let width: usize = match dtype.kind() {
                CellKind::Signed { width } => width,
                CellKind::Unsigned { width } => width,
                CellKind::Float { width } => width,
                _ => 0,
            };
            if bytes.len() >= width {
                assert(bytes@.subrange(0, width as int) =~= bytes@.take(width as int));
                Some(bytes_range(bytes.as_slice(), 0, width))
            } else {
                copy_cell(held)
            }
        },
        ColumnType::Boolean => {
            let truth: u8 = if bytes.len() > 0 && bytes[0] != 0 {
                1
            } else {
                0
            };
            let mut r: Vec<u8> = Vec::new();
            r.push(truth);
            assert(r@ =~= seq![truth]);
            Some(r)
        },
        ColumnType::Utf8 | ColumnType::LargeUtf8 => if is_utf8(bytes.as_slice()) {
            Some(bytes_copy(bytes.as_slice()))
        } else {
            None
        },
        ColumnType::Binary | ColumnType::LargeBinary => Some(bytes_copy(bytes.as_slice())),
        _ => copy_cell(held),
    }
}

/// The masks of some segments.
#[derive(Debug)]
pub struct UpdMaskManager {
    masks: OrdMap<String, UpdMask>,
    retired: u64,
}

impl View for UpdMaskManager {
    type V = Map<Seq<char>, UpdMask>;

    closed spec fn view(&self) -> Map<Seq<char>, UpdMask> {
        self.masks@
    }
}

/// How many updates a mask did not take.
pub open spec fn dropped_in() -> spec_fn(UpdMask) -> int {
    |m: UpdMask| m.dropped() as int
}

/// How many updates were not taken, by masks that were removed and by those that
/// are there, modulo the range of `u64`.
pub open spec fn total_dropped(before: u64, masks: Map<Seq<char>, UpdMask>) -> int {
    (before + map_sum(masks, dropped_in())) % 0x1_0000_0000_0000_0000
}

impl UpdMaskManager {
    /// There are finitely many masks.
    pub proof fn lemma_finite(&self)
        requires
            self.ordered(),
        ensures
            self@.dom().finite(),
    {
        self.masks.lemma_dom();
    }

    /// The updates that masks removed since did not take.
    pub closed spec fn dropped_before(&self) -> u64 {
        self.retired
    }

    pub closed spec fn ordered(&self) -> bool {
        self.masks.wf()
    }

    /// Every mask is in order and counted.
    pub open spec fn wf(&self) -> bool {
        self.ordered() && forall|s: Seq<char>| #[trigger]
            self@.dom().contains(s) ==> self@[s].wf()
    }

    pub fn new() -> (r: Self)
        ensures
            r.wf(),
            r@ == Map::<Seq<char>, UpdMask>::empty(),
            r.dropped_before() == 0,
    {
        UpdMaskManager { masks: OrdMap::new(), retired: 0 }
    }

    /// The mask of a segment, an empty one if it had none.
    pub fn get_or_create(&mut self, seg_id: &str, total_rows: u64) -> (r: &mut UpdMask)
        requires
            old(self).wf(),
        ensures
            r.wf(),
            if old(self)@.dom().contains(seg_id@) {
                *r == old(self)@[seg_id@]
            } else {
                r@ == Map::<(Seq<char>, u64), Vec<u8>>::empty() && r.rows() == total_rows
                    && r.dropped() == 0
            },
            final(self).ordered(),
            final(self).dropped_before() == old(self).dropped_before(),
            final(self)@ == old(self)@.insert(seg_id@, *final(r)),
    {
        let key = text_copy(seg_id);
        let at: usize = match self.masks.find(&key) {
            Ok(i) => i,
            Err(_) => {
                let _ = self.masks.insert(text_copy(seg_id), UpdMask::new(total_rows));
                match self.masks.find(&key) {
                    Ok(i) => i,
                    Err(_) => 0,
                }
            },
        };
        let ghost before = self.masks;
        proof {
            before.lemma_index(at as int);
            assert(before.keys()[at as int] == seg_id@);
            assert forall|v: UpdMask| #[trigger] before@.insert(seg_id@, v) == old(self)@.insert(
                seg_id@,
                v,
            ) by {
                assert(before@.insert(seg_id@, v) =~= old(self)@.insert(seg_id@, v));
            }
            assert forall|after: OrdMap<String, UpdMask>|
                #![trigger after.keys()]
                after.keys() == before.keys() && (forall|j: int|
                    0 <= j < before.keys().len() && j != at ==> #[trigger] after.value_of(j)
                        == before.value_of(j)) implies after.wf() && after@ == before@.insert(
                seg_id@,
                after.value_of(at as int),
            ) by {
                lemma_value_changed(before, after, at as int);
            }
        }
        let r = self.masks.value_mut(at);
        r
    }

    /// Removes the mask of a segment.
    pub fn remove(&mut self, seg_id: &str)
        requires
            old(self).wf(),
        ensures
            final(self).wf(),
            final(self)@ == old(self)@.remove(seg_id@),
            final(self).dropped_before() == if old(self)@.dom().contains(seg_id@) {
                ((old(self).dropped_before() + old(self)@[seg_id@].dropped())
                    % 0x1_0000_0000_0000_0000) as u64
            } else {
                old(self).dropped_before()
            },
    {
        let key = text_copy(seg_id);
        match self.masks.remove(&key) {
            Some(mask) => {
                self.retired = self.retired.wrapping_add(mask.discarded());
            },
            None => {},
        }
        assert forall|s: Seq<char>| #[trigger] self@.dom().contains(s) implies self@[s].wf() by {
            assert(old(self)@.dom().contains(s));
        }
    }

    /// The mask of a segment.
    pub fn get(&self, seg_id: &str) -> (r: Option<&UpdMask>)
        requires
            self.ordered(),
        ensures
            match r {
                Some(m) => self@.dom().contains(seg_id@) && *m == self@[seg_id@],
                None => !self@.dom().contains(seg_id@),
            },
    {
        let key = text_copy(seg_id);
        self.masks.get(&key)
    }

    /// How many updates were not taken for want of space, by the masks that are
    /// there and those that were removed.
    pub fn discarded_total(&self) -> (n: u64)
        requires
            self.ordered(),
        ensures
            n == total_dropped(self.dropped_before(), self@),
    {
        let ghost keys = self.masks.keys();
        let mut n: u64 = 0;
        let mut i: usize = 0;
        proof {
            self.masks.lemma_dom();
            assert forall|k: Seq<char>| #[trigger] self@.dom().contains(k) <==> keys.contains(k) by {
                assert(keys.to_set().contains(k) == keys.contains(k));
            }
            lemma_sum_listed(self@, keys, dropped_in());
            assert(keys.take(0) =~= Seq::empty());
        }
        while i < self.masks.len()
            invariant
                self.ordered(),
                keys == self.masks.keys(),
                i <= keys.len(),
                n == listed_sum(self@, keys.take(i as int), dropped_in()) % 0x1_0000_0000_0000_0000,
            decreases keys.len() - i,
        {
            let mask = self.masks.value_at(i);
            proof {
                self.masks.lemma_index(i as int);
                assert(self@[keys[i as int]] == *mask);
                assert(keys.take(i + 1).drop_last() =~= keys.take(i as int));
            }
            n = n.wrapping_add(mask.discarded());
            i = i + 1;
        }
        assert(keys.take(i as int) =~= keys);
        self.retired.wrapping_add(n)
    }
}

impl Default for UpdMaskManager {
    fn default() -> (r: Self)
        ensures
            r.wf(),
            r@ == Map::<Seq<char>, UpdMask>::empty(),
            r.dropped_before() == 0,
    {
        Self::new()
    }
}

/// The updates of some columns, added up.
pub open spec fn count_in(m: Updates, cols: Seq<Seq<char>>) -> nat
    decreases cols.len(),
{
    if cols.len() == 0 {
        0
    } else {
        count_in(m, cols.drop_last()) + updates_of(m, cols.last()).len()
    }
}

proof fn lemma_count_in(m: Updates, cols: Seq<Seq<char>>)
    requires
        m.dom().finite(),
        cols.no_duplicates(),
    ensures
        count_in(m, cols) == m.dom().filter(|k: (Seq<char>, u64)| cols.contains(k.0)).len(),
    decreases cols.len(),
{
    let f = |k: (Seq<char>, u64)| cols.contains(k.0);
    if cols.len() == 0 {
        assert(m.dom().filter(f) =~= Set::empty());
    } else {
        let front = cols.drop_last();
        let last = cols.last();
        let g = |k: (Seq<char>, u64)| front.contains(k.0);
        let a = m.dom().filter(g);
        let b = updates_of(m, last);
        lemma_count_in(m, front);
        assert(!front.contains(last)) by {
            if front.contains(last) {
                let i = choose|i: int| 0 <= i < front.len() && front[i] == last;
                assert(cols[i] == cols[cols.len() - 1]);
            }
        }
        assert(a.disjoint(b));
        assert(m.dom().filter(f) =~= a + b) by {
            assert forall|k: (Seq<char>, u64)| #[trigger] m.dom().filter(f).contains(k) <==> (a + b).contains(k) by {
                if cols.contains(k.0) {
                    let i = choose|i: int| 0 <= i < cols.len() && cols[i] == k.0;
                    if i < front.len() {
                        assert(front[i] == k.0);
                    }
                }
                if front.contains(k.0) {
                    let i = choose|i: int| 0 <= i < front.len() && front[i] == k.0;
                    assert(cols[i] == k.0);
                }
                if k.0 == last {
                    assert(cols[cols.len() - 1] == k.0);
                }
            }
        }
        vstd::set_lib::lemma_set_disjoint_lens(a, b);
    }
}

/// The number of all updates is that of each column, added up; and it is not zero
/// exactly when there is an update.
pub proof fn law_updates_add_up(m: Updates, cols: Seq<Seq<char>>)
    requires
        m.dom().finite(),
        cols.no_duplicates(),
        forall|k: (Seq<char>, u64)| #[trigger] m.dom().contains(k) ==> cols.contains(k.0),
    ensures
        m.dom().len() == count_in(m, cols),
        m.dom().len() > 0 <==> !(m =~= Map::<(Seq<char>, u64), Vec<u8>>::empty()),
{
    lemma_count_in(m, cols);
    assert(m.dom().filter(|k: (Seq<char>, u64)| cols.contains(k.0)) =~= m.dom());
    if m.dom().len() == 0 {
        assert(m =~= Map::<(Seq<char>, u64), Vec<u8>>::empty());
    }
}

/// An update that a mask did not take raises the number of those that were not
/// taken by one, an update that it took leaves it, and so does the removal of a
/// mask.
pub proof fn law_refused_updates_are_counted(
    before: u64,
    masks: Map<Seq<char>, UpdMask>,
    seg_id: Seq<char>,
    after: UpdMask,
    taken: bool,
)
    requires
        masks.dom().finite(),
        ({
            let held = if masks.dom().contains(seg_id) {
                masks[seg_id].dropped()
            } else {
                0
            };
            after.dropped() == if taken {
                held
            } else {
                next_count(held)
            }
        }),
    ensures
        total_dropped(before, masks.insert(seg_id, after)) == if taken {
            total_dropped(before, masks)
        } else {
            (total_dropped(before, masks) + 1) % 0x1_0000_0000_0000_0000
        },
        masks.dom().contains(seg_id) ==> total_dropped(
            ((before + masks[seg_id].dropped()) % 0x1_0000_0000_0000_0000) as u64,
            masks.remove(seg_id),
        ) == total_dropped(before, masks),
{
    let held: u64 = if masks.dom().contains(seg_id) {
        masks[seg_id].dropped()
    } else {
        0
    };
    let sum = map_sum(masks, dropped_in());
    lemma_sum_insert(masks, seg_id, after, dropped_in());
    assert(map_sum(masks.insert(seg_id, after), dropped_in()) == sum + after.dropped() - held);
    lemma_next_dropped(before + sum, held);
    if masks.dom().contains(seg_id) {
        lemma_sum_part(masks, seg_id, dropped_in());
        let rest = map_sum(masks.remove(seg_id), dropped_in());
        assert(sum == held + rest);
        lemma_dropped_moved(before as int, held as int, rest);
    }
}

proof fn lemma_next_dropped(x: int, held: u64)
    ensures
        (x + next_count(held) - held) % 0x1_0000_0000_0000_0000 == (x % 0x1_0000_0000_0000_0000 + 1)
            % 0x1_0000_0000_0000_0000,
{
}

proof fn lemma_dropped_moved(a: int, b: int, c: int)
    ensures
        ((a + b) % 0x1_0000_0000_0000_0000 + c) % 0x1_0000_0000_0000_0000 == (a + (b + c))
            % 0x1_0000_0000_0000_0000,
{
}

/// An update that fits is read back, and no other row is touched.
pub proof fn law_update_is_read_back(m: Updates, col: Seq<char>, pos: u64, v: Vec<u8>, other: (Seq<char>, u64))
    ensures
        m.insert((col, pos), v)[(col, pos)] == v,
        other != (col, pos) ==> (m.insert((col, pos), v).dom().contains(other) == m.dom().contains(other)
            && (m.dom().contains(other) ==> m.insert((col, pos), v)[other] == m[other])),
{
}

/// A mask that is read back from the bytes of another holds the same updates of
/// as many rows.
pub proof fn law_stored_mask_holds_the_same_updates(
    saved: UpdMask,
    loaded: UpdMask,
    bytes: Seq<u8>,
    key: (Seq<char>, u64),
)
    requires
        stored_mask(bytes) == Some((saved.rows(), contents(saved@))),
        stored_mask(bytes) == Some((loaded.rows(), contents(loaded@))),
    ensures
        loaded.rows() == saved.rows(),
        loaded@.dom().contains(key) == saved@.dom().contains(key),
        saved@.dom().contains(key) ==> loaded@[key]@ == saved@[key]@,
{
    assert(contents(saved@).dom().contains(key) == contents(loaded@).dom().contains(key));
    assert(contents(saved@)[key] == contents(loaded@)[key]);
}

/// Updates touch no row of a column that they do not name.
pub proof fn law_apply_leaves_other_rows(c: ColumnView, col: Seq<char>, updates: Updates, row: int)
    requires
        0 <= row < c.cells.len(),
        row <= u64::MAX,
        !updates.dom().contains((col, row as u64)),
    ensures
        updated(c, col, updates).cells[row] == c.cells[row],
        updated(c, col, updates).dtype == c.dtype,
        updated(c, col, updates).cells.len() == c.cells.len(),
{
}

/// A value that was set for a row of a column is what the column has there after the
/// updates: of a number its bytes, which are as many as the type has; of a truth value
/// whether its first byte is not zero; of a text or of bytes the value itself. Bytes that are
/// no text leave a text without a value; too few bytes leave a number as it was.
pub proof fn law_update_is_applied(mask: &UpdMask, col: &str, original: &Column, r: Column, row: int)
    requires
        mask.wf(),
        original.wf(),
        call_ensures(UpdMask::apply, (mask, col, original), Some(r)),
        0 <= row < original@.cells.len(),
        row <= u64::MAX,
        mask@.dom().contains((col@, row as u64)),
    ensures
        r@.dtype == original@.dtype,
        r@.cells.len() == original@.cells.len(),
        ({
            let value = mask@[(col@, row as u64)]@;
            let was = original@.cells[row];
            let now = r@.cells[row];
            let dtype = original@.dtype;
            match number_width(dtype) {
                Some(width) => {
                    &&& value.len() == width ==> now == Some(value)
                    &&& value.len() > width ==> now == Some(value.take(width))
                    &&& value.len() < width && dtype != ColumnType::Int16 ==> now == was
                    &&& dtype == ColumnType::Int16 && value.len() == 1 ==> now == Some(
                        seq![value[0], 0u8],
                    )
                    &&& dtype == ColumnType::Int16 && value.len() == 0 ==> now == was
                },
                None => {
                    &&& dtype == ColumnType::Boolean ==> now == Some(
                        if value.len() > 0 && value[0] != 0 {
                            seq![1u8]
                        } else {
                            seq![0u8]
                        },
                    )
                    &&& dtype == ColumnType::Utf8 || dtype == ColumnType::LargeUtf8 ==> now == if valid_utf8(
                        value,
                    ) {
                        Some(value)
                    } else {
                        None
                    }
                    &&& dtype == ColumnType::Binary || dtype == ColumnType::LargeBinary ==> now == Some(
                        value,
                    )
                    &&& dtype != ColumnType::Boolean && dtype != ColumnType::Utf8 && dtype
                        != ColumnType::LargeUtf8 && dtype != ColumnType::Binary && dtype
                        != ColumnType::LargeBinary ==> now == was
                },
            }
        }),
{
    let value = mask@[(col@, row as u64)]@;
    assert(r@.cells[row] == updated_value(original@.dtype, value, original@.cells[row]));
    if let Some(width) = number_width(original@.dtype) {
        if value.len() == width {
            assert(value.take(width) =~= value);
        }
    }
}

/// A row for which nothing was set stays as it was; a column for which nothing was set is
/// not changed at all.
pub proof fn law_apply_is_by_row(mask: &UpdMask, col: &str, original: &Column, r: Option<Column>, row: int)
    requires
        mask.wf(),
        original.wf(),
        call_ensures(UpdMask::apply, (mask, col, original), r),
        0 <= row < original@.cells.len(),
        row <= u64::MAX,
    ensures
        r is None ==> !mask@.dom().contains((col@, row as u64)),
        r is Some ==> exists|pos: u64| #[trigger] mask@.dom().contains((col@, pos)),
        r is Some && !mask@.dom().contains((col@, row as u64)) ==> (r->0)@.cells[row]
            == original@.cells[row],
{
    let mine = updates_of(mask@, col@);
    mask.lemma_keys();
    if r is None {
        if mask@.dom().contains((col@, row as u64)) {
            assert(mine.contains((col@, row as u64)));
            assert(mine.finite());
            assert(mine.remove((col@, row as u64)).len() + 1 == mine.len());
        }
    } else {
        let k = mine.choose();
        assert(mine.finite());
        assert(mine.contains(k)) by {
            if mine =~= Set::empty() {
                assert(mine.len() == 0);
            }
        }
        assert(k.0 == col@);
        assert(mask@.dom().contains((col@, k.1)));
    }
}

} // verus!
