//! A sparse index of the primary keys of a sorted segment: one key for every
//! 8192 rows.
//!
//! Stored form: the four bytes `SSIX`, a version byte, four reserved bytes, the
//! number of entries in four little-endian bytes, and the entries.
use vstd::prelude::*;
use crate::codec::{bytes_before, bytes_copy, bytes_less, bytes_range, bytes_append, get_le, le_bytes, le_value, lemma_le_len, lemma_le_round_trip, lemma_pow256, put_le};
use crate::column::{batch_rows, column_fits, fits, kind_of, read_whole_number, value_before, whole_number, Batch, CellKind, Column, ColumnType, ColumnView};
use crate::error::RockDuckError;
use crate::ipc::cell_view;
use crate::ordmap::{is_stable_order, key_views, sorts_before, stable_order};

verus! {

/// Rows from one indexed row to the next.
pub const SPARSE_INDEX_SAMPLE_RATE: u64 = 8192;

/// The version that is written; later ones are not read.
pub const SPARSE_INDEX_VERSION: u8 = 2;

/// Bytes before the entries.
pub const SPARSE_INDEX_HEADER: usize = 13;

/// A row and its primary key.
pub type SparseIndexEntry = (u64, Vec<u8>);

/// The rows and keys of some entries.
pub open spec fn entries_view(entries: Seq<SparseIndexEntry>) -> Seq<(u64, Seq<u8>)> {
    entries.map_values(|e: SparseIndexEntry| (e.0, e.1@))
}

/// `postcard::Error`.
#[verifier::external_type_specification]
#[verifier::external_body]
pub struct ExPostcardError(postcard::Error);

/// The entries that `postcard` reads from bytes, if it reads any.
pub uninterp spec fn postcard_entries(bytes: Seq<u8>) -> Option<Seq<(u64, Seq<u8>)>>;

/// `postcard::to_stdvec` on a vector of entries: bytes from which the same
/// entries are read back. Writing to memory does not fail.
#[verifier::external_body]
fn write_entries(entries: &Vec<SparseIndexEntry>) -> (r: Result<Vec<u8>, postcard::Error>)
    ensures
        r is Ok,
        r matches Ok(bytes) ==> postcard_entries(bytes@) == Some(entries_view(entries@)),
{
    postcard::to_stdvec(entries)
}

/// `postcard::from_bytes` for a vector of entries.
#[verifier::external_body]
fn read_entries(bytes: &[u8]) -> (r: Result<Vec<SparseIndexEntry>, postcard::Error>)
    ensures
        match r {
            Ok(entries) => postcard_entries(bytes@) == Some(entries_view(entries@)),
            Err(_) => postcard_entries(bytes@) is None,
        },
{
    postcard::from_bytes(bytes)
}

/// The four bytes that a stored index starts with.
pub open spec fn index_magic() -> Seq<u8> {
    seq![0x53u8, 0x53u8, 0x49u8, 0x58u8]
}

/// The bytes before the entries.
pub open spec fn index_header(count: nat) -> Seq<u8> {
    index_magic() + seq![SPARSE_INDEX_VERSION] + le_bytes(0, 4) + le_bytes(count, 4)
}

/// The entries of a stored index, or none when it is too short, of another form
/// or version, or does not hold as many entries as it says.
pub open spec fn stored_entries(bytes: Seq<u8>) -> Option<Seq<(u64, Seq<u8>)>> {
    if bytes.len() < SPARSE_INDEX_HEADER || bytes.take(4) != index_magic() || bytes[4]
        > SPARSE_INDEX_VERSION {
        None
    } else {
        match postcard_entries(bytes.skip(SPARSE_INDEX_HEADER as int)) {
            Some(entries) => if entries.len() == le_value(bytes.subrange(9, 13)) {
                Some(entries)
            } else {
                None
            },
            None => None,
        }
    }
}

/// Whether primary keys of a type are written out as text.
pub open spec fn has_text_key(dtype: ColumnType) -> bool {
    match dtype {
        ColumnType::Boolean | ColumnType::Date32 | ColumnType::Date64
        | ColumnType::TimestampSecond | ColumnType::TimestampMillis | ColumnType::TimestampMicros
        | ColumnType::TimestampNanos => true,
        _ => false,
    }
}

/// The decimal digits of a number.
pub open spec fn digits(n: nat) -> Seq<u8>
    decreases n,
{
    if n < 10 {
        seq![(48 + n) as u8]
    } else {
        digits(n / 10).push((48 + n % 10) as u8)
    }
}

/// A value written out: `true` or `false`, or a number in decimal digits. A missing value
/// counts as false or zero.
pub open spec fn text_key(dtype: ColumnType, cell: Option<Seq<u8>>) -> Seq<u8> {
    if dtype == ColumnType::Boolean {
        if cell matches Some(b) && b[0] == 1 {
            seq![116u8, 114u8, 117u8, 101u8]
        } else {
            seq![102u8, 97u8, 108u8, 115u8, 101u8]
        }
    } else {
        let n = match cell {
            Some(b) => whole_number(dtype, b),
            None => 0,
        };
        if n < 0 {
            seq![45u8] + digits((-n) as nat)
        } else {
            digits(n as nat)
        }
    }
}

/// The bytes of a primary key: of a number its little-endian bytes, of a text
/// its bytes, of a byte string its bytes and their number in four little-endian
/// bytes, of a truth value, a date or a time stamp its text. A missing number counts as
/// zero, a missing string as an empty one.
pub open spec fn key_bytes(dtype: ColumnType, cell: Option<Seq<u8>>) -> Seq<u8> {
    if has_text_key(dtype) {
        text_key(dtype, cell)
    } else {
        match kind_of(dtype) {
            CellKind::Signed { width } | CellKind::Unsigned { width } | CellKind::Float { width } =>
                match cell {
                    Some(b) => b,
                    None => le_bytes(0, width as nat),
                },
            CellKind::Bytes => {
                let b = match cell {
                    Some(b) => b,
                    None => Seq::empty(),
                };
                b + le_bytes(b.len() as u32 as nat, 4)
            },
            _ => match cell {
                Some(b) => b,
                None => Seq::empty(),
            },
        }
    }
}

/// Every 8192nd row of a column with its key.
pub open spec fn sampled_entries(c: ColumnView) -> Seq<(u64, Seq<u8>)> {
    Seq::new(
        ((c.cells.len() + 8191) / 8192) as nat,
        |i: int| ((i * 8192) as u64, key_bytes(c.dtype, c.cells[i * 8192])),
    )
}

/// The keys of some entries.
pub open spec fn entry_keys(entries: Seq<(u64, Seq<u8>)>) -> Seq<Seq<u8>> {
    entries.map_values(|e: (u64, Seq<u8>)| e.1)
}

/// The entries in an order.
pub open spec fn in_order(entries: Seq<(u64, Seq<u8>)>, order: Seq<usize>) -> Seq<(u64, Seq<u8>)> {
    Seq::new(order.len(), |i: int| entries[order[i] as int])
}

/// `sorted` has the entries by key, those of one key as they were added.
pub open spec fn is_sorted_by_key(sorted: Seq<(u64, Seq<u8>)>, entries: Seq<(u64, Seq<u8>)>) -> bool {
    exists|order: Seq<usize>| #[trigger]
        is_stable_order::<Vec<u8>>(order, entry_keys(entries)) && sorted == in_order(entries, order)
}

/// The row of the first entry whose key is not below a key.
pub open spec fn first_not_below(sorted: Seq<(u64, Seq<u8>)>, key: Seq<u8>, r: Option<u64>) -> bool {
    match r {
        None => forall|i: int|
            #![trigger sorted[i]]
            0 <= i < sorted.len() ==> bytes_before(sorted[i].1, key),
        Some(row) => exists|i: int|
            #![trigger sorted[i]]
            0 <= i < sorted.len() && sorted[i].0 == row && !bytes_before(sorted[i].1, key)
                && forall|j: int| #![trigger sorted[j]] 0 <= j < i ==> bytes_before(sorted[j].1, key),
    }
}

/// Indexed rows and their primary keys.
#[derive(Debug)]
pub struct SegmentSparseIndex {
    /// As they were added.
    entries: Vec<SparseIndexEntry>,
    /// Positions of the entries, sorted by key.
    order: Vec<usize>,
}

impl SegmentSparseIndex {
    /// The entries as they were added.
    pub closed spec fn added(&self) -> Seq<(u64, Seq<u8>)> {
        entries_view(self.entries@)
    }

    /// The entries that can be searched, by key.
    pub closed spec fn sorted(&self) -> Seq<(u64, Seq<u8>)> {
        in_order(self.added(), self.order@)
    }

    /// What can be searched lies among the entries and is sorted by key.
    pub closed spec fn wf(&self) -> bool {
        &&& forall|i: int| #![trigger self.order@[i]] 0 <= i < self.order@.len() ==> self.order@[i]
            < self.entries@.len()
        &&& forall|i: int, j: int|
            #![trigger self.order@[i], self.order@[j]]
            0 <= i < j < self.order@.len() ==> !bytes_before(
                self.entries@[self.order@[j] as int].1@,
                self.entries@[self.order@[i] as int].1@,
            )
    }

    /// An index without entries.
    pub fn new() -> (r: Self)
        ensures
            r.wf(),
            r.added() == Seq::<(u64, Seq<u8>)>::empty(),
            r.sorted() == Seq::<(u64, Seq<u8>)>::empty(),
    {
        let r = SegmentSparseIndex { entries: Vec::new(), order: Vec::new() };
        assert(r.added() =~= Seq::empty());
        assert(r.sorted() =~= Seq::empty());
        r
    }

    /// Adds a row and its key. It is found once the index is built again.
    pub fn add_sample(&mut self, row_offset: u64, pk_bytes: Vec<u8>)
        requires
            old(self).wf(),
        ensures
            final(self).wf(),
            final(self).added() == old(self).added().push((row_offset, pk_bytes@)),
            final(self).sorted() == old(self).sorted(),
    {
        self.entries.push((row_offset, pk_bytes));
        assert(self.added() =~= old(self).added().push((row_offset, pk_bytes@)));
        proof {
            let was = old(self).entries@;
            assert forall|i: int| #![trigger self.order@[i]] 0 <= i < self.order@.len() implies self.order@[i]
                < self.entries@.len() && self.entries@[self.order@[i] as int]
                == was[self.order@[i] as int] by {}
            assert forall|i: int, j: int|
                #![trigger self.order@[i], self.order@[j]]
                0 <= i < j < self.order@.len() implies !bytes_before(
                self.entries@[self.order@[j] as int].1@,
                self.entries@[self.order@[i] as int].1@,
            ) by {
                assert(old(self).order@[i] == self.order@[i]);
                assert(old(self).order@[j] == self.order@[j]);
            }
        }
        assert(self.sorted() =~= old(self).sorted());
    }

    /// Sorts the entries by key, so that all of them are found. Building again
    /// changes nothing.
    pub fn build(&mut self)
        requires
            old(self).wf(),
        ensures
            final(self).wf(),
            final(self).added() == old(self).added(),
            is_sorted_by_key(final(self).sorted(), final(self).added()),
    {
        let mut keys: Vec<Vec<u8>> = Vec::new();
        let mut i: usize = 0;
        while i < self.entries.len()
            invariant
                *self == *old(self),
                i <= self.entries@.len(),
                keys@.len() == i,
                forall|k: int| #![trigger keys@[k]] 0 <= k < i ==> keys@[k]@ == self.entries@[k].1@,
            decreases self.entries@.len() - i,
        {
            keys.push(bytes_copy(self.entries[i].1.as_slice()));
            i = i + 1;
        }
        let order = stable_order(&keys);
        proof {
            let views = entry_keys(self.added());
            assert(key_views(keys@) =~= views) by {
                assert forall|k: int| 0 <= k < keys@.len() implies key_views(keys@)[k] == #[trigger] views[k] by {
                    assert(keys@[k]@ == self.entries@[k].1@);
                }
            }
            assert forall|a: int, b: int|
                #![trigger order@[a], order@[b]]
                0 <= a < b < order@.len() implies !bytes_before(
                self.entries@[order@[b] as int].1@,
                self.entries@[order@[a] as int].1@,
            ) by {
                let x = order@[a] as int;
                let y = order@[b] as int;
                assert(sorts_before::<Vec<u8>>(views, x, y));
                assert(views[x] == self.entries@[x].1@);
                assert(views[y] == self.entries@[y].1@);
                if bytes_before(views[y], views[x]) {
                    if bytes_before(views[x], views[y]) {
                        crate::codec::lemma_bytes_transitive(views[x], views[y], views[x]);
                    }
                    crate::codec::lemma_bytes_irreflexive(views[x]);
                }
            }
            assert(is_stable_order::<Vec<u8>>(order@, views));
        }
        self.order = order;
        assert(is_stable_order::<Vec<u8>>(self.order@, entry_keys(self.added())));
    }

    /// The row of the first indexed key that is not below a key.
    pub fn find_offset(&self, target_pk: &[u8]) -> (r: Option<u64>)
        requires
            self.wf(),
        ensures
            first_not_below(self.sorted(), target_pk@, r),
    {
        let ghost sorted = self.sorted();
        let mut lo: usize = 0;
        let mut hi: usize = self.order.len();
        while lo < hi
            invariant
                self.wf(),
                sorted == self.sorted(),
                lo <= hi <= self.order@.len() == sorted.len(),
                forall|i: int|
                    #![trigger sorted[i]]
                    0 <= i < lo ==> bytes_before(sorted[i].1, target_pk@),
                forall|i: int|
                    #![trigger sorted[i]]
                    hi <= i < sorted.len() ==> !bytes_before(sorted[i].1, target_pk@),
            decreases hi - lo,
        {
            let mid: usize = lo + (hi - lo) / 2;
            let at: usize = self.order[mid];
            assert(sorted[mid as int].1 == self.entries@[at as int].1@);
            if bytes_less(self.entries[at].1.as_slice(), target_pk) {
                proof {
                    assert forall|i: int| #![trigger sorted[i]] 0 <= i < mid + 1 implies bytes_before(
                        sorted[i].1,
                        target_pk@,
                    ) by {
                        if i < mid {
                            let x = self.order@[i] as int;
                            assert(sorted[i].1 == self.entries@[x].1@);
                            lemma_not_after(
                                self.entries@[x].1@,
                                self.entries@[at as int].1@,
                                target_pk@,
                            );
                        }
                    }
                }
                lo = mid + 1;
            } else {
                proof {
                    assert forall|i: int| #![trigger sorted[i]] mid <= i < sorted.len() implies !bytes_before(
                        sorted[i].1,
                        target_pk@,
                    ) by {
                        if i > mid {
                            let x = self.order@[i] as int;
                            assert(self.order@[mid as int] == at);
                            assert(sorted[i].1 == self.entries@[x].1@);
                            if bytes_before(sorted[i].1, target_pk@) {
                                lemma_not_after(
                                    self.entries@[at as int].1@,
                                    self.entries@[x].1@,
                                    target_pk@,
                                );
                            }
                        }
                    }
                }
                hi = mid;
            }
        }
        if lo < self.order.len() {
            let at: usize = self.order[lo];
            assert(sorted[lo as int] == (self.entries@[at as int].0, self.entries@[at as int].1@));
            Some(self.entries[at].0)
        } else {
            None
        }
    }

    /// The stored form of the index.
    pub fn to_bytes(&self) -> (r: Result<Vec<u8>, RockDuckError>)
        requires
            self.wf(),
        ensures
            match r {
                Ok(bytes) => self.added().len() <= u32::MAX && bytes@.len() >= SPARSE_INDEX_HEADER
                    && bytes@.take(SPARSE_INDEX_HEADER as int) == index_header(self.added().len())
                    && postcard_entries(bytes@.skip(SPARSE_INDEX_HEADER as int)) == Some(
                    self.added(),
                ),
                Err(e) => self.added().len() > u32::MAX && e == RockDuckError::TooLarge,
            },
    {
        if self.entries.len() as u64 > 0xffff_ffff {
            return Err(RockDuckError::TooLarge);
        }
        let payload = match write_entries(&self.entries) {
            Ok(p) => p,
            Err(_) => return Err(RockDuckError::Serialization),
        };
        let mut buf: Vec<u8> = Vec::new();
        buf.push(0x53);
        buf.push(0x53);
        buf.push(0x49);
        buf.push(0x58);
        assert(buf@ =~= index_magic());
        buf.push(SPARSE_INDEX_VERSION);
        proof {
            lemma_pow256();
            lemma_le_len(0, 4);
            lemma_le_len(self.added().len(), 4);
        }
        put_le(&mut buf, 0, 4);
        put_le(&mut buf, self.entries.len() as u64, 4);
        assert(buf@ =~= index_header(self.added().len()));
        let ghost head = buf@;
        bytes_append(&mut buf, payload.as_slice());
        assert(buf@.take(13) =~= head);
        assert(buf@.skip(13) =~= payload@);
        Ok(buf)
    }

    /// Reads a stored index and builds it.
    pub fn from_bytes(bytes: &[u8]) -> (r: Result<Self, RockDuckError>)
        ensures
            match r {
                Ok(index) => index.wf() && stored_entries(bytes@) == Some(index.added())
                    && is_sorted_by_key(index.sorted(), index.added()),
                Err(e) => stored_entries(bytes@) is None && e == RockDuckError::Deserialize,
            },
    {
        if bytes.len() < SPARSE_INDEX_HEADER {
            return Err(RockDuckError::Deserialize);
        }
        let same = bytes[0] == 0x53 && bytes[1] == 0x53 && bytes[2] == 0x49 && bytes[3] == 0x58;
        proof {
            let head = bytes@.take(4);
            if same {
                assert(head =~= index_magic());
            } else {
                assert(head[0] == bytes@[0] && head[1] == bytes@[1] && head[2] == bytes@[2]
                    && head[3] == bytes@[3]);
                let m = index_magic();
                assert(m[0] == 0x53 && m[1] == 0x53 && m[2] == 0x49 && m[3] == 0x58);
            }
        }
        if !same || bytes[4] > SPARSE_INDEX_VERSION {
            return Err(RockDuckError::Deserialize);
        }
        let count: u64 = get_le(bytes, 9, 4);
        let payload = bytes_range(bytes, SPARSE_INDEX_HEADER, bytes.len());
        assert(payload@ =~= bytes@.skip(13));
        let entries = match read_entries(payload.as_slice()) {
            Ok(e) => e,
            Err(_) => return Err(RockDuckError::Deserialize),
        };
        if entries.len() as u64 != count {
            return Err(RockDuckError::Deserialize);
        }
        let mut index = SegmentSparseIndex { entries, order: Vec::new() };
        index.build();
        Ok(index)
    }

    /// The index of a batch that is sorted by a column: every 8192nd row.
    pub fn from_sorted_batch(batch: &Batch, pk_column_idx: usize) -> (r: Self)
        requires
            batch.wf(),
            pk_column_idx < batch@.columns.len(),
            batch_rows(batch@) <= u64::MAX,
        ensures
            r.wf(),
            r.added() == sampled_entries(batch@.columns[pk_column_idx as int]),
            is_sorted_by_key(r.sorted(), r.added()),
    {
        let column: &Column = &batch.columns[pk_column_idx];
        let ghost c = column@;
        assert(batch@.columns[pk_column_idx as int] == c);
        assert(column_fits(c));
        let mut index = Self::new();
        let mut row: usize = 0;
        let ghost mut k: int = 0;
        let total: usize = column.len();
        let ghost all = sampled_entries(c);
        assert(all.take(0) =~= Seq::empty());
        let mut more = total > 0;
        while more
            invariant
                c == column@,
                column.wf(),
                total == c.cells.len(),
                all == sampled_entries(c),
                0 <= k <= all.len(),
                more == (k < all.len()),
                more ==> row == k * 8192 && row < total,
                index.wf(),
                index.added() == all.take(k),
            decreases all.len() - k,
        {
            let key = pk_to_bytes(column, row);
            assert(all[k] == (row as u64, key@));
            index.add_sample(row as u64, key);
            proof {
                assert(all.take(k + 1) =~= all.take(k).push(all[k]));
                k = k + 1;
            }
            if total - row > 8192 {
                row = row + 8192;
            } else {
                more = false;
            }
        }
        assert(all.take(k) =~= all);
        index.build();
        index
    }
}

impl Default for SegmentSparseIndex {
    fn default() -> (r: Self)
        ensures
            r.wf(),
            r.added() == Seq::<(u64, Seq<u8>)>::empty(),
            r.sorted() == Seq::<(u64, Seq<u8>)>::empty(),
    {
        Self::new()
    }
}

/// What comes not after something that comes before a key comes before it too.
proof fn lemma_not_after(a: Seq<u8>, b: Seq<u8>, key: Seq<u8>)
    requires
        !bytes_before(b, a),
        bytes_before(b, key),
    ensures
        bytes_before(a, key),
{
    crate::codec::lemma_bytes_total(a, b);
    if bytes_before(a, b) {
        crate::codec::lemma_bytes_transitive(a, b, key);
    }
}

fn put_digits(buf: &mut Vec<u8>, n: u64)
    ensures
        final(buf)@ == old(buf)@ + digits(n as nat),
    decreases n,
{
    let ghost start = buf@;
    if n >= 10 {
        put_digits(buf, n / 10);
    }
    buf.push((48 + n % 10) as u8);
    assert(buf@ =~= start + digits(n as nat));
}

fn truth_text(value: bool) -> (r: Vec<u8>)
    ensures
        r@ == if value {
            seq![116u8, 114u8, 117u8, 101u8]
        } else {
            seq![102u8, 97u8, 108u8, 115u8, 101u8]
        },
{
    let r: Vec<u8> = if value {
        vec![116, 114, 117, 101]
    } else {
        vec![102, 97, 108, 115, 101]
    };
    r
}

/// The text of the primary key of a row.
fn pk_to_text(column: &Column, row: usize) -> (r: Vec<u8>)
    requires
        column.wf(),
        row < column@.cells.len(),
        has_text_key(column@.dtype),
    ensures
        r@ == text_key(column@.dtype, column@.cells[row as int]),
{
    assert(column@.cells[row as int] == cell_view(column.cells@[row as int]));
    if let Some(b) = &column.cells[row] {
        assert(fits(column.dtype, b@));
    }
    if column.dtype == ColumnType::Boolean {
        return truth_text(
            match &column.cells[row] {
                Some(b) => b[0] == 1,
                None => false,
            },
        );
    }
    let n: i128 = match &column.cells[row] {
        Some(b) => read_whole_number(column.dtype, b.as_slice()),
        None => 0,
    };
    let mut r: Vec<u8> = Vec::new();
    if n < 0 {
        r.push(45);
        put_digits(&mut r, (-n) as u64);
    } else {
        put_digits(&mut r, n as u64);
    }
    assert(r@ =~= text_key(column@.dtype, column@.cells[row as int]));
    r
}

/// The bytes of the primary key of a row.
pub fn pk_to_bytes(column: &Column, row: usize) -> (r: Vec<u8>)
    requires
        column.wf(),
        row < column@.cells.len(),
    ensures
        r@ == key_bytes(column@.dtype, column@.cells[row as int]),
{
    match column.dtype {
        ColumnType::Boolean | ColumnType::Date32 | ColumnType::Date64
        | ColumnType::TimestampSecond | ColumnType::TimestampMillis | ColumnType::TimestampMicros
        | ColumnType::TimestampNanos => return pk_to_text(column, row),
        _ => {},
    }
    assert(column@.cells[row as int] == cell_view(column.cells@[row as int]));
    let mut r: Vec<u8> = match &column.cells[row] {
        Some(b) => bytes_copy(b.as_slice()),
        None => {
            let none: Vec<u8> = Vec::new();
            assert(none@ =~= Seq::empty());
            none
        },
    };
    let empty = match &column.cells[row] {
        Some(_) => false,
        None => true,
    };
    match column.dtype.kind() {
        CellKind::Signed { width } => {
            if empty {
                proof {
                    lemma_pow256();
                }
                put_le(&mut r, 0, width);
                assert(r@ =~= le_bytes(0, width as nat));
            }
            r
        },
        CellKind::Unsigned { width } => {
            if empty {
                proof {
                    lemma_pow256();
                }
                put_le(&mut r, 0, width);
                assert(r@ =~= le_bytes(0, width as nat));
            }
            r
        },
        CellKind::Float { width } => {
            if empty {
                proof {
                    lemma_pow256();
                }
                put_le(&mut r, 0, width);
                assert(r@ =~= le_bytes(0, width as nat));
            }
            r
        },
        CellKind::Bytes => {
            #[verifier::truncate]
            let n: u32 = r.len() as u32;
            proof {
                lemma_pow256();
            }
            put_le(&mut r, n as u64, 4);
            r
        },
        _ => r,
    }
}

/// The keys of texts are in the order of the texts, and equal ones only of equal
/// texts.
pub proof fn law_text_keys_keep_order(dtype: ColumnType, a: Seq<u8>, b: Seq<u8>)
    requires
        dtype == ColumnType::Utf8 || dtype == ColumnType::LargeUtf8,
    ensures
        bytes_before(key_bytes(dtype, Some(a)), key_bytes(dtype, Some(b))) == value_before(dtype, a, b),
        key_bytes(dtype, Some(a)) == key_bytes(dtype, Some(b)) ==> a == b,
{
}

/// The keys of numbers from 0 to 255 are in the order of the numbers.
pub proof fn law_small_number_keys_keep_order(dtype: ColumnType, x: u8, y: u8)
    requires
        kind_of(dtype) is Unsigned,
    ensures
        ({
            let width = (kind_of(dtype)->Unsigned_width) as nat;
            let a = le_bytes(x as nat, width);
            let b = le_bytes(y as nat, width);
            &&& fits(dtype, a) && fits(dtype, b)
            &&& bytes_before(key_bytes(dtype, Some(a)), key_bytes(dtype, Some(b))) == (x < y)
            &&& value_before(dtype, a, b) == (x < y)
        }),
{
    let width = (kind_of(dtype)->Unsigned_width) as nat;
    let a = le_bytes(x as nat, width);
    let b = le_bytes(y as nat, width);
    lemma_pow256();
    lemma_le_len(x as nat, width);
    lemma_le_len(y as nat, width);
    lemma_le_round_trip(x as nat, width);
    lemma_le_round_trip(y as nat, width);
    assert(a[0] == x);
    assert(b[0] == y);
    if x == y {
        crate::codec::lemma_bytes_irreflexive(a);
    }
}

/// A stored index is read back: its entries are those that were added.
pub proof fn law_stored_index_is_read_back(bytes: Seq<u8>, entries: Seq<(u64, Seq<u8>)>)
    requires
        entries.len() <= u32::MAX,
        bytes.len() >= SPARSE_INDEX_HEADER,
        bytes.take(SPARSE_INDEX_HEADER as int) == index_header(entries.len()),
        postcard_entries(bytes.skip(SPARSE_INDEX_HEADER as int)) == Some(entries),
    ensures
        stored_entries(bytes) == Some(entries),
{
    let head = index_header(entries.len());
    lemma_pow256();
    lemma_le_len(0, 4);
    lemma_le_len(entries.len(), 4);
    lemma_le_round_trip(entries.len(), 4);
    assert(bytes.take(4) =~= head.take(4));
    assert(head.take(4) =~= index_magic());
    assert(bytes[4] == head[4]);
    assert(bytes.subrange(9, 13) =~= head.subrange(9, 13));
    assert(head.subrange(9, 13) =~= le_bytes(entries.len(), 4));
}

/// Building an index twice gives what building it once gives.
pub proof fn law_build_is_idempotent(
    entries: Seq<(u64, Seq<u8>)>,
    once: Seq<(u64, Seq<u8>)>,
    twice: Seq<(u64, Seq<u8>)>,
)
    requires
        is_sorted_by_key(once, entries),
        is_sorted_by_key(twice, entries),
    ensures
        once == twice,
{
    let keys = entry_keys(entries);
    let a = choose|order: Seq<usize>| #[trigger]
        is_stable_order::<Vec<u8>>(order, keys) && once == in_order(entries, order);
    let b = choose|order: Seq<usize>| #[trigger]
        is_stable_order::<Vec<u8>>(order, keys) && twice == in_order(entries, order);
    crate::ordmap::lemma_stable_order_unique::<Vec<u8>>(a, b, keys);
}

/// The searched entries are those that were added.
proof fn lemma_sorted_entries(sorted: Seq<(u64, Seq<u8>)>, added: Seq<(u64, Seq<u8>)>)
    requires
        is_sorted_by_key(sorted, added),
        added.len() <= usize::MAX,
    ensures
        sorted.len() == added.len(),
        forall|i: int| #![trigger sorted[i]] 0 <= i < sorted.len() ==> added.contains(sorted[i]),
        forall|i: int| #![trigger added[i]] 0 <= i < added.len() ==> sorted.contains(added[i]),
        forall|i: int, j: int|
            #![trigger sorted[i], sorted[j]]
            0 <= i < j < sorted.len() ==> !bytes_before(sorted[j].1, sorted[i].1),
{
    let keys = entry_keys(added);
    let order = choose|order: Seq<usize>| #[trigger]
        is_stable_order::<Vec<u8>>(order, keys) && sorted == in_order(added, order);
    crate::ordmap::lemma_order_distinct::<Vec<u8>>(order, keys);
    assert forall|i: int| #![trigger sorted[i]] 0 <= i < sorted.len() implies added.contains(sorted[i]) by {
        assert(order[i] < added.len());
        assert(added[order[i] as int] == sorted[i]);
    }
    assert forall|i: int| #![trigger added[i]] 0 <= i < added.len() implies sorted.contains(added[i]) by {
        assert(order.contains(i as usize));
        let k = order.index_of(i as usize);
        assert(order[k] == i);
        assert(sorted[k] == added[i]);
    }
    assert forall|i: int, j: int|
        #![trigger sorted[i], sorted[j]]
        0 <= i < j < sorted.len() implies !bytes_before(sorted[j].1, sorted[i].1) by {
        let x = order[i] as int;
        let y = order[j] as int;
        assert(order[i] < keys.len() && order[j] < keys.len());
        assert(sorts_before::<Vec<u8>>(keys, x, y));
        assert(keys[x] == sorted[i].1 && keys[y] == sorted[j].1);
        if bytes_before(keys[y], keys[x]) {
            if bytes_before(keys[x], keys[y]) {
                crate::codec::lemma_bytes_transitive(keys[x], keys[y], keys[x]);
            }
            crate::codec::lemma_bytes_irreflexive(keys[x]);
        }
    }
}

/// Whether an entry names a row.
pub open spec fn names_row(entries: Seq<(u64, Seq<u8>)>, row: u64) -> bool {
    exists|i: int| 0 <= i < entries.len() && (#[trigger] entries[i]).0 == row
}

/// Each entry of an index of a sorted batch names a row whose number is a multiple of 8192,
/// with the key of that row; and each such row of the batch has one entry.
pub proof fn law_entries_name_their_rows(batch: &Batch, pk: usize, index: SegmentSparseIndex)
    requires
        batch.wf(),
        pk < batch@.columns.len(),
        batch_rows(batch@) <= u64::MAX,
        call_ensures(SegmentSparseIndex::from_sorted_batch, (batch, pk), index),
    ensures
        forall|i: int|
            #![trigger index.added()[i]]
            0 <= i < index.added().len() ==> {
                let (row, key) = index.added()[i];
                &&& row < batch@.columns[pk as int].cells.len()
                &&& row % 8192 == 0
                &&& key == key_bytes(
                    batch@.columns[pk as int].dtype,
                    batch@.columns[pk as int].cells[row as int],
                )
            },
        forall|row: u64|
            row < batch@.columns[pk as int].cells.len() && row % 8192 == 0 ==> #[trigger] names_row(
                index.added(),
                row,
            ),
        forall|i: int, j: int|
            #![trigger index.added()[i], index.added()[j]]
            0 <= i < j < index.added().len() ==> index.added()[i].0 < index.added()[j].0,
{
    let c = batch@.columns[pk as int];
    let added = index.added();
    assert(batch_rows(batch@) == c.cells.len());
    assert forall|i: int| #![trigger added[i]] 0 <= i < added.len() implies added[i].0 == i * 8192 && i * 8192
        < c.cells.len() by {
        assert(i * 8192 < c.cells.len());
    }
    assert forall|row: u64| row < c.cells.len() && row % 8192 == 0 implies #[trigger] names_row(added, row) by {
        let i = row as int / 8192;
        assert(row == i * 8192);
        assert(i < added.len());
        assert(added[i].0 == row);
    }
}

/// A search in a built index gives a row of the least indexed key that is not below the one
/// searched for; none when all indexed keys are below it.
pub proof fn law_search_gives_least_key_not_below(index: &SegmentSparseIndex, key: &[u8], found: Option<u64>)
    requires
        index.wf(),
        is_sorted_by_key(index.sorted(), index.added()),
        index.added().len() <= usize::MAX,
        call_ensures(SegmentSparseIndex::find_offset, (index, key), found),
    ensures
        match found {
            None => forall|i: int|
                #![trigger index.added()[i]]
                0 <= i < index.added().len() ==> bytes_before(index.added()[i].1, key@),
            Some(row) => exists|i: int|
                #![trigger index.added()[i]]
                0 <= i < index.added().len() && index.added()[i].0 == row && !bytes_before(
                    index.added()[i].1,
                    key@,
                ) && forall|j: int|
                    #![trigger index.added()[j]]
                    0 <= j < index.added().len() && !bytes_before(index.added()[j].1, key@)
                        ==> !bytes_before(index.added()[j].1, index.added()[i].1),
        },
{
    let added = index.added();
    let sorted = index.sorted();
    lemma_sorted_entries(sorted, added);
    match found {
        None => {
            assert forall|i: int| #![trigger added[i]] 0 <= i < added.len() implies bytes_before(
                added[i].1,
                key@,
            ) by {
                assert(sorted.contains(added[i]));
                let k = sorted.index_of(added[i]);
                assert(sorted[k] == added[i]);
            }
        },
        Some(row) => {
            let k = choose|k: int|
                #![trigger sorted[k]]
                0 <= k < sorted.len() && sorted[k].0 == row && !bytes_before(sorted[k].1, key@)
                    && forall|j: int| #![trigger sorted[j]] 0 <= j < k ==> bytes_before(sorted[j].1, key@);
            assert(added.contains(sorted[k]));
            let i = added.index_of(sorted[k]);
            assert(added[i] == sorted[k]);
            assert forall|j: int|
                #![trigger added[j]]
                0 <= j < added.len() && !bytes_before(added[j].1, key@) implies !bytes_before(
                added[j].1,
                added[i].1,
            ) by {
                assert(sorted.contains(added[j]));
                let x = sorted.index_of(added[j]);
                assert(sorted[x] == added[j]);
                if x == k {
                    crate::codec::lemma_bytes_irreflexive(added[i].1);
                }
            }
        },
    }
}

/// The key of an indexed row of a sorted batch, if no other indexed row has it, leads to
/// that row.
pub proof fn law_indexed_row_is_found(
    batch: &Batch,
    pk: usize,
    index: SegmentSparseIndex,
    row: u64,
    key: &[u8],
    found: Option<u64>,
)
    requires
        batch.wf(),
        pk < batch@.columns.len(),
        batch_rows(batch@) <= u64::MAX,
        call_ensures(SegmentSparseIndex::from_sorted_batch, (batch, pk), index),
        call_ensures(SegmentSparseIndex::find_offset, (&index, key), found),
        row < batch@.columns[pk as int].cells.len(),
        row % 8192 == 0,
        key@ == key_bytes(batch@.columns[pk as int].dtype, batch@.columns[pk as int].cells[row as int]),
        forall|other: u64|
            other < batch@.columns[pk as int].cells.len() && other % 8192 == 0 && other != row ==> #[trigger] key_bytes(
                batch@.columns[pk as int].dtype,
                batch@.columns[pk as int].cells[other as int],
            ) != key@,
    ensures
        found == Some(row),
{
    let c = batch@.columns[pk as int];
    let added = index.added();
    law_entries_name_their_rows(batch, pk, index);
    assert(batch.columns@[pk as int]@ == c);
    assert(added.len() <= usize::MAX) by {
        assert(c.cells.len() == batch.columns@[pk as int].cells.len());
    }
    law_search_gives_least_key_not_below(&index, key, found);
    assert(names_row(added, row));
    let at = choose|i: int| 0 <= i < added.len() && (#[trigger] added[i]).0 == row;
    assert(added[at].1 == key@);
    crate::codec::lemma_bytes_irreflexive(key@);
    assert(found is Some);
    let i = choose|i: int|
        #![trigger added[i]]
        0 <= i < added.len() && added[i].0 == found->0 && !bytes_before(added[i].1, key@) && forall|j: int|
            #![trigger added[j]]
            0 <= j < added.len() && !bytes_before(added[j].1, key@) ==> !bytes_before(added[j].1, added[i].1);
    assert(!bytes_before(added[at].1, added[i].1));
    crate::codec::lemma_bytes_total(key@, added[i].1);
    assert(added[i].1 == key@);
    let other = added[i].0;
    assert(key_bytes(c.dtype, c.cells[other as int]) == key@);
}

} // verus!
