//! Choice between the sparse and the dense patch format.
//!
//! A patch is sparse when it touches less than one percent of the rows or less
//! than a thousand rows; segments above a million rows always use the dense
//! format.
use vstd::prelude::*;
use crate::bitmap::{bitmap_contains, bitmap_list, bitmap_of, bitmap_rows, lists, portable_rows};
use crate::codec::bytes_copy;
use crate::error::RockDuckError;
use crate::ipc::{cell_view, cells_size, cells_view, decode_arrow_array, encode_arrow_array, ipc_column};
use crate::ratio::{below, is_below, Ratio};
use crate::storage::delta::merge::{last_place, lemma_last_place};
use crate::storage::delta::types::{DeltaPatchFormat, FormatView, ZoneMap};

verus! {

/// Chooses between the sparse and the dense patch format.
#[derive(Debug, Clone, Copy, PartialEq, Eq, Structural)]
pub struct SparsitySelector {
    /// Fraction of touched rows below which a patch is sparse.
    pub threshold: Ratio,
    /// Row count above which every patch is dense.
    pub dense_force_rows: usize,
}

impl Default for SparsitySelector {
    fn default() -> (r: Self)
        ensures
            r.threshold == (Ratio { num: 1, den: 100 }),
            r.dense_force_rows == 1_000_000,
    {
        SparsitySelector { threshold: Ratio { num: 1, den: 100 }, dense_force_rows: 1_000_000 }
    }
}

/// When a patch of `affected` rows out of `total_rows` is stored sparse.
pub open spec fn chooses_sparse(sel: SparsitySelector, total_rows: u64, affected: nat) -> bool {
    &&& total_rows > 0
    &&& affected > 0
    &&& total_rows <= sel.dense_force_rows
    &&& affected < sel.dense_force_rows
    &&& (below(affected as int, total_rows as int, sel.threshold) || affected < 1000)
}

impl SparsitySelector {
    pub fn new() -> (r: Self)
        ensures
            r.threshold == (Ratio { num: 1, den: 100 }),
            r.dense_force_rows == 1_000_000,
    {
        Self::default()
    }

    /// Whether to use the sparse format.
    pub fn should_use_sparse(&self, total_rows: u64, affected: usize) -> (r: bool)
        ensures
            r == chooses_sparse(*self, total_rows, affected as nat),
    {
        if total_rows == 0 || affected == 0 {
            return false;
        }
        if total_rows > self.dense_force_rows as u64 {
            return false;
        }
        if affected >= self.dense_force_rows {
            return false;
        }
        is_below(affected as u64, total_rows, self.threshold) || affected < 1000
    }

    /// Chooses the format and encodes the values: one for each of the touched rows,
    /// or, in the dense format, one for each row, nulls for the rows that were not
    /// touched.
    ///
    /// `positions` are the touched rows, `values` one value for each of them and
    /// `txn_id` the highest transaction among them.
    pub fn build_format(
        &self,
        positions: &[u32],
        values: &Vec<Option<Vec<u8>>>,
        total_rows: u64,
        txn_id: u64,
    ) -> (r: Result<DeltaPatchFormat, RockDuckError>)
        ensures
            match r {
                Ok(f) => !format_fails(*self, positions@, cells_view(values@), total_rows) && match f@ {
                    FormatView::Sparse { positions: p, values: v, affected_count } => {
                        &&& chooses_sparse(*self, total_rows, positions@.len())
                        &&& portable_rows(p) == positions@.to_set()
                        &&& affected_count == positions@.to_set().len()
                        &&& ipc_column(v) == Some((values@.len(), Some(cells_view(values@))))
                    },
                    FormatView::Dense { values: v, total_rows: t, txn_id: x } => {
                        &&& !chooses_sparse(*self, total_rows, positions@.len())
                        &&& t == total_rows
                        &&& x == txn_id
                        &&& ipc_column(v) == Some(
                            (
                                total_rows as nat,
                                Some(spread(positions@, cells_view(values@), total_rows as nat)),
                            ),
                        )
                    },
                },
                Err(e) => format_fails(*self, positions@, cells_view(values@), total_rows) && e
                    == RockDuckError::TooLarge,
            },
    {
        if self.should_use_sparse(total_rows, positions.len()) {
            match encode_arrow_array(values) {
                Ok(encoded) => Ok(DeltaPatchFormat::sparse(positions_to_roaring(positions), encoded)),
                Err(e) => Err(e),
            }
        } else {
            if total_rows > MAX_DENSE_ROWS {
                return Err(RockDuckError::TooLarge);
            }
            let dense = spread_values(positions, values, total_rows as usize);
            match encode_arrow_array(&dense) {
                Ok(encoded) => Ok(DeltaPatchFormat::dense(encoded, total_rows, txn_id)),
                Err(e) => Err(e),
            }
        }
    }
}

/// Most rows of a dense patch: with one more, the places of its values alone would
/// fill the largest payload of a patch file.
pub const MAX_DENSE_ROWS: u64 = 67_108_863;

/// One cell for each of `n` rows: for a row among `positions` the value of its place,
/// of its last place if it is listed more than once, and for every other row none.
pub open spec fn spread(positions: Seq<u32>, values: Seq<Option<Seq<u8>>>, n: nat) -> Seq<
    Option<Seq<u8>>,
> {
    Seq::new(
        n,
        |i: int|
            match last_place(positions, i) {
                Some(a) => if a < values.len() {
                    values[a]
                } else {
                    None
                },
                None => None,
            },
    )
}

/// When values are too large for a patch: in the dense format also when there are too
/// many rows.
pub open spec fn format_fails(
    sel: SparsitySelector,
    positions: Seq<u32>,
    values: Seq<Option<Seq<u8>>>,
    total_rows: u64,
) -> bool {
    if chooses_sparse(sel, total_rows, positions.len()) {
        cells_size(values) > i32::MAX
    } else {
        total_rows > MAX_DENSE_ROWS || cells_size(spread(positions, values, total_rows as nat))
            > i32::MAX
    }
}

/// Lays values out over rows.
fn spread_values(positions: &[u32], values: &Vec<Option<Vec<u8>>>, n: usize) -> (r: Vec<
    Option<Vec<u8>>,
>)
    ensures
        r@.len() == n,
        cells_view(r@) == spread(positions@, cells_view(values@), n as nat),
{
    let ghost views = cells_view(values@);
    let mut r: Vec<Option<Vec<u8>>> = Vec::new();
    while r.len() < n
        invariant
            r@.len() <= n,
            forall|i: int| #![trigger r@[i]] 0 <= i < r@.len() ==> r@[i] is None,
        decreases n - r@.len(),
    {
        r.push(None);
    }
    let mut a: usize = 0;
    assert(positions@.take(0) =~= Seq::empty());
    assert(cells_view(r@) =~= spread(positions@.take(0), views, n as nat));
    while a < positions.len()
        invariant
            a <= positions@.len(),
            r@.len() == n,
            views == cells_view(values@),
            cells_view(r@) == spread(positions@.take(a as int), views, n as nat),
        decreases positions@.len() - a,
    {
        let ghost before = r@;
        let ghost next = positions@.take(a + 1);
        assert(next.drop_last() =~= positions@.take(a as int));
        let p: u32 = positions[a];
        if (p as usize) < n {
            let cell = if a < values.len() {
                match &values[a] {
                    Some(b) => Some(bytes_copy(b.as_slice())),
                    None => None,
                }
            } else {
                None
            };
            r.set(p as usize, cell);
            assert(cells_view(r@) =~= cells_view(before).update(p as int, cell_view(cell)));
        }
        assert(cells_view(r@) =~= spread(next, views, n as nat));
        a = a + 1;
    }
    assert(positions@.take(a as int) =~= positions@);
    r
}

/// Cells have one value more when one of them gets its value.
proof fn lemma_size_set(cells: Seq<Option<Seq<u8>>>, i: int, b: Seq<u8>)
    requires
        0 <= i < cells.len(),
        cells[i] is None,
    ensures
        cells_size(cells.update(i, Some(b))) == cells_size(cells) + b.len(),
    decreases cells.len(),
{
    let set = cells.update(i, Some(b));
    if i == cells.len() - 1 {
        assert(set.drop_last() =~= cells.drop_last());
    } else {
        assert(set.drop_last() =~= cells.drop_last().update(i, Some(b)));
        lemma_size_set(cells.drop_last(), i, b);
    }
}

proof fn lemma_size_none(cells: Seq<Option<Seq<u8>>>)
    requires
        forall|i: int| #![trigger cells[i]] 0 <= i < cells.len() ==> cells[i] is None,
    ensures
        cells_size(cells) == 0,
    decreases cells.len(),
{
    if cells.len() > 0 {
        lemma_size_none(cells.drop_last());
    }
}

/// Values that are laid out over rows, each in its own, are as large as before.
pub proof fn lemma_spread_size(positions: Seq<u32>, values: Seq<Option<Seq<u8>>>, n: nat)
    requires
        values.len() == positions.len(),
        forall|a: int, b: int| #![auto] 0 <= a < b < positions.len() ==> positions[a] < positions[b],
        forall|a: int| #![trigger positions[a]] 0 <= a < positions.len() ==> positions[a] < n,
    ensures
        cells_size(spread(positions, values, n)) == cells_size(values),
    decreases positions.len(),
{
    let dense = spread(positions, values, n);
    if positions.len() == 0 {
        lemma_size_none(dense);
    } else {
        let front = positions.drop_last();
        let rest = values.drop_last();
        let before = spread(front, rest, n);
        let p = positions.last() as int;
        lemma_spread_size(front, rest, n);
        assert(before[p] is None) by {
            lemma_last_place(front, p);
            if let Some(k) = last_place(front, p) {
                assert(positions[k] < positions[positions.len() - 1]);
            }
        }
        assert forall|i: int| 0 <= i < n && i != p implies dense[i] == before[i] by {
            lemma_last_place(front, i);
        }
        match values.last() {
            Some(b) => {
                lemma_size_set(before, p, b);
                assert(dense =~= before.update(p, Some(b)));
            },
            None => {
                assert(dense =~= before);
            },
        }
    }
}

/// The bitmap of a list of rows.
pub fn positions_to_roaring(positions: &[u32]) -> (b: croaring::Bitmap)
    ensures
        bitmap_rows(b) == positions@.to_set(),
{
    bitmap_of(positions)
}

/// The rows of a bitmap, in ascending order.
pub fn roaring_to_positions(bitmap: &croaring::Bitmap) -> (rows: Vec<u32>)
    ensures
        lists(rows@, bitmap_rows(*bitmap)),
{
    bitmap_list(bitmap)
}

/// The rows of a bitmap, in order.
pub fn roaring_to_u32array(bitmap: &croaring::Bitmap) -> (rows: Vec<u32>)
    ensures
        lists(rows@, bitmap_rows(*bitmap)),
{
    bitmap_list(bitmap)
}

/// A bitmap of some rows.
pub fn u32array_to_roaring(arr: &[u32]) -> (bitmap: croaring::Bitmap)
    ensures
        bitmap_rows(bitmap) == arr@.to_set(),
{
    bitmap_of(arr)
}

/// Whether a bitmap holds a row.
pub fn roaring_contains(bitmap: &croaring::Bitmap, pos: u32) -> (r: bool)
    ensures
        r == bitmap_rows(*bitmap).contains(pos),
{
    bitmap_contains(bitmap, pos)
}

/// The value at a logical index of an encoded binary column; `None` past its
/// end, at a null, and in a column of another type.
pub open spec fn value_at(values: Seq<u8>, index: int) -> Option<Seq<u8>> {
    match ipc_column(values) {
        Some((rows, Some(cells))) => if 0 <= index < rows {
            cells[index]
        } else {
            None
        },
        _ => None,
    }
}

/// Reads one value of an encoded column.
pub fn extract_value_at(values_bytes: &[u8], logical_index: usize) -> (r: Result<
    Option<Vec<u8>>,
    RockDuckError,
>)
    ensures
        match r {
            Ok(v) => ipc_column(values_bytes@) is Some && cell_view(v) == value_at(
                values_bytes@,
                logical_index as int,
            ),
            Err(e) => ipc_column(values_bytes@) is None && e == RockDuckError::Arrow,
        },
{
    match decode_arrow_array(values_bytes) {
        Ok(column) => Ok(column.cell(logical_index)),
        Err(e) => Err(e),
    }
}

/// Statistics of a sparse patch.
pub fn build_zone_map_from_sparse(
    _patch: &DeltaPatchFormat,
    txn_range: (u64, u64),
    affected: u64,
) -> (r: ZoneMap)
    ensures
        r == (ZoneMap {
            min_txn: txn_range.0,
            max_txn: txn_range.1,
            affected_rows: affected,
            min_value: None,
            max_value: None,
        }),
{
    ZoneMap {
        min_txn: txn_range.0,
        max_txn: txn_range.1,
        affected_rows: affected,
        min_value: None,
        max_value: None,
    }
}

/// Statistics of a dense patch.
pub fn build_zone_map_from_dense(
    _patch: &DeltaPatchFormat,
    txn_range: (u64, u64),
    total_rows: u64,
) -> (r: ZoneMap)
    ensures
        r == (ZoneMap {
            min_txn: txn_range.0,
            max_txn: txn_range.1,
            affected_rows: total_rows,
            min_value: None,
            max_value: None,
        }),
{
    ZoneMap {
        min_txn: txn_range.0,
        max_txn: txn_range.1,
        affected_rows: total_rows,
        min_value: None,
        max_value: None,
    }
}

} // verus!
