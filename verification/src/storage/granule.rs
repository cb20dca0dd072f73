//! Granules of about a mebibyte, the unit in which columns are read and written:
//! columns of equal length, with statistics of each.
use vstd::prelude::*;
use crate::codec::bytes_copy;
use crate::column::{
    cell_fits, cell_is_nan, cell_less, column_fits, fits, is_nan, value_before, Column, ColumnType,
    ColumnView,
};
use crate::error::RockDuckError;
use crate::ipc::cell_view;
use crate::ordmap::OrdMap;
use crate::segment::encoding::{lemma_value_irreflexive, lemma_value_through, lemma_value_transitive};
use crate::text::text_copy;

verus! {

/// The size of a granule in bytes.
pub const GRANULE_SIZE: usize = 1048576;

/// Statistics of a column of a granule.
#[derive(Debug)]
pub struct ColumnStats {
    pub min: Option<Vec<u8>>,
    pub max: Option<Vec<u8>>,
    pub null_count: u32,
    pub sum: Option<u64>,
    pub distinct_count: Option<u64>,
}

/// What statistics say.
#[verifier::ext_equal]
pub struct StatsView {
    pub min: Option<Seq<u8>>,
    pub max: Option<Seq<u8>>,
    pub null_count: u32,
    pub sum: Option<u64>,
    pub distinct_count: Option<u64>,
}

impl View for ColumnStats {
    type V = StatsView;

    open spec fn view(&self) -> StatsView {
        StatsView {
            min: cell_view(self.min),
            max: cell_view(self.max),
            null_count: self.null_count,
            sum: self.sum,
            distinct_count: self.distinct_count,
        }
    }
}

fn copy_bytes(b: &Option<Vec<u8>>) -> (r: Option<Vec<u8>>)
    ensures
        cell_view(r) == cell_view(*b),
{
    match b {
        Some(v) => Some(bytes_copy(v.as_slice())),
        None => None,
    }
}

impl ColumnStats {
    pub fn copy(&self) -> (r: Self)
        ensures
            r@ == self@,
    {
        ColumnStats {
            min: copy_bytes(&self.min),
            max: copy_bytes(&self.max),
            null_count: self.null_count,
            sum: self.sum,
            distinct_count: self.distinct_count,
        }
    }
}

/// The value in a row that has one.
pub open spec fn value_in(c: ColumnView, row: int) -> Seq<u8> {
    c.cells[row]->0
}

/// Whether the least and the greatest value of a column of a type are kept.
pub open spec fn has_range(dtype: ColumnType) -> bool {
    match dtype {
        ColumnType::Int8
        | ColumnType::Int16
        | ColumnType::Int32
        | ColumnType::Int64
        | ColumnType::UInt8
        | ColumnType::UInt16
        | ColumnType::UInt32
        | ColumnType::UInt64
        | ColumnType::Float32
        | ColumnType::Float64
        | ColumnType::Boolean
        | ColumnType::Utf8
        | ColumnType::LargeUtf8 => true,
        _ => false,
    }
}

/// Whether a value takes the place of the best one so far: one that is a number
/// takes the place of one that is not, otherwise the order decides.
pub open spec fn takes_place(dtype: ColumnType, new: Seq<u8>, best: Seq<u8>, greatest: bool) -> bool {
    &&& !is_nan(dtype, new)
    &&& is_nan(dtype, best) || if greatest {
        value_before(dtype, best, new)
    } else {
        value_before(dtype, new, best)
    }
}

/// The row of the first extreme value among the first `n` rows; rows without a value are
/// passed over.
pub open spec fn extreme_row(c: ColumnView, n: nat, greatest: bool) -> Option<int>
    decreases n,
{
    if n == 0 {
        None
    } else {
        let before = extreme_row(c, (n - 1) as nat, greatest);
        if c.cells[n - 1] is None {
            before
        } else {
            match before {
                None => Some(n - 1),
                Some(k) => if takes_place(c.dtype, value_in(c, n - 1), value_in(c, k), greatest) {
                    Some(n - 1)
                } else {
                    Some(k)
                },
            }
        }
    }
}

/// The extreme value of a column.
pub open spec fn extreme(c: ColumnView, greatest: bool) -> Option<Seq<u8>> {
    if has_range(c.dtype) {
        match extreme_row(c, c.cells.len(), greatest) {
            Some(k) => Some(value_in(c, k)),
            None => None,
        }
    } else {
        None
    }
}

/// How many of the first `n` rows have no value.
pub open spec fn nulls_in(c: ColumnView, n: nat) -> nat
    decreases n,
{
    if n == 0 {
        0
    } else if c.cells[n - 1] is None {
        nulls_in(c, (n - 1) as nat) + 1
    } else {
        nulls_in(c, (n - 1) as nat)
    }
}

/// The statistics of a column.
pub open spec fn stats_of(c: ColumnView) -> StatsView {
    StatsView {
        min: extreme(c, false),
        max: extreme(c, true),
        null_count: nulls_in(c, c.cells.len()) as u32,
        sum: None,
        distinct_count: None,
    }
}

/// The extreme one of two optional values of a type; one that is no value of the type is
/// passed over.
pub open spec fn further(
    dtype: ColumnType,
    a: Option<Seq<u8>>,
    b: Option<Seq<u8>>,
    greatest: bool,
) -> Option<Seq<u8>> {
    match (a, b) {
        (Some(x), Some(y)) => if !fits(dtype, y) {
            a
        } else if !fits(dtype, x) || takes_place(dtype, y, x, greatest) {
            b
        } else {
            a
        },
        (Some(_), None) => a,
        (None, _) => b,
    }
}

/// The statistics of two columns of a type together.
pub open spec fn merged(dtype: ColumnType, a: StatsView, b: StatsView) -> StatsView {
    StatsView {
        min: further(dtype, a.min, b.min, false),
        max: further(dtype, a.max, b.max, true),
        null_count: (a.null_count + b.null_count) as u32,
        sum: None,
        distinct_count: None,
    }
}

/// The statistics of two columns of different types together: they have no range.
pub open spec fn mixed(a: StatsView, b: StatsView) -> StatsView {
    StatsView {
        min: None,
        max: None,
        null_count: (a.null_count + b.null_count) as u32,
        sum: None,
        distinct_count: None,
    }
}

/// Whether columns are all of one type.
pub open spec fn all_of_type(list: Seq<ColumnView>, dtype: ColumnType) -> bool {
    forall|i: int| #![trigger list[i]] 0 <= i < list.len() ==> list[i].dtype == dtype
}

fn keeps_range(dtype: ColumnType) -> (r: bool)
    ensures
        r == has_range(dtype),
{
    match dtype {
        ColumnType::Int8
        | ColumnType::Int16
        | ColumnType::Int32
        | ColumnType::Int64
        | ColumnType::UInt8
        | ColumnType::UInt16
        | ColumnType::UInt32
        | ColumnType::UInt64
        | ColumnType::Float32
        | ColumnType::Float64
        | ColumnType::Boolean
        | ColumnType::Utf8
        | ColumnType::LargeUtf8 => true,
        _ => false,
    }
}

fn extract_extreme_bytes(array: &Column, greatest: bool) -> (r: Option<Vec<u8>>)
    requires
        array.wf(),
    ensures
        cell_view(r) == extreme(array@, greatest),
{
    if !keeps_range(array.dtype) {
        return None;
    }
    let n: usize = array.len();
    let mut best: Option<usize> = None;
    let mut i: usize = 0;
    while i < n
        invariant
            array.wf(),
            n == array@.cells.len(),
            i <= n,
            match best {
                Some(k) => k < i && array@.cells[k as int] is Some && extreme_row(
                    array@,
                    i as nat,
                    greatest,
                ) == Some(k as int),
                None => extreme_row(array@, i as nat, greatest) is None,
            },
        decreases n - i,
    {
        assert(array@.cells[i as int] == cell_view(array.cells@[i as int]));
        if let Some(new) = &array.cells[i] {
            assert(fits(array.dtype, new@));
            let better = match best {
                None => true,
                Some(k) => {
                    assert(array@.cells[k as int] == cell_view(array.cells@[k as int]));
                    match &array.cells[k] {
                        Some(old) => value_takes_place(array.dtype, new.as_slice(), old.as_slice(), greatest),
                        None => true,
                    }
                },
            };
            if better {
                best = Some(i);
            }
        }
        i = i + 1;
    }
    match best {
        Some(k) => {
            assert(array@.cells[k as int] == cell_view(array.cells@[k as int]));
            copy_bytes(&array.cells[k])
        },
        None => None,
    }
}

fn value_takes_place(dtype: ColumnType, new: &[u8], best: &[u8], greatest: bool) -> (r: bool)
    requires
        fits(dtype, new@),
        fits(dtype, best@),
    ensures
        r == takes_place(dtype, new@, best@, greatest),
{
    if cell_is_nan(dtype, new) {
        false
    } else if cell_is_nan(dtype, best) {
        true
    } else if greatest {
        cell_less(dtype, best, new)
    } else {
        cell_less(dtype, new, best)
    }
}

/// The least value of a column.
pub fn extract_min_bytes(array: &Column) -> (r: Option<Vec<u8>>)
    requires
        array.wf(),
    ensures
        cell_view(r) == extreme(array@, false),
{
    extract_extreme_bytes(array, false)
}

/// The greatest value of a column.
pub fn extract_max_bytes(array: &Column) -> (r: Option<Vec<u8>>)
    requires
        array.wf(),
    ensures
        cell_view(r) == extreme(array@, true),
{
    extract_extreme_bytes(array, true)
}

/// How many rows have no value.
pub fn compute_null_count(array: &Column) -> (r: u32)
    ensures
        r == nulls_in(array@, array@.cells.len()) as u32,
{
    let n: usize = array.len();
    let mut count: u64 = 0;
    let mut i: usize = 0;
    while i < n
        invariant
            n == array@.cells.len(),
            i <= n,
            count <= i,
            count == nulls_in(array@, i as nat),
        decreases n - i,
    {
        if array.is_null(i) {
            count = count + 1;
        }
        i = i + 1;
    }
    count as u32
}

/// The statistics of a column.
pub fn compute_column_stats(array: &Column) -> (r: ColumnStats)
    requires
        array.wf(),
    ensures
        r@ == stats_of(array@),
{
    ColumnStats {
        min: extract_min_bytes(array),
        max: extract_max_bytes(array),
        null_count: compute_null_count(array),
        sum: None,
        distinct_count: None,
    }
}

fn further_bytes(dtype: ColumnType, a: &Option<Vec<u8>>, b: &Option<Vec<u8>>, greatest: bool) -> (r: Option<
    Vec<u8>,
>)
    ensures
        cell_view(r) == further(dtype, cell_view(*a), cell_view(*b), greatest),
{
    match (a, b) {
        (Some(x), Some(y)) => {
            if !cell_fits(dtype, y.as_slice()) {
                copy_bytes(a)
            } else if !cell_fits(dtype, x.as_slice()) || value_takes_place(
                dtype,
                y.as_slice(),
                x.as_slice(),
                greatest,
            ) {
                copy_bytes(b)
            } else {
                copy_bytes(a)
            }
        },
        (Some(_), None) => copy_bytes(a),
        (None, _) => copy_bytes(b),
    }
}

/// The statistics of two columns of a type together.
pub fn merge_column_stats(dtype: ColumnType, existing: &ColumnStats, new: &ColumnStats) -> (r: ColumnStats)
    requires
        existing.null_count + new.null_count <= u32::MAX,
    ensures
        r@ == merged(dtype, existing@, new@),
{
    ColumnStats {
        min: further_bytes(dtype, &existing.min, &new.min, false),
        max: further_bytes(dtype, &existing.max, &new.max, true),
        null_count: existing.null_count + new.null_count,
        sum: None,
        distinct_count: None,
    }
}

/// Statistics of columns, by name.
#[derive(Debug)]
pub struct ZoneMapStats {
    pub stats: OrdMap<String, ColumnStats>,
}

impl View for ZoneMapStats {
    type V = Map<Seq<char>, StatsView>;

    open spec fn view(&self) -> Map<Seq<char>, StatsView> {
        Map::new(|k: Seq<char>| self.stats@.dom().contains(k), |k: Seq<char>| self.stats@[k]@)
    }
}

impl ZoneMapStats {
    pub open spec fn wf(&self) -> bool {
        self.stats.wf()
    }

    /// No statistics.
    pub fn new() -> (r: Self)
        ensures
            r.wf(),
            r@ == Map::<Seq<char>, StatsView>::empty(),
            r.stats.keys().len() == 0,
    {
        let r = ZoneMapStats { stats: OrdMap::new() };
        assert(r@ =~= Map::<Seq<char>, StatsView>::empty());
        r
    }

    /// The statistics of a column.
    pub fn get(&self, col_name: &str) -> (r: Option<&ColumnStats>)
        requires
            self.wf(),
        ensures
            match r {
                Some(s) => self@.dom().contains(col_name@) && s@ == self@[col_name@],
                None => !self@.dom().contains(col_name@),
            },
    {
        let key = text_copy(col_name);
        self.stats.get(&key)
    }

    pub fn copy(&self) -> (r: Self)
        requires
            self.wf(),
        ensures
            r.wf(),
            r@ == self@,
    {
        let mut stats: OrdMap<String, ColumnStats> = OrdMap::new();
        let n: usize = self.stats.len();
        let mut i: usize = 0;
        while i < n
            invariant
                self.wf(),
                n == self.stats.keys().len(),
                i <= n,
                stats.wf(),
                forall|k: Seq<char>| #[trigger]
                    stats@.dom().contains(k) ==> self.stats@.dom().contains(k) && stats@[k]@
                        == self.stats@[k]@,
                forall|j: int|
                    #![trigger self.stats.keys()[j]]
                    0 <= j < i ==> stats@.dom().contains(self.stats.keys()[j]),
            decreases n - i,
        {
            proof {
                self.stats.lemma_index(i as int);
            }
            let key = self.stats.key_at(i);
            let _ = stats.insert(key.clone(), self.stats.value_at(i).copy());
            i = i + 1;
        }
        let r = ZoneMapStats { stats };
        proof {
            assert forall|k: Seq<char>| #[trigger] self.stats@.dom().contains(k) implies stats@.dom().contains(
                k,
            ) by {
                let j = self.stats.lemma_key(k);
                assert(stats@.dom().contains(self.stats.keys()[j]));
            }
            assert(r@ =~= self@);
        }
        r
    }
}

/// A granule.
#[derive(Debug)]
pub struct GranuleMeta {
    pub granule_id: u32,
    /// The row of the segment that it starts with.
    pub row_offset: u64,
    pub row_count: u32,
    pub zone_map: ZoneMapStats,
}

impl GranuleMeta {
    /// A granule without statistics.
    pub fn new(granule_id: u32, row_offset: u64, row_count: u32) -> (r: Self)
        ensures
            r.granule_id == granule_id,
            r.row_offset == row_offset,
            r.row_count == row_count,
            r.zone_map.wf(),
            r.zone_map@ == Map::<Seq<char>, StatsView>::empty(),
    {
        GranuleMeta { granule_id, row_offset, row_count, zone_map: ZoneMapStats::new() }
    }
}

/// A granule and the files of its columns.
#[derive(Debug)]
pub struct GranuleReader {
    pub meta: GranuleMeta,
    pub col_paths: OrdMap<String, String>,
}

impl GranuleReader {
    pub open spec fn wf(&self) -> bool {
        self.col_paths.wf()
    }

    /// A granule of which no column file is known.
    pub fn new(meta: GranuleMeta) -> (r: Self)
        ensures
            r.wf(),
            r.meta == meta,
            r.col_paths@ == Map::<Seq<char>, String>::empty(),
    {
        GranuleReader { meta, col_paths: OrdMap::new() }
    }

    /// Notes the file of a column.
    pub fn add_column(&mut self, col_name: &str, path: String)
        requires
            old(self).wf(),
        ensures
            final(self).wf(),
            final(self).meta == old(self).meta,
            final(self).col_paths@ == old(self).col_paths@.insert(col_name@, path),
    {
        let _ = self.col_paths.insert(text_copy(col_name), path);
    }

    /// The statistics of the columns.
    pub fn zone_map(&self) -> (r: &ZoneMapStats)
        ensures
            *r == self.meta.zone_map,
    {
        &self.meta.zone_map
    }

    /// How many rows the granule has.
    pub fn row_count(&self) -> (r: u32)
        ensures
            r == self.meta.row_count,
    {
        self.meta.row_count
    }

    /// The row of the segment that the granule starts with.
    pub fn row_offset(&self) -> (r: u64)
        ensures
            r == self.meta.row_offset,
    {
        self.meta.row_offset
    }
}

/// A granule that is being written.
#[derive(Debug)]
pub struct GranuleWriter {
    pub granule_id: u32,
    pub row_offset: u64,
    pub columns: OrdMap<String, Vec<Column>>,
    pub zone_map: ZoneMapStats,
    pub current_rows: u32,
}

/// What a granule that is being written holds.
#[verifier::ext_equal]
pub struct WriterView {
    pub granule_id: u32,
    pub row_offset: u64,
    pub columns: Map<Seq<char>, Seq<ColumnView>>,
    pub zone_map: Map<Seq<char>, StatsView>,
    pub rows: u32,
}

/// What a list of columns holds.
pub open spec fn views(list: Seq<Column>) -> Seq<ColumnView> {
    list.map_values(|c: Column| c@)
}

impl View for GranuleWriter {
    type V = WriterView;

    open spec fn view(&self) -> WriterView {
        WriterView {
            granule_id: self.granule_id,
            row_offset: self.row_offset,
            columns: Map::new(
                |k: Seq<char>| self.columns@.dom().contains(k),
                |k: Seq<char>| views(self.columns@[k]@),
            ),
            zone_map: self.zone_map@,
            rows: self.current_rows,
        }
    }
}

/// A granule without columns.
pub open spec fn empty_granule(granule_id: u32, row_offset: u64) -> WriterView {
    WriterView {
        granule_id,
        row_offset,
        columns: Map::empty(),
        zone_map: Map::empty(),
        rows: 0,
    }
}

/// Whether a column has as many rows as the granule, or the granule has none yet.
pub open spec fn takes_column(w: WriterView, c: ColumnView) -> bool {
    w.rows == 0 || w.rows == c.cells.len() as u32
}

/// The columns of a name.
pub open spec fn columns_of(w: WriterView, name: Seq<char>) -> Seq<ColumnView> {
    if w.columns.dom().contains(name) {
        w.columns[name]
    } else {
        Seq::empty()
    }
}

/// The granule with a column more.
pub open spec fn with_column(w: WriterView, name: Seq<char>, c: ColumnView) -> WriterView {
    WriterView {
        columns: w.columns.insert(name, columns_of(w, name).push(c)),
        zone_map: w.zone_map.insert(
            name,
            if w.zone_map.dom().contains(name) {
                if all_of_type(columns_of(w, name), c.dtype) {
                    merged(c.dtype, w.zone_map[name], stats_of(c))
                } else {
                    mixed(w.zone_map[name], stats_of(c))
                }
            } else {
                stats_of(c)
            },
        ),
        rows: if w.rows == 0 {
            c.cells.len() as u32
        } else {
            w.rows
        },
        ..w
    }
}

/// Whether the missing values of a column can still be counted.
pub open spec fn can_count(w: WriterView, name: Seq<char>, c: ColumnView) -> bool {
    w.zone_map.dom().contains(name) ==> w.zone_map[name].null_count + stats_of(c).null_count
        <= u32::MAX
}

impl GranuleWriter {
    pub open spec fn wf(&self) -> bool {
        self.columns.wf() && self.zone_map.wf()
    }

    /// A granule without columns.
    pub fn new(granule_id: u32, row_offset: u64) -> (r: Self)
        ensures
            r.wf(),
            r@ == empty_granule(granule_id, row_offset),
    {
        let r = GranuleWriter {
            granule_id,
            row_offset,
            columns: OrdMap::new(),
            zone_map: ZoneMapStats::new(),
            current_rows: 0,
        };
        assert(r@ =~= empty_granule(granule_id, row_offset));
        r
    }

    /// Adds a column, which must have as many rows as those before it.
    pub fn add_column(&mut self, col_name: &str, array: Column) -> (r: Result<(), RockDuckError>)
        requires
            old(self).wf(),
            array.wf(),
            can_count(old(self)@, col_name@, array@),
        ensures
            final(self).wf(),
            match r {
                Ok(_) => takes_column(old(self)@, array@) && final(self)@ == with_column(
                    old(self)@,
                    col_name@,
                    array@,
                ),
                Err(e) => !takes_column(old(self)@, array@) && e == RockDuckError::Storage && final(self)@ == old(self)@,
            },
    {
        let ghost before = self@;
        let n: usize = array.len();
        let rows: u32 = n as u32;
        if self.current_rows == 0 {
            self.current_rows = rows;
        } else if self.current_rows != rows {
            return Err(RockDuckError::Storage);
        }
        let ghost added = array@;
        self.update_zone_map(col_name, &array);
        let key = text_copy(col_name);
        let mut list = match self.columns.remove(&key) {
            Some(list) => list,
            None => Vec::new(),
        };
        let ghost held = list@;
        list.push(array);
        proof {
            assert(views(list@) =~= views(held).push(added));
            if !before.columns.dom().contains(col_name@) {
                assert(views(held) =~= Seq::<ColumnView>::empty());
            }
        }
        let _ = self.columns.insert(key, list);
        assert(self@.columns =~= with_column(before, col_name@, added).columns);
        Ok(())
    }

    /// Whether the columns of a name are all of a type.
    fn holds_type(&self, col_name: &str, dtype: ColumnType) -> (r: bool)
        requires
            self.wf(),
        ensures
            r == all_of_type(columns_of(self@, col_name@), dtype),
    {
        let key = text_copy(col_name);
        match self.columns.get(&key) {
            None => true,
            Some(list) => {
                let ghost held = views(list@);
                let mut i: usize = 0;
                while i < list.len()
                    invariant
                        i <= list@.len(),
                        held == views(list@),
                        held == columns_of(self@, col_name@),
                        forall|k: int| #![trigger held[k]] 0 <= k < i ==> held[k].dtype == dtype,
                    decreases list@.len() - i,
                {
                    assert(held[i as int] == list@[i as int]@);
                    if list[i].dtype != dtype {
                        return false;
                    }
                    i = i + 1;
                }
                true
            },
        }
    }

    /// Takes a column into the statistics.
    fn update_zone_map(&mut self, col_name: &str, array: &Column)
        requires
            old(self).wf(),
            array.wf(),
            can_count(old(self)@, col_name@, array@),
        ensures
            final(self).wf(),
            final(self).columns == old(self).columns,
            final(self).granule_id == old(self).granule_id,
            final(self).row_offset == old(self).row_offset,
            final(self).current_rows == old(self).current_rows,
            final(self).zone_map@ == with_column(old(self)@, col_name@, array@).zone_map,
    {
        let ghost before = self.zone_map@;
        let new_stats = compute_column_stats(array);
        let same = self.holds_type(col_name, array.dtype);
        let stats = match self.zone_map.get(col_name) {
            Some(existing) => if same {
                merge_column_stats(array.dtype, existing, &new_stats)
            } else {
                ColumnStats {
                    min: None,
                    max: None,
                    null_count: existing.null_count + new_stats.null_count,
                    sum: None,
                    distinct_count: None,
                }
            },
            None => new_stats,
        };
        let ghost view = stats@;
        let _ = self.zone_map.stats.insert(text_copy(col_name), stats);
        assert(self.zone_map@ =~= before.insert(col_name@, view));
    }

    /// The granule as it is.
    pub fn build_meta(&self) -> (r: GranuleMeta)
        requires
            self.wf(),
        ensures
            r.granule_id == self@.granule_id,
            r.row_offset == self@.row_offset,
            r.row_count == self@.rows,
            r.zone_map.wf(),
            r.zone_map@ == self@.zone_map,
    {
        let mut meta = GranuleMeta::new(self.granule_id, self.row_offset, self.current_rows);
        meta.zone_map = self.zone_map.copy();
        meta
    }

    /// How many rows the granule has.
    pub fn current_rows(&self) -> (r: u32)
        ensures
            r == self@.rows,
    {
        self.current_rows
    }

    /// About how many bytes the granule has, at eight for each row.
    pub fn estimated_size(&self) -> (r: usize)
        requires
            self@.rows * 8 <= usize::MAX,
        ensures
            r == self@.rows * 8,
    {
        self.current_rows as usize * 8
    }

    /// Whether the granule has reached its size.
    pub fn is_full(&self) -> (r: bool)
        ensures
            r == (self@.rows * 8 >= GRANULE_SIZE),
    {
        self.current_rows as u64 * 8 >= GRANULE_SIZE as u64
    }

    /// Drops the columns and the statistics.
    pub fn clear(&mut self)
        ensures
            final(self).wf(),
            final(self)@ == empty_granule(old(self)@.granule_id, old(self)@.row_offset),
    {
        self.columns = OrdMap::new();
        self.zone_map = ZoneMapStats::new();
        self.current_rows = 0;
        assert(self@ =~= empty_granule(old(self)@.granule_id, old(self)@.row_offset));
    }
}

/// The granules that are being written, by segment.
#[derive(Debug)]
pub struct GranuleBuffer {
    pub writers: OrdMap<String, GranuleWriter>,
    pub current_granule_id: u32,
    pub current_row_offset: u64,
}

/// What a buffer holds.
#[verifier::ext_equal]
pub struct BufferView {
    pub writers: Map<Seq<char>, WriterView>,
    pub granule_id: u32,
    pub row_offset: u64,
}

impl View for GranuleBuffer {
    type V = BufferView;

    open spec fn view(&self) -> BufferView {
        BufferView {
            writers: Map::new(
                |k: Seq<char>| self.writers@.dom().contains(k),
                |k: Seq<char>| self.writers@[k]@,
            ),
            granule_id: self.current_granule_id,
            row_offset: self.current_row_offset,
        }
    }
}

/// The granule of a segment, a new one if it had none.
pub open spec fn writer_of(b: BufferView, seg_id: Seq<char>) -> WriterView {
    if b.writers.dom().contains(seg_id) {
        b.writers[seg_id]
    } else {
        empty_granule(b.granule_id, b.row_offset)
    }
}

/// How many rows wait in a segment.
pub open spec fn waiting(b: BufferView, seg_id: Seq<char>) -> u32 {
    if b.writers.dom().contains(seg_id) {
        b.writers[seg_id].rows
    } else {
        0
    }
}

/// The granule with the first `n` of some columns, and how many of them it took
/// before one that it does not take.
pub open spec fn with_columns(
    w: WriterView,
    columns: Seq<(Seq<char>, ColumnView)>,
    n: nat,
) -> (WriterView, nat)
    decreases n,
{
    if n == 0 {
        (w, 0)
    } else {
        let (v, k) = with_columns(w, columns, (n - 1) as nat);
        if k == n - 1 && takes_column(v, columns[n - 1].1) {
            (with_column(v, columns[n - 1].0, columns[n - 1].1), n)
        } else {
            (v, k)
        }
    }
}

/// The columns of a row, in the order of their names.
pub open spec fn listed(columns: OrdMap<String, Column>) -> Seq<(Seq<char>, ColumnView)> {
    Seq::new(columns.keys().len(), |i: int| (columns.keys()[i], columns.value_of(i)@))
}

/// The buffer after the granule of a segment has been closed: the next one has
/// the next number and starts behind the rows that were written.
pub open spec fn flushed(b: BufferView, seg_id: Seq<char>) -> BufferView {
    if waiting(b, seg_id) > 0 {
        let w = b.writers[seg_id];
        let granule_id = (b.granule_id + 1) as u32;
        let row_offset = (b.row_offset + w.rows) as u64;
        BufferView {
            writers: b.writers.insert(seg_id, empty_granule(granule_id, row_offset)),
            granule_id,
            row_offset,
        }
    } else {
        b
    }
}

/// Whether a granule describes the one of a segment.
pub open spec fn describes(meta: GranuleMeta, w: WriterView) -> bool {
    &&& meta.granule_id == w.granule_id
    &&& meta.row_offset == w.row_offset
    &&& meta.row_count == w.rows
    &&& meta.zone_map.wf()
    &&& meta.zone_map@ == w.zone_map
}

proof fn lemma_with_columns_name(
    w: WriterView,
    columns: Seq<(Seq<char>, ColumnView)>,
    n: nat,
    name: Seq<char>,
)
    requires
        n <= columns.len(),
        forall|j: int| #![trigger columns[j]] 0 <= j < n ==> columns[j].0 != name,
    ensures
        with_columns(w, columns, n).0.zone_map.dom().contains(name) == w.zone_map.dom().contains(
            name,
        ),
        w.zone_map.dom().contains(name) ==> with_columns(w, columns, n).0.zone_map[name]
            == w.zone_map[name],
    decreases n,
{
    if n > 0 {
        lemma_with_columns_name(w, columns, (n - 1) as nat, name);
        assert(columns[n - 1].0 != name);
    }
}

proof fn lemma_with_columns_stops(
    w: WriterView,
    columns: Seq<(Seq<char>, ColumnView)>,
    k: nat,
    n: nat,
)
    requires
        k <= n,
        with_columns(w, columns, k).1 < k,
    ensures
        with_columns(w, columns, n) == with_columns(w, columns, k),
    decreases n,
{
    if n > k {
        lemma_with_columns_stops(w, columns, k, (n - 1) as nat);
    }
}

impl GranuleBuffer {
    pub open spec fn wf(&self) -> bool {
        &&& self.writers.wf()
        &&& forall|k: Seq<char>| #[trigger]
            self.writers@.dom().contains(k) ==> self.writers@[k].wf()
    }

    /// A buffer without granules.
    pub fn new() -> (r: Self)
        ensures
            r.wf(),
            r@ == (BufferView {
                writers: Map::<Seq<char>, WriterView>::empty(),
                granule_id: 0,
                row_offset: 0,
            }),
    {
        let r = GranuleBuffer {
            writers: OrdMap::new(),
            current_granule_id: 0,
            current_row_offset: 0,
        };
        assert(r@.writers =~= Map::<Seq<char>, WriterView>::empty());
        r
    }

    /// Takes the granule of a segment out, or makes a new one.
    fn take_writer(&mut self, seg_id: &str) -> (r: GranuleWriter)
        requires
            old(self).wf(),
        ensures
            final(self).wf(),
            r.wf(),
            r@ == writer_of(old(self)@, seg_id@),
            final(self)@ == (BufferView {
                writers: old(self)@.writers.remove(seg_id@),
                ..old(self)@
            }),
    {
        let ghost before = self@;
        let key = text_copy(seg_id);
        let r = match self.writers.remove(&key) {
            Some(w) => w,
            None => GranuleWriter::new(self.current_granule_id, self.current_row_offset),
        };
        proof {
            assert(self@.writers =~= before.writers.remove(seg_id@));
            assert forall|k: Seq<char>| #[trigger] self.writers@.dom().contains(k) implies self.writers@[k].wf() by {
                assert(old(self).writers@.dom().contains(k));
            }
        }
        r
    }

    /// Puts the granule of a segment back.
    fn put_writer(&mut self, seg_id: &str, w: GranuleWriter)
        requires
            old(self).wf(),
            w.wf(),
        ensures
            final(self).wf(),
            final(self)@ == (BufferView {
                writers: old(self)@.writers.insert(seg_id@, w@),
                ..old(self)@
            }),
    {
        let ghost before = self@;
        let ghost view = w@;
        let _ = self.writers.insert(text_copy(seg_id), w);
        proof {
            assert(self@.writers =~= before.writers.insert(seg_id@, view));
            assert forall|k: Seq<char>| #[trigger] self.writers@.dom().contains(k) implies self.writers@[k].wf() by {
                if k != seg_id@ {
                    assert(old(self).writers@.dom().contains(k));
                }
            }
        }
    }

    /// Adds columns to the granule of a segment, in the order of their names,
    /// up to the first that does not have as many rows as those before it.
    pub fn add_row(&mut self, seg_id: &str, columns: &OrdMap<String, Column>) -> (r: Result<
        (),
        RockDuckError,
    >)
        requires
            old(self).wf(),
            columns.wf(),
            forall|i: int|
                #![trigger columns.value_of(i)]
                0 <= i < columns.keys().len() ==> columns.value_of(i).wf() && can_count(
                    writer_of(old(self)@, seg_id@),
                    columns.keys()[i],
                    columns.value_of(i)@,
                ),
        ensures
            final(self).wf(),
            ({
                let n = columns.keys().len();
                let (w, k) = with_columns(writer_of(old(self)@, seg_id@), listed(*columns), n);
                &&& final(self)@ == (BufferView {
                    writers: old(self)@.writers.insert(seg_id@, w),
                    ..old(self)@
                })
                &&& match r {
                    Ok(_) => k == n,
                    Err(e) => k < n && e == RockDuckError::Storage,
                }
            }),
    {
        let ghost before = self@;
        let ghost start = writer_of(before, seg_id@);
        let ghost list = listed(*columns);
        let mut writer = self.take_writer(seg_id);
        let n: usize = columns.len();
        let mut i: usize = 0;
        let mut failed = false;
        while i < n && !failed
            invariant
                columns.wf(),
                n == columns.keys().len(),
                i <= n,
                list == listed(*columns),
                writer.wf(),
                forall|j: int|
                    #![trigger columns.value_of(j)]
                    0 <= j < n ==> columns.value_of(j).wf() && can_count(
                        start,
                        columns.keys()[j],
                        columns.value_of(j)@,
                    ),
                with_columns(start, list, i as nat).0 == writer@,
                with_columns(start, list, i as nat).1 == i <==> !failed,
                with_columns(start, list, i as nat).1 <= i,
            decreases n - i,
        {
            proof {
                assert(list[i as int] == (columns.keys()[i as int], columns.value_of(i as int)@));
                assert forall|j: int| #![trigger list[j]] 0 <= j < i implies list[j].0
                    != columns.keys()[i as int] by {
                    assert(list[j].0 == columns.keys()[j]);
                    columns.lemma_index(j);
                    columns.lemma_index(i as int);
                }
                lemma_with_columns_name(start, list, i as nat, columns.keys()[i as int]);
            }
            let name = columns.key_at(i);
            match writer.add_column(name.as_str(), columns.value_at(i).copy()) {
                Ok(done) => {
                    assert(done == ());
                },
                Err(_) => {
                    failed = true;
                },
            }
            i = i + 1;
        }
        proof {
            if failed {
                lemma_with_columns_stops(start, list, i as nat, n as nat);
            }
        }
        self.put_writer(seg_id, writer);
        assert(self@.writers =~= before.writers.insert(seg_id@, writer@));
        if failed {
            Err(RockDuckError::Storage)
        } else {
            Ok(())
        }
    }

    /// Whether the granule of a segment has reached its size.
    pub fn needs_flush(&self, seg_id: &str) -> (r: bool)
        requires
            self.wf(),
        ensures
            r == (waiting(self@, seg_id@) * 8 >= GRANULE_SIZE),
    {
        let key = text_copy(seg_id);
        match self.writers.get(&key) {
            Some(w) => w.is_full(),
            None => false,
        }
    }

    /// Closes the granule of a segment and begins the next; nothing if it has no
    /// rows.
    pub fn flush_and_next(&mut self, seg_id: &str) -> (r: Result<
        Option<GranuleMeta>,
        RockDuckError,
    >)
        requires
            old(self).wf(),
            waiting(old(self)@, seg_id@) > 0 ==> old(self)@.granule_id < u32::MAX && old(self)@.row_offset + waiting(old(self)@, seg_id@) <= u64::MAX,
        ensures
            final(self).wf(),
            final(self)@ == flushed(old(self)@, seg_id@),
            match r {
                Ok(Some(meta)) => waiting(old(self)@, seg_id@) > 0 && describes(
                    meta,
                    old(self)@.writers[seg_id@],
                ),
                Ok(None) => waiting(old(self)@, seg_id@) == 0,
                Err(_) => false,
            },
    {
        if self.current_row_count(seg_id) == 0 {
            return Ok(None);
        }
        let ghost before = self@;
        let writer = self.take_writer(seg_id);
        let meta = writer.build_meta();
        self.current_granule_id = self.current_granule_id + 1;
        self.current_row_offset = self.current_row_offset + writer.current_rows() as u64;
        let next = GranuleWriter::new(self.current_granule_id, self.current_row_offset);
        self.put_writer(seg_id, next);
        assert(self@.writers =~= flushed(before, seg_id@).writers);
        Ok(Some(meta))
    }

    /// Closes the granule of a segment and forgets the segment.
    pub fn finish_segment(&mut self, seg_id: &str) -> (r: Result<Vec<GranuleMeta>, RockDuckError>)
        requires
            old(self).wf(),
            waiting(old(self)@, seg_id@) > 0 ==> old(self)@.granule_id < u32::MAX && old(self)@.row_offset + waiting(old(self)@, seg_id@) <= u64::MAX,
        ensures
            final(self).wf(),
            final(self)@ == (BufferView {
                writers: old(self)@.writers.remove(seg_id@),
                ..flushed(old(self)@, seg_id@)
            }),
            match r {
                Ok(metas) => if waiting(old(self)@, seg_id@) > 0 {
                    metas@.len() == 1 && describes(metas@[0], old(self)@.writers[seg_id@])
                } else {
                    metas@.len() == 0
                },
                Err(_) => false,
            },
    {
        let ghost before = self@;
        let mut metas: Vec<GranuleMeta> = Vec::new();
        match self.flush_and_next(seg_id) {
            Ok(Some(meta)) => {
                metas.push(meta);
            },
            Ok(None) => {},
            Err(e) => {
                return Err(e);
            },
        }
        let ghost middle = self@;
        let _ = self.take_writer(seg_id);
        assert(self@.writers =~= before.writers.remove(seg_id@)) by {
            assert(middle.writers.remove(seg_id@) =~= before.writers.remove(seg_id@));
        }
        Ok(metas)
    }

    /// How many rows the granule of a segment has.
    pub fn current_row_count(&self, seg_id: &str) -> (r: u32)
        requires
            self.wf(),
        ensures
            r == waiting(self@, seg_id@),
    {
        let key = text_copy(seg_id);
        match self.writers.get(&key) {
            Some(w) => w.current_rows(),
            None => 0,
        }
    }
}

impl Default for GranuleBuffer {
    fn default() -> (r: Self)
        ensures
            r.wf(),
            r@ == (BufferView {
                writers: Map::<Seq<char>, WriterView>::empty(),
                granule_id: 0,
                row_offset: 0,
            }),
    {
        Self::new()
    }
}

proof fn lemma_extreme_row(c: ColumnView, n: nat, greatest: bool, i: int)
    requires
        0 <= i < n <= c.cells.len(),
        c.cells[i] is Some,
        !is_nan(c.dtype, value_in(c, i)),
    ensures
        extreme_row(c, n, greatest) matches Some(k) && 0 <= k < n && c.cells[k] is Some && !is_nan(
            c.dtype,
            value_in(c, k),
        ) && !takes_place(c.dtype, value_in(c, i), value_in(c, k), greatest),
    decreases n,
{
    let before = extreme_row(c, (n - 1) as nat, greatest);
    lemma_value_irreflexive(c.dtype, value_in(c, n - 1));
    lemma_row_in_range(c, (n - 1) as nat, greatest);
    if i < n - 1 {
        lemma_extreme_row(c, (n - 1) as nat, greatest, i);
        let k = before->0;
        if takes_place(c.dtype, value_in(c, n - 1), value_in(c, k), greatest) && takes_place(
            c.dtype,
            value_in(c, i),
            value_in(c, n - 1),
            greatest,
        ) {
            if greatest {
                lemma_value_transitive(c.dtype, value_in(c, k), value_in(c, n - 1), value_in(c, i));
            } else {
                lemma_value_transitive(c.dtype, value_in(c, i), value_in(c, n - 1), value_in(c, k));
            }
        }
    }
}

proof fn lemma_row_in_range(c: ColumnView, n: nat, greatest: bool)
    requires
        n <= c.cells.len(),
    ensures
        match extreme_row(c, n, greatest) {
            Some(k) => 0 <= k < n && c.cells[k] is Some,
            None => forall|i: int| #![trigger c.cells[i]] 0 <= i < n ==> c.cells[i] is None,
        },
    decreases n,
{
    if n > 0 {
        lemma_row_in_range(c, (n - 1) as nat, greatest);
    }
}

/// The statistics of a column bound its values: none of them that is a number
/// comes before the least value, or after the greatest. The bounds are values of the
/// column, and a column without values has none.
pub proof fn law_statistics_bound_the_values(c: ColumnView, row: int)
    requires
        column_fits(c),
        has_range(c.dtype),
        0 <= row < c.cells.len(),
    ensures
        c.cells[row] is Some && !is_nan(c.dtype, c.cells[row]->0) ==> bounds(
            c.dtype,
            stats_of(c),
            c.cells[row]->0,
        ),
        stats_of(c).min matches Some(m) ==> c.cells.contains(Some(m)),
        stats_of(c).max matches Some(m) ==> c.cells.contains(Some(m)),
{
    if c.cells[row] is Some && !is_nan(c.dtype, c.cells[row]->0) {
        lemma_extreme_row(c, c.cells.len(), false, row);
        lemma_extreme_row(c, c.cells.len(), true, row);
        lemma_range_fits(c);
    }
    lemma_row_in_range(c, c.cells.len(), false);
    lemma_row_in_range(c, c.cells.len(), true);
    if let Some(k) = extreme_row(c, c.cells.len(), false) {
        assert(c.cells[k] == Some(value_in(c, k)));
    }
    if let Some(k) = extreme_row(c, c.cells.len(), true) {
        assert(c.cells[k] == Some(value_in(c, k)));
    }
}

/// Whether a value of a type lies between the bounds of statistics, which are numbers if
/// the type has others.
pub open spec fn bounds(dtype: ColumnType, s: StatsView, v: Seq<u8>) -> bool {
    &&& s.min matches Some(m) && !is_nan(dtype, m) && !value_before(dtype, v, m)
    &&& s.max matches Some(m) && !is_nan(dtype, m) && !value_before(dtype, m, v)
}

/// Whether the bounds of statistics are values of a type.
pub open spec fn range_fits(dtype: ColumnType, s: StatsView) -> bool {
    &&& s.min matches Some(m) ==> fits(dtype, m)
    &&& s.max matches Some(m) ==> fits(dtype, m)
}

proof fn lemma_range_fits(c: ColumnView)
    requires
        column_fits(c),
    ensures
        range_fits(c.dtype, stats_of(c)),
{
    lemma_row_in_range(c, c.cells.len(), false);
    lemma_row_in_range(c, c.cells.len(), true);
}

/// Whether the statistics of a name bound the values of some columns of a type.
pub open spec fn bounds_all(w: WriterView, name: Seq<char>, list: Seq<ColumnView>, dtype: ColumnType) -> bool {
    &&& w.zone_map.dom().contains(name)
    &&& range_fits(dtype, w.zone_map[name])
    &&& forall|i: int, row: int|
        #![trigger list[i].cells[row]]
        0 <= i < list.len() && 0 <= row < list[i].cells.len() && list[i].cells[row] is Some && !is_nan(
            dtype,
            list[i].cells[row]->0,
        ) ==> bounds(dtype, w.zone_map[name], list[i].cells[row]->0)
}

/// Whether the statistics of a granule hold: those of a name bound the values of all its
/// columns, if they are of one type that has a range.
pub open spec fn statistics_hold(w: WriterView) -> bool {
    &&& w.columns.dom() == w.zone_map.dom()
    &&& forall|name: Seq<char>|
        #![trigger w.columns.dom().contains(name)]
        w.columns.dom().contains(name) ==> w.columns[name].len() > 0
    &&& forall|name: Seq<char>, dtype: ColumnType|
        #![trigger all_of_type(w.columns[name], dtype)]
        w.columns.dom().contains(name) && all_of_type(w.columns[name], dtype) && has_range(dtype)
            ==> bounds_all(w, name, w.columns[name], dtype)
}

proof fn lemma_merged_bounds(dtype: ColumnType, a: StatsView, b: StatsView, v: Seq<u8>)
    requires
        range_fits(dtype, a),
        range_fits(dtype, b),
        !is_nan(dtype, v),
        bounds(dtype, a, v) || bounds(dtype, b, v),
    ensures
        bounds(dtype, merged(dtype, a, b), v),
{
    if a.min is Some && b.min is Some {
        lemma_further(dtype, a.min->0, b.min->0, v, false);
    }
    if a.max is Some && b.max is Some {
        lemma_further(dtype, a.max->0, b.max->0, v, true);
    }
}

proof fn lemma_further(dtype: ColumnType, x: Seq<u8>, y: Seq<u8>, v: Seq<u8>, greatest: bool)
    requires
        fits(dtype, x),
        fits(dtype, y),
        !is_nan(dtype, v),
        (!is_nan(dtype, x) && !takes_place(dtype, v, x, greatest)) || (!is_nan(dtype, y) && !takes_place(
            dtype,
            v,
            y,
            greatest,
        )),
    ensures
        further(dtype, Some(x), Some(y), greatest) matches Some(m) && !is_nan(dtype, m) && !takes_place(
            dtype,
            v,
            m,
            greatest,
        ),
{
    if takes_place(dtype, y, x, greatest) {
        if takes_place(dtype, v, y, greatest) && !is_nan(dtype, x) {
            if greatest {
                lemma_value_transitive(dtype, x, y, v);
            } else {
                lemma_value_transitive(dtype, v, y, x);
            }
        }
    } else if !is_nan(dtype, y) && takes_place(dtype, v, x, greatest) {
        lemma_order_is_total(dtype, x, y, v, greatest);
    }
}

/// A value that takes the place of another takes that of every one that the other does not
/// give way to.
proof fn lemma_order_is_total(dtype: ColumnType, x: Seq<u8>, y: Seq<u8>, v: Seq<u8>, greatest: bool)
    requires
        !is_nan(dtype, x),
        !is_nan(dtype, y),
        !takes_place(dtype, y, x, greatest),
        takes_place(dtype, v, x, greatest),
    ensures
        takes_place(dtype, v, y, greatest),
{
    if greatest {
        lemma_value_through(dtype, x, v, y);
    } else {
        lemma_value_through(dtype, v, x, y);
    }
}

/// The statistics of a granule hold from the beginning and with every column more.
pub proof fn law_statistics_hold(w: WriterView, name: Seq<char>, c: ColumnView)
    requires
        statistics_hold(w),
        column_fits(c),
    ensures
        statistics_hold(empty_granule(w.granule_id, w.row_offset)),
        statistics_hold(with_column(w, name, c)),
{
    let start = empty_granule(w.granule_id, w.row_offset);
    assert(start.columns.dom() =~= start.zone_map.dom());
    let after = with_column(w, name, c);
    assert(after.columns.dom() =~= after.zone_map.dom());
    assert forall|n: Seq<char>, dtype: ColumnType|
        #![trigger all_of_type(after.columns[n], dtype)]
        after.columns.dom().contains(n) && all_of_type(after.columns[n], dtype) && has_range(
            dtype,
        ) implies bounds_all(after, n, after.columns[n], dtype) by {
        if n != name {
            assert(w.columns.dom().contains(n));
            assert(all_of_type(w.columns[n], dtype));
            assert(bounds_all(w, n, w.columns[n], dtype));
        } else {
            lemma_column_added(w, name, c, dtype);
        }
    }
}

proof fn lemma_column_added(w: WriterView, name: Seq<char>, c: ColumnView, dtype: ColumnType)
    requires
        statistics_hold(w),
        column_fits(c),
        has_range(dtype),
        all_of_type(columns_of(w, name).push(c), dtype),
    ensures
        bounds_all(with_column(w, name, c), name, columns_of(w, name).push(c), dtype),
{
    let held = columns_of(w, name);
    let list = held.push(c);
    let after = with_column(w, name, c);
    assert(list[held.len() as int].dtype == dtype);
    assert(all_of_type(held, dtype)) by {
        assert forall|i: int| #![trigger held[i]] 0 <= i < held.len() implies held[i].dtype == dtype by {
            assert(list[i] == held[i]);
        }
    }
    lemma_range_fits(c);
    let known = w.columns.dom().contains(name);
    if known {
        assert(bounds_all(w, name, w.columns[name], dtype));
    }
    assert forall|i: int, row: int|
        #![trigger list[i].cells[row]]
        0 <= i < list.len() && 0 <= row < list[i].cells.len() && list[i].cells[row] is Some && !is_nan(
            dtype,
            list[i].cells[row]->0,
        ) implies bounds(dtype, after.zone_map[name], list[i].cells[row]->0) by {
        let v = list[i].cells[row]->0;
        if i == held.len() {
            law_statistics_bound_the_values(c, row);
        } else {
            assert(list[i] == held[i]);
            assert(held[i].cells[row] is Some);
        }
        if known {
            lemma_merged_bounds(dtype, w.zone_map[name], stats_of(c), v);
        }
    }
}

/// A closed granule takes no row with it twice: once closed, nothing waits.
pub proof fn law_flush_empties_the_granule(b: BufferView, seg_id: Seq<char>)
    ensures
        waiting(flushed(b, seg_id), seg_id) == 0,
        flushed(flushed(b, seg_id), seg_id) == flushed(b, seg_id),
{
}

/// Closing the granule of a segment leaves the granules of other segments alone.
pub proof fn law_flush_leaves_other_segments(b: BufferView, seg_id: Seq<char>, other: Seq<char>)
    requires
        seg_id != other,
    ensures
        flushed(b, seg_id).writers.dom().contains(other) == b.writers.dom().contains(other),
        b.writers.dom().contains(other) ==> flushed(b, seg_id).writers[other] == b.writers[other],
{
}

} // verus!
