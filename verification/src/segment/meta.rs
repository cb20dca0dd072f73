//! Segment and granule metadata.
use vstd::prelude::*;
use vstd::std_specs::convert::FromSpecImpl;
use crate::codec::{get_le, le_bytes, lemma_le_round_trip, lemma_pow256, put_le};
use crate::column::ColumnType;
use crate::ratio::Ratio;

verus! {

/// Rows per granule: the unit of compaction and caching.
pub const GRANULE_SIZE: u32 = 8192;

/// Number of a granule within its segment.
#[derive(Debug, Clone, Copy, PartialEq, Eq, Structural, Hash)]
pub struct GranuleId(pub u32);

impl Default for GranuleId {
    fn default() -> (r: Self)
        ensures
            r == GranuleId(0),
    {
        GranuleId(0)
    }
}

impl GranuleId {
    pub fn new(id: u32) -> (r: Self)
        ensures
            r == GranuleId(id),
    {
        GranuleId(id)
    }

    pub fn zero() -> (r: Self)
        ensures
            r == GranuleId(0),
    {
        GranuleId(0)
    }

    pub fn get(self) -> (r: u32)
        ensures
            r == self.0,
    {
        self.0
    }

    /// The number in little-endian form.
    pub fn to_le_bytes(self) -> (r: [u8; 4])
        ensures
            r@ == le_bytes(self.0 as nat, 4),
    {
        let mut buf: Vec<u8> = Vec::new();
        proof {
            lemma_pow256();
        }
        put_le(&mut buf, self.0 as u64, 4);
        proof {
            crate::codec::lemma_le_len(self.0 as nat, 4);
        }
        let r = [buf[0], buf[1], buf[2], buf[3]];
        assert(r@ =~= buf@);
        r
    }

    /// The granule whose number has a little-endian form.
    pub fn from_le_bytes(bytes: [u8; 4]) -> (r: Self)
        ensures
            le_bytes(r.0 as nat, 4) == bytes@,
    {
        let ghost b = bytes@;
        let v: u64 = get_le(bytes.as_slice(), 0, 4);
        proof {
            assert(b.subrange(0, 4) =~= b);
            crate::codec::lemma_le_value_round_trip(b);
            lemma_pow256();
        }
        GranuleId(v as u32)
    }
}

/// A granule number written in little-endian form is read back.
pub proof fn law_granule_bytes_round_trip(a: GranuleId, b: GranuleId)
    requires
        le_bytes(a.0 as nat, 4) == le_bytes(b.0 as nat, 4),
    ensures
        a == b,
{
    lemma_pow256();
    lemma_le_round_trip(a.0 as nat, 4);
    lemma_le_round_trip(b.0 as nat, 4);
}

impl FromSpecImpl<u32> for GranuleId {
    open spec fn obeys_from_spec() -> bool {
        true
    }

    open spec fn from_spec(id: u32) -> Self {
        GranuleId(id)
    }
}

impl From<u32> for GranuleId {
    fn from(id: u32) -> (r: Self) {
        GranuleId(id)
    }
}

impl FromSpecImpl<GranuleId> for u32 {
    open spec fn obeys_from_spec() -> bool {
        true
    }

    open spec fn from_spec(id: GranuleId) -> Self {
        id.0
    }
}

impl From<GranuleId> for u32 {
    fn from(id: GranuleId) -> (r: Self) {
        id.0
    }
}

/// Segment status.
#[derive(Debug, Clone, Copy, PartialEq, Eq, Structural)]
pub enum SegmentStatus {
    /// Can be written.
    Active,
    /// Immutable.
    Frozen,
    /// Being compacted.
    Compacting,
    /// Ready to be cleaned up.
    Garbage,
}

impl Default for SegmentStatus {
    fn default() -> (r: Self)
        ensures
            r == SegmentStatus::Active,
    {
        SegmentStatus::Active
    }
}

/// Segment type.
#[derive(Debug, Clone, Copy, PartialEq, Eq, Structural)]
pub enum SegmentType {
    /// Transactional.
    Delta,
    /// Columnar.
    Vortex,
    /// Compacted.
    Frozen,
}

impl Default for SegmentType {
    fn default() -> (r: Self)
        ensures
            r == SegmentType::Delta,
    {
        SegmentType::Delta
    }
}

/// Type of a column.
#[derive(Debug, Clone, Copy, PartialEq, Eq, Structural)]
pub enum DataType {
    Int8,
    Int16,
    Int32,
    Int64,
    UInt8,
    UInt16,
    UInt32,
    UInt64,
    Float32,
    Float64,
    Bool,
    Utf8,
    LargeUtf8,
    Binary,
    LargeBinary,
    Date32,
    Date64,
    TimestampMicros,
    TimestampMillis,
}

/// The type that stands for an array type; binary for those that have none of
/// their own.
pub open spec fn data_type_of(dt: ColumnType) -> DataType {
    match dt {
        ColumnType::Int8 => DataType::Int8,
        ColumnType::Int16 => DataType::Int16,
        ColumnType::Int32 => DataType::Int32,
        ColumnType::Int64 => DataType::Int64,
        ColumnType::UInt8 => DataType::UInt8,
        ColumnType::UInt16 => DataType::UInt16,
        ColumnType::UInt32 => DataType::UInt32,
        ColumnType::UInt64 => DataType::UInt64,
        ColumnType::Float32 => DataType::Float32,
        ColumnType::Float64 => DataType::Float64,
        ColumnType::Boolean => DataType::Bool,
        ColumnType::Utf8 => DataType::Utf8,
        ColumnType::LargeUtf8 => DataType::LargeUtf8,
        ColumnType::Binary => DataType::Binary,
        ColumnType::LargeBinary => DataType::LargeBinary,
        ColumnType::Date32 => DataType::Date32,
        ColumnType::Date64 => DataType::Date64,
        ColumnType::TimestampMicros => DataType::TimestampMicros,
        ColumnType::TimestampMillis => DataType::TimestampMillis,
        ColumnType::TimestampSecond | ColumnType::TimestampNanos | ColumnType::Other =>
            DataType::Binary,
    }
}

/// The array type of a type.
pub open spec fn array_type_of(dt: DataType) -> ColumnType {
    match dt {
        DataType::Int8 => ColumnType::Int8,
        DataType::Int16 => ColumnType::Int16,
        DataType::Int32 => ColumnType::Int32,
        DataType::Int64 => ColumnType::Int64,
        DataType::UInt8 => ColumnType::UInt8,
        DataType::UInt16 => ColumnType::UInt16,
        DataType::UInt32 => ColumnType::UInt32,
        DataType::UInt64 => ColumnType::UInt64,
        DataType::Float32 => ColumnType::Float32,
        DataType::Float64 => ColumnType::Float64,
        DataType::Bool => ColumnType::Boolean,
        DataType::Utf8 => ColumnType::Utf8,
        DataType::LargeUtf8 => ColumnType::LargeUtf8,
        DataType::Binary => ColumnType::Binary,
        DataType::LargeBinary => ColumnType::LargeBinary,
        DataType::Date32 => ColumnType::Date32,
        DataType::Date64 => ColumnType::Date64,
        DataType::TimestampMicros => ColumnType::TimestampMicros,
        DataType::TimestampMillis => ColumnType::TimestampMillis,
    }
}

impl DataType {
    /// The type that stands for an array type.
    pub fn from_arrow(dt: &ColumnType) -> (r: Self)
        ensures
            r == data_type_of(*dt),
    {
        match dt {
            ColumnType::Int8 => DataType::Int8,
            ColumnType::Int16 => DataType::Int16,
            ColumnType::Int32 => DataType::Int32,
            ColumnType::Int64 => DataType::Int64,
            ColumnType::UInt8 => DataType::UInt8,
            ColumnType::UInt16 => DataType::UInt16,
            ColumnType::UInt32 => DataType::UInt32,
            ColumnType::UInt64 => DataType::UInt64,
            ColumnType::Float32 => DataType::Float32,
            ColumnType::Float64 => DataType::Float64,
            ColumnType::Boolean => DataType::Bool,
            ColumnType::Utf8 => DataType::Utf8,
            ColumnType::LargeUtf8 => DataType::LargeUtf8,
            ColumnType::Binary => DataType::Binary,
            ColumnType::LargeBinary => DataType::LargeBinary,
            ColumnType::Date32 => DataType::Date32,
            ColumnType::Date64 => DataType::Date64,
            ColumnType::TimestampMicros => DataType::TimestampMicros,
            ColumnType::TimestampMillis => DataType::TimestampMillis,
            ColumnType::TimestampSecond => DataType::Binary,
            ColumnType::TimestampNanos => DataType::Binary,
            ColumnType::Other => DataType::Binary,
        }
    }

    /// The array type of a type.
    pub fn to_arrow(&self) -> (r: ColumnType)
        ensures
            r == array_type_of(*self),
    {
        match self {
            DataType::Int8 => ColumnType::Int8,
            DataType::Int16 => ColumnType::Int16,
            DataType::Int32 => ColumnType::Int32,
            DataType::Int64 => ColumnType::Int64,
            DataType::UInt8 => ColumnType::UInt8,
            DataType::UInt16 => ColumnType::UInt16,
            DataType::UInt32 => ColumnType::UInt32,
            DataType::UInt64 => ColumnType::UInt64,
            DataType::Float32 => ColumnType::Float32,
            DataType::Float64 => ColumnType::Float64,
            DataType::Bool => ColumnType::Boolean,
            DataType::Utf8 => ColumnType::Utf8,
            DataType::LargeUtf8 => ColumnType::LargeUtf8,
            DataType::Binary => ColumnType::Binary,
            DataType::LargeBinary => ColumnType::LargeBinary,
            DataType::Date32 => ColumnType::Date32,
            DataType::Date64 => ColumnType::Date64,
            DataType::TimestampMicros => ColumnType::TimestampMicros,
            DataType::TimestampMillis => ColumnType::TimestampMillis,
        }
    }
}

/// A type is that of its own array type.
pub proof fn law_array_type_round_trip(dt: DataType)
    ensures
        data_type_of(array_type_of(dt)) == dt,
{
}

/// How the values of a column are stored.
#[derive(Debug, Clone, Copy, PartialEq, Eq, Structural)]
pub enum EncodingType {
    Raw,
    Delta,
    Rle,
    Dict,
    Alp,
    Gorilla,
    Bitpacked,
}

/// Statistics of one column.
#[derive(Debug)]
pub struct ColumnStats {
    pub name: String,
    pub data_type: DataType,
    pub min: Vec<u8>,
    pub max: Vec<u8>,
    pub null_count: u64,
    pub distinct_count: u64,
}

/// Statistics of some columns.
#[derive(Debug)]
pub struct ZoneMapStats {
    pub columns: Vec<ColumnStats>,
}

impl ZoneMapStats {
    /// No statistics.
    pub fn new() -> (r: Self)
        ensures
            r.columns@.len() == 0,
    {
        ZoneMapStats { columns: Vec::new() }
    }
}

/// A granule of a segment.
#[derive(Debug)]
pub struct GranuleMeta {
    pub granule_id: GranuleId,
    pub min_key: Vec<u8>,
    pub max_key: Vec<u8>,
    pub row_count: u64,
    pub del_count: u64,
    pub zone_map: Option<ZoneMapStats>,
    /// Whether zone maps of its blocks are kept beside the column files.
    pub has_block_zm: bool,
    /// Whether its visibility has to be checked by the next compaction.
    pub vis_dirty: bool,
}

impl Default for GranuleMeta {
    fn default() -> (r: Self)
        ensures
            r.granule_id == GranuleId(0),
            r.min_key@ == Seq::<u8>::empty(),
            r.max_key@ == Seq::<u8>::empty(),
            r.row_count == 0,
            r.del_count == 0,
            r.zone_map is None,
            !r.has_block_zm,
            !r.vis_dirty,
    {
        GranuleMeta {
            granule_id: GranuleId(0),
            min_key: Vec::new(),
            max_key: Vec::new(),
            row_count: 0,
            del_count: 0,
            zone_map: None,
            has_block_zm: false,
            vis_dirty: false,
        }
    }
}

/// A comparison with a value.
#[derive(Debug, Clone, Copy, PartialEq, Eq, Structural)]
pub enum CompareOp {
    Eq,
    Ne,
    Lt,
    Le,
    Gt,
    Ge,
}

/// A column of a table.
#[derive(Debug)]
pub struct ColumnDef {
    pub name: String,
    pub data_type: DataType,
    pub nullable: bool,
    pub default_expr: Option<String>,
}

impl ColumnDef {
    /// A nullable column without a default.
    pub fn new(name: String, data_type: DataType) -> (r: Self)
        ensures
            r == (ColumnDef { name, data_type, nullable: true, default_expr: None }),
    {
        ColumnDef { name, data_type, nullable: true, default_expr: None }
    }

    /// The same column, not nullable.
    pub fn not_null(self) -> (r: Self)
        ensures
            r == (ColumnDef { nullable: false, ..self }),
    {
        let mut r = self;
        r.nullable = false;
        r
    }
}

/// A segment. The part of its rows that are deleted is kept as a fraction.
#[derive(Debug)]
pub struct SegmentMeta {
    pub seg_id: String,
    pub table_id: String,
    pub status: SegmentStatus,
    pub seg_type: SegmentType,
    pub columns: Vec<ColumnDef>,
    pub min_key: Vec<u8>,
    pub max_key: Vec<u8>,
    pub row_count: u64,
    pub alive_row_count: u64,
    pub del_ratio: Ratio,
    pub size_bytes: u64,
    pub created_txn: u64,
    pub updated_txn: u64,
    pub updated_at: u64,
    pub file_paths: Vec<String>,
    pub granules: Vec<GranuleMeta>,
    /// Whether the segment has columns for the transactions that created and
    /// deleted its rows.
    pub has_visibility_columns: bool,
    pub delta_file_id: Option<String>,
    pub delta_row_count: u64,
    pub delta_l1_bytes: u64,
}

/// The rows of some granules.
pub open spec fn granule_rows(granules: Seq<GranuleMeta>) -> nat
    decreases granules.len(),
{
    if granules.len() == 0 {
        0
    } else {
        granule_rows(granules.drop_last()) + granules.last().row_count as nat
    }
}

/// The deleted rows of some granules.
pub open spec fn granule_deletes(granules: Seq<GranuleMeta>) -> nat
    decreases granules.len(),
{
    if granules.len() == 0 {
        0
    } else {
        granule_deletes(granules.drop_last()) + granules.last().del_count as nat
    }
}

/// The rows of `rows` that a deleted part leaves, rounded down; none when more
/// than all are deleted.
pub open spec fn rows_left(rows: nat, deleted: Ratio) -> nat {
    if deleted.den == 0 || deleted.num == 0 {
        rows
    } else if deleted.num >= deleted.den {
        0
    } else {
        (rows * (deleted.den - deleted.num)) as nat / deleted.den as nat
    }
}

proof fn lemma_granule_sums(granules: Seq<GranuleMeta>, n: int)
    requires
        0 <= n <= granules.len(),
    ensures
        granule_rows(granules.take(n)) <= granule_rows(granules),
        granule_deletes(granules.take(n)) <= granule_deletes(granules),
    decreases granules.len() - n,
{
    if n < granules.len() {
        assert(granules.take(n + 1).drop_last() =~= granules.take(n));
        lemma_granule_sums(granules, n + 1);
    } else {
        assert(granules.take(n) =~= granules);
    }
}

impl SegmentMeta {
    /// An empty active segment, created at a time in microseconds.
    pub fn new(seg_id: String, table_id: String, columns: Vec<ColumnDef>, now_micros: u64) -> (r: Self)
        ensures
            r.seg_id == seg_id,
            r.table_id == table_id,
            r.columns == columns,
            r.updated_at == now_micros,
            r.status == SegmentStatus::Active,
            r.seg_type == SegmentType::Delta,
            r.min_key@ == Seq::<u8>::empty(),
            r.max_key@ == Seq::<u8>::empty(),
            r.row_count == 0,
            r.alive_row_count == 0,
            r.del_ratio == (Ratio { num: 0, den: 1 }),
            r.size_bytes == 0,
            r.created_txn == 0,
            r.updated_txn == 0,
            r.file_paths@.len() == 0,
            r.granules@.len() == 0,
            r.has_visibility_columns,
            r.delta_file_id is None,
            r.delta_row_count == 0,
            r.delta_l1_bytes == 0,
    {
        SegmentMeta {
            seg_id,
            table_id,
            status: SegmentStatus::Active,
            seg_type: SegmentType::Delta,
            columns,
            min_key: Vec::new(),
            max_key: Vec::new(),
            row_count: 0,
            alive_row_count: 0,
            del_ratio: Ratio { num: 0, den: 1 },
            size_bytes: 0,
            created_txn: 0,
            updated_txn: 0,
            updated_at: now_micros,
            file_paths: Vec::new(),
            granules: Vec::new(),
            has_visibility_columns: true,
            delta_file_id: None,
            delta_row_count: 0,
            delta_l1_bytes: 0,
        }
    }

    /// The rows that are not deleted.
    pub fn alive_rows(&self) -> (n: u64)
        ensures
            n == rows_left(self.row_count as nat, self.del_ratio),
    {
        let den: u64 = self.del_ratio.den;
        let num: u64 = self.del_ratio.num;
        if den == 0 || num == 0 {
            return self.row_count;
        }
        if num >= den {
            return 0;
        }
        let rows: u128 = self.row_count as u128;
        let kept: u128 = (den - num) as u128;
        assert(rows * kept <= 0xffff_ffff_ffff_ffff * 0xffff_ffff_ffff_ffff) by (nonlinear_arith)
            requires
                0 <= rows <= 0xffff_ffff_ffff_ffff,
                0 <= kept <= 0xffff_ffff_ffff_ffff,
        ;
        let product: u128 = rows * kept;
        let left: u128 = product / den as u128;
        assert(left <= rows) by (nonlinear_arith)
            requires
                product == rows * kept,
                left == product / (den as u128),
                0 < kept <= den,
                rows >= 0,
                den > 0,
        ;
        left as u64
    }

    /// Recomputes the row counts and the deleted part from the granules.
    pub fn update_del_stats(&mut self)
        requires
            granule_rows(old(self).granules@) <= u64::MAX,
            granule_deletes(old(self).granules@) <= u64::MAX,
        ensures
            ({
                let rows = granule_rows(old(self).granules@);
                let deleted = granule_deletes(old(self).granules@);
                let ratio = if rows > 0 {
                    Ratio { num: deleted as u64, den: rows as u64 }
                } else {
                    Ratio { num: 0, den: 1 }
                };
                *final(self) == (SegmentMeta {
                    row_count: rows as u64,
                    del_ratio: ratio,
                    alive_row_count: rows_left(rows, ratio) as u64,
                    ..*old(self)
                })
            }),
    {
        let ghost all = self.granules@;
        let mut rows: u64 = 0;
        let mut deleted: u64 = 0;
        let mut i: usize = 0;
        assert(all.take(0) =~= Seq::empty());
        while i < self.granules.len()
            invariant
                *self == *old(self),
                all == self.granules@,
                i <= all.len(),
                granule_rows(all) <= u64::MAX,
                granule_deletes(all) <= u64::MAX,
                rows == granule_rows(all.take(i as int)),
                deleted == granule_deletes(all.take(i as int)),
            decreases all.len() - i,
        {
            proof {
                assert(all.take(i + 1).drop_last() =~= all.take(i as int));
                lemma_granule_sums(all, i + 1);
            }
            rows = rows + self.granules[i].row_count;
            deleted = deleted + self.granules[i].del_count;
            i = i + 1;
        }
        assert(all.take(i as int) =~= all);
        self.row_count = rows;
        self.del_ratio = if rows > 0 {
            Ratio { num: deleted, den: rows }
        } else {
            Ratio { num: 0, den: 1 }
        };
        self.alive_row_count = self.alive_rows();
    }
}

/// The rows that granules leave alive are those that they do not delete.
pub proof fn law_alive_rows_are_not_deleted(granules: Seq<GranuleMeta>)
    requires
        0 < granule_rows(granules) <= u64::MAX,
        granule_deletes(granules) <= granule_rows(granules),
    ensures
        rows_left(
            granule_rows(granules),
            Ratio {
                num: granule_deletes(granules) as u64,
                den: granule_rows(granules) as u64,
            },
        ) == granule_rows(granules) - granule_deletes(granules),
{
    let rows = granule_rows(granules) as int;
    let deleted = granule_deletes(granules) as int;
    assert(rows * (rows - deleted) / rows == rows - deleted) by (nonlinear_arith)
        requires
            rows > 0,
    ;
}

} // verus!
