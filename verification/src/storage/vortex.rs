//! Column files: how they are told apart, the metadata of their encoding in a
//! file beside them, the schema of their columns, and when a writer writes.
//!
//! The metadata of a column file stands in a file of its own: a header of 64
//! bytes for the file, and for each entry another header and its payload. A file
//! without the header is one bare payload.
use vstd::prelude::*;
use crate::codec::{bytes_range, get_le, le_bytes, le_value, lemma_le_len, lemma_le_round_trip, lemma_pow256, put_le};
use crate::column::{batch_rows, Batch, BatchView, ColumnType};
use crate::error::RockDuckError;
use crate::storage::fastlanes::EncodingScheme;
use crate::storage::parquet_format::{batch_views, file_batches, read_parquet_file};
use crate::storage::vortex_alp_ext::AdaptiveEncodingPicker;
use crate::text::{text_copy, text_same};

verus! {

/// The version of the headers.
pub const VEM_VERSION: u8 = 1;

/// The size of a header.
pub const VEM_HEADER_SIZE: usize = 64;

/// Rows that a writer collects before it writes, if nothing else is set.
pub const DEFAULT_FLUSH_THRESHOLD: u64 = 100000;

/// What a header starts with: `VEM1`.
pub open spec fn vem_magic() -> Seq<u8> {
    seq![0x56u8, 0x45u8, 0x4du8, 0x31u8]
}

/// A header of the metadata.
#[derive(Debug, Clone, Copy)]
pub struct EncodingMetaHeader {
    pub magic: [u8; 4],
    pub version: u8,
    /// Entries of the file, or one.
    pub entry_count: u32,
    /// Bytes of the payload behind the header.
    pub payload_len: u32,
}

/// A header in bytes: the magic number, the version, the entries and the length
/// of the payload, and zeros.
pub open spec fn header_bytes(
    magic: Seq<u8>,
    version: u8,
    entry_count: u32,
    payload_len: u32,
) -> Seq<u8> {
    magic + seq![version] + le_bytes(entry_count as nat, 4) + le_bytes(payload_len as nat, 4)
        + Seq::new(51, |i: int| 0u8)
}

impl EncodingMetaHeader {
    /// The header as it is written.
    pub open spec fn bytes(&self) -> Seq<u8> {
        header_bytes(self.magic@, self.version, self.entry_count, self.payload_len)
    }

    /// Whether the header is one of this version.
    pub open spec fn valid(&self) -> bool {
        self.magic@ == vem_magic() && self.version == VEM_VERSION
    }

    /// The header of a file.
    pub fn new_file_header(entry_count: u32) -> (r: Self)
        ensures
            r.valid(),
            r.entry_count == entry_count,
            r.payload_len == 0,
    {
        let magic: [u8; 4] = [0x56, 0x45, 0x4d, 0x31];
        assert(magic@ =~= vem_magic());
        EncodingMetaHeader { magic, version: VEM_VERSION, entry_count, payload_len: 0 }
    }

    /// The header of an entry.
    pub fn new_entry(payload_len: u32) -> (r: Self)
        ensures
            r.valid(),
            r.entry_count == 1,
            r.payload_len == payload_len,
    {
        let magic: [u8; 4] = [0x56, 0x45, 0x4d, 0x31];
        assert(magic@ =~= vem_magic());
        EncodingMetaHeader { magic, version: VEM_VERSION, entry_count: 1, payload_len }
    }

    /// The header as it is written.
    pub fn to_bytes(&self) -> (r: Vec<u8>)
        ensures
            r@ == self.bytes(),
            r@.len() == VEM_HEADER_SIZE,
    {
        let mut r: Vec<u8> = Vec::new();
        r.push(self.magic[0]);
        r.push(self.magic[1]);
        r.push(self.magic[2]);
        r.push(self.magic[3]);
        assert(r@ =~= self.magic@);
        r.push(self.version);
        assert(r@ =~= self.magic@ + seq![self.version]);
        proof {
            lemma_pow256();
            lemma_le_len(self.entry_count as nat, 4);
            lemma_le_len(self.payload_len as nat, 4);
        }
        put_le(&mut r, self.entry_count as u64, 4);
        put_le(&mut r, self.payload_len as u64, 4);
        let ghost head = r@;
        let mut i: usize = 0;
        while i < 51
            invariant
                i <= 51,
                r@ == head + Seq::new(i as nat, |k: int| 0u8),
            decreases 51 - i,
        {
            r.push(0);
            i = i + 1;
            assert(r@ =~= head + Seq::new(i as nat, |k: int| 0u8));
        }
        assert(r@ =~= self.bytes());
        r
    }

    /// Reads a header.
    pub fn from_bytes(bytes: &[u8]) -> (r: Self)
        requires
            bytes@.len() == VEM_HEADER_SIZE,
        ensures
            r.magic@ == bytes@.take(4),
            r.version == bytes@[4],
            r.entry_count == le_value(bytes@.subrange(5, 9)),
            r.payload_len == le_value(bytes@.subrange(9, 13)),
    {
        let magic: [u8; 4] = [bytes[0], bytes[1], bytes[2], bytes[3]];
        assert(magic@ =~= bytes@.take(4));
        proof {
            lemma_pow256();
            crate::codec::lemma_le_value_round_trip(bytes@.subrange(5, 9));
            crate::codec::lemma_le_value_round_trip(bytes@.subrange(9, 13));
        }
        let entry_count: u64 = get_le(bytes, 5, 4);
        let payload_len: u64 = get_le(bytes, 9, 4);
        EncodingMetaHeader {
            magic,
            version: bytes[4],
            entry_count: entry_count as u32,
            payload_len: payload_len as u32,
        }
    }

    /// Whether the header is one of this version.
    pub fn is_valid(&self) -> (r: bool)
        ensures
            r == self.valid(),
    {
        let same = self.magic[0] == 0x56 && self.magic[1] == 0x45 && self.magic[2] == 0x4d
            && self.magic[3] == 0x31;
        assert(same == (self.magic@ =~= vem_magic()));
        same && self.version == VEM_VERSION
    }
}

/// Whether some bytes start with a header of this version.
pub open spec fn starts_with_header(bytes: Seq<u8>) -> bool {
    bytes.len() >= VEM_HEADER_SIZE && bytes.take(4) == vem_magic() && bytes[4] == VEM_VERSION
}

/// The payload of the first entry of a metadata file: all of a file without the
/// header. A file is damaged that is too short for a header, for the entry behind
/// it, or for the payload of the entry, or whose entry has no header.
pub open spec fn sidecar_payload(bytes: Seq<u8>) -> Option<Seq<u8>> {
    if bytes.len() < VEM_HEADER_SIZE {
        None
    } else if !starts_with_header(bytes) {
        Some(bytes)
    } else {
        let entry = bytes.skip(VEM_HEADER_SIZE as int);
        if !starts_with_header(entry) || entry.len() < VEM_HEADER_SIZE + le_value(
            entry.subrange(9, 13),
        ) {
            None
        } else {
            Some(
                entry.subrange(
                    VEM_HEADER_SIZE as int,
                    VEM_HEADER_SIZE + le_value(entry.subrange(9, 13)) as int,
                ),
            )
        }
    }
}

fn header_at(bytes: &[u8], at: usize) -> (r: EncodingMetaHeader)
    requires
        at + VEM_HEADER_SIZE <= bytes@.len(),
    ensures
        r.valid() == starts_with_header(bytes@.skip(at as int)),
        r.payload_len == le_value(bytes@.skip(at as int).subrange(9, 13)),
{
    let n: usize = bytes.len();
    assert(at + VEM_HEADER_SIZE <= n);
    let part = bytes_range(bytes, at, at + VEM_HEADER_SIZE);
    let header = EncodingMetaHeader::from_bytes(part.as_slice());
    proof {
        let rest = bytes@.skip(at as int);
        assert(part@.take(4) =~= rest.take(4));
        assert(part@[4] == rest[4]);
        assert(part@.subrange(9, 13) =~= rest.subrange(9, 13));
    }
    header
}

/// The payload of the first entry of a metadata file.
pub fn read_sidecar(bytes: &[u8]) -> (r: Result<Vec<u8>, RockDuckError>)
    ensures
        match r {
            Ok(payload) => sidecar_payload(bytes@) == Some(payload@),
            Err(e) => sidecar_payload(bytes@) is None && e == RockDuckError::Codec,
        },
{
    let n: usize = bytes.len();
    if n < VEM_HEADER_SIZE {
        return Err(RockDuckError::Codec);
    }
    let file_header = header_at(bytes, 0);
    assert(bytes@.skip(0) =~= bytes@);
    if !file_header.is_valid() {
        let all = bytes_range(bytes, 0, n);
        assert(all@ =~= bytes@);
        return Ok(all);
    }
    if n - VEM_HEADER_SIZE < VEM_HEADER_SIZE {
        return Err(RockDuckError::Codec);
    }
    let entry_header = header_at(bytes, VEM_HEADER_SIZE);
    if !entry_header.is_valid() {
        return Err(RockDuckError::Codec);
    }
    let start: usize = 2 * VEM_HEADER_SIZE;
    let len: usize = entry_header.payload_len as usize;
    if n - start < len {
        return Err(RockDuckError::Codec);
    }
    let payload = bytes_range(bytes, start, start + len);
    proof {
        let entry = bytes@.skip(VEM_HEADER_SIZE as int);
        assert(payload@ =~= entry.subrange(VEM_HEADER_SIZE as int, VEM_HEADER_SIZE + len as int));
    }
    Ok(payload)
}

/// The bytes that an entry adds to a metadata file: before the first one the
/// header of the file.
pub open spec fn sidecar_entry(payload: Seq<u8>, first: bool) -> Seq<u8> {
    (if first {
        header_bytes(vem_magic(), VEM_VERSION, 1, 0)
    } else {
        Seq::empty()
    }) + header_bytes(vem_magic(), VEM_VERSION, 1, payload.len() as u32) + payload
}

/// The bytes that an entry adds to a metadata file.
pub fn write_sidecar_entry(payload: &[u8], first: bool) -> (r: Vec<u8>)
    requires
        payload@.len() <= u32::MAX,
    ensures
        r@ == sidecar_entry(payload@, first),
{
    let mut r: Vec<u8> = if first {
        let header = EncodingMetaHeader::new_file_header(1);
        header.to_bytes()
    } else {
        Vec::new()
    };
    let entry = EncodingMetaHeader::new_entry(payload.len() as u32);
    let entry_bytes = entry.to_bytes();
    crate::codec::bytes_append(&mut r, entry_bytes.as_slice());
    crate::codec::bytes_append(&mut r, payload);
    assert(r@ =~= sidecar_entry(payload@, first));
    r
}

/// Whether the first bytes of a file are those of the column format: `VTXF`.
pub open spec fn is_column_file(bytes: Seq<u8>) -> bool {
    bytes.len() >= 4 && bytes.take(4) == seq![0x56u8, 0x54u8, 0x58u8, 0x46u8]
}

/// Whether the first bytes of a file are those of the column format: `VTXF`.
pub fn looks_like_vortex(head: &[u8]) -> (r: bool)
    ensures
        r == is_column_file(head@),
{
    if head.len() < 4 {
        return false;
    }
    let same = head[0] == 0x56 && head[1] == 0x54 && head[2] == 0x58 && head[3] == 0x46;
    assert(same == (head@.take(4) =~= seq![0x56u8, 0x54u8, 0x58u8, 0x46u8]));
    same
}

/// The file and the rows of a column, in brief.
#[derive(Debug)]
pub struct VortexMeta {
    pub num_rows: u64,
    pub num_batches: usize,
    pub schema_json: String,
}

/// The type of a field of a schema.
#[derive(Debug, Clone, Copy, PartialEq, Eq, Structural)]
pub enum FieldType {
    Null,
    Float16,
    Column(ColumnType),
}

/// A field of a schema.
#[derive(Debug)]
pub struct Field {
    pub name: String,
    pub data_type: FieldType,
    pub nullable: bool,
}

/// A field of a schema, with its type as text.
#[derive(Debug)]
pub struct SchemaField {
    pub name: String,
    pub data_type_str: String,
    pub nullable: bool,
}

/// The name of a type; a type that is not read has none.
pub open spec fn field_name(t: FieldType) -> Option<Seq<char>> {
    match t {
        FieldType::Null => Some("Null"@),
        FieldType::Float16 => Some("Float16"@),
        FieldType::Column(c) => match c {
            ColumnType::Boolean => Some("Boolean"@),
            ColumnType::Int8 => Some("Int8"@),
            ColumnType::Int16 => Some("Int16"@),
            ColumnType::Int32 => Some("Int32"@),
            ColumnType::Int64 => Some("Int64"@),
            ColumnType::UInt8 => Some("UInt8"@),
            ColumnType::UInt16 => Some("UInt16"@),
            ColumnType::UInt32 => Some("UInt32"@),
            ColumnType::UInt64 => Some("UInt64"@),
            ColumnType::Float32 => Some("Float32"@),
            ColumnType::Float64 => Some("Float64"@),
            ColumnType::TimestampSecond => Some("Timestamp(Second, None)"@),
            ColumnType::TimestampMillis => Some("Timestamp(Millisecond, None)"@),
            ColumnType::TimestampMicros => Some("Timestamp(Microsecond, None)"@),
            ColumnType::TimestampNanos => Some("Timestamp(Nanosecond, None)"@),
            ColumnType::Date32 => Some("Date32"@),
            ColumnType::Date64 => Some("Date64"@),
            ColumnType::Binary => Some("Binary"@),
            ColumnType::LargeBinary => Some("LargeBinary"@),
            ColumnType::Utf8 => Some("Utf8"@),
            ColumnType::LargeUtf8 => Some("LargeUtf8"@),
            ColumnType::Other => None,
        },
    }
}

/// The types that have a name, in the order in which names are compared.
pub open spec fn named_types() -> Seq<FieldType> {
    seq![
        FieldType::Null,
        FieldType::Column(ColumnType::Boolean),
        FieldType::Column(ColumnType::Int8),
        FieldType::Column(ColumnType::Int16),
        FieldType::Column(ColumnType::Int32),
        FieldType::Column(ColumnType::Int64),
        FieldType::Column(ColumnType::UInt8),
        FieldType::Column(ColumnType::UInt16),
        FieldType::Column(ColumnType::UInt32),
        FieldType::Column(ColumnType::UInt64),
        FieldType::Float16,
        FieldType::Column(ColumnType::Float32),
        FieldType::Column(ColumnType::Float64),
        FieldType::Column(ColumnType::TimestampSecond),
        FieldType::Column(ColumnType::TimestampMillis),
        FieldType::Column(ColumnType::TimestampMicros),
        FieldType::Column(ColumnType::TimestampNanos),
        FieldType::Column(ColumnType::Date32),
        FieldType::Column(ColumnType::Date64),
        FieldType::Column(ColumnType::Binary),
        FieldType::Column(ColumnType::LargeBinary),
        FieldType::Column(ColumnType::Utf8),
        FieldType::Column(ColumnType::LargeUtf8),
    ]
}

impl FieldType {
    /// The name of the type; `Other` for a type that is not read.
    pub fn name(self) -> (r: &'static str)
        ensures
            match field_name(self) {
                Some(n) => r@ == n,
                None => r@ == "Other"@,
            },
    {
        match self {
            FieldType::Null => "Null",
            FieldType::Float16 => "Float16",
            FieldType::Column(c) => match c {
                ColumnType::Boolean => "Boolean",
                ColumnType::Int8 => "Int8",
                ColumnType::Int16 => "Int16",
                ColumnType::Int32 => "Int32",
                ColumnType::Int64 => "Int64",
                ColumnType::UInt8 => "UInt8",
                ColumnType::UInt16 => "UInt16",
                ColumnType::UInt32 => "UInt32",
                ColumnType::UInt64 => "UInt64",
                ColumnType::Float32 => "Float32",
                ColumnType::Float64 => "Float64",
                ColumnType::TimestampSecond => "Timestamp(Second, None)",
                ColumnType::TimestampMillis => "Timestamp(Millisecond, None)",
                ColumnType::TimestampMicros => "Timestamp(Microsecond, None)",
                ColumnType::TimestampNanos => "Timestamp(Nanosecond, None)",
                ColumnType::Date32 => "Date32",
                ColumnType::Date64 => "Date64",
                ColumnType::Binary => "Binary",
                ColumnType::LargeBinary => "LargeBinary",
                ColumnType::Utf8 => "Utf8",
                ColumnType::LargeUtf8 => "LargeUtf8",
                ColumnType::Other => "Other",
            },
        }
    }
}

/// Whether a type has a name.
pub open spec fn is_name_of(t: FieldType, s: Seq<char>) -> bool {
    field_name(t) == Some(s)
}

/// Whether a text is the name of a type.
pub open spec fn is_named(s: Seq<char>) -> bool {
    exists|t: FieldType| #[trigger] is_name_of(t, s)
}

fn types() -> (r: Vec<FieldType>)
    ensures
        r@ == named_types(),
{
    let r: Vec<FieldType> = vec![
        FieldType::Null,
        FieldType::Column(ColumnType::Boolean),
        FieldType::Column(ColumnType::Int8),
        FieldType::Column(ColumnType::Int16),
        FieldType::Column(ColumnType::Int32),
        FieldType::Column(ColumnType::Int64),
        FieldType::Column(ColumnType::UInt8),
        FieldType::Column(ColumnType::UInt16),
        FieldType::Column(ColumnType::UInt32),
        FieldType::Column(ColumnType::UInt64),
        FieldType::Float16,
        FieldType::Column(ColumnType::Float32),
        FieldType::Column(ColumnType::Float64),
        FieldType::Column(ColumnType::TimestampSecond),
        FieldType::Column(ColumnType::TimestampMillis),
        FieldType::Column(ColumnType::TimestampMicros),
        FieldType::Column(ColumnType::TimestampNanos),
        FieldType::Column(ColumnType::Date32),
        FieldType::Column(ColumnType::Date64),
        FieldType::Column(ColumnType::Binary),
        FieldType::Column(ColumnType::LargeBinary),
        FieldType::Column(ColumnType::Utf8),
        FieldType::Column(ColumnType::LargeUtf8),
    ];
    assert(r@ =~= named_types());
    r
}

/// Every type with a name is among those whose names are compared.
proof fn lemma_named(t: FieldType) -> (i: int)
    requires
        field_name(t) is Some,
    ensures
        0 <= i < named_types().len(),
        named_types()[i] == t,
{
    match t {
        FieldType::Null => 0,
        FieldType::Float16 => 10,
        FieldType::Column(c) => match c {
            ColumnType::Boolean => 1,
            ColumnType::Int8 => 2,
            ColumnType::Int16 => 3,
            ColumnType::Int32 => 4,
            ColumnType::Int64 => 5,
            ColumnType::UInt8 => 6,
            ColumnType::UInt16 => 7,
            ColumnType::UInt32 => 8,
            ColumnType::UInt64 => 9,
            ColumnType::Float32 => 11,
            ColumnType::Float64 => 12,
            ColumnType::TimestampSecond => 13,
            ColumnType::TimestampMillis => 14,
            ColumnType::TimestampMicros => 15,
            ColumnType::TimestampNanos => 16,
            ColumnType::Date32 => 17,
            ColumnType::Date64 => 18,
            ColumnType::Binary => 19,
            ColumnType::LargeBinary => 20,
            ColumnType::Utf8 => 21,
            ColumnType::LargeUtf8 => 22,
            ColumnType::Other => 0,
        },
    }
}

/// The type that has a name.
pub fn parse_data_type(s: &str) -> (r: Result<FieldType, RockDuckError>)
    ensures
        match r {
            Ok(t) => is_name_of(t, s@),
            Err(e) => e == RockDuckError::TypeMismatch && forall|t: FieldType|
                !#[trigger] is_name_of(t, s@),
        },
{
    let list = types();
    let mut i: usize = 0;
    while i < list.len()
        invariant
            list@ == named_types(),
            i <= list@.len(),
            forall|k: int|
                #![trigger named_types()[k]]
                0 <= k < i ==> !is_name_of(named_types()[k], s@),
        decreases list@.len() - i,
    {
        let t = list[i];
        assert(field_name(t) is Some) by {
            assert(t == named_types()[i as int]);
        }
        if text_same(t.name(), s) {
            return Ok(t);
        }
        i = i + 1;
    }
    proof {
        assert forall|t: FieldType| !#[trigger] is_name_of(t, s@) by {
            if is_name_of(t, s@) {
                let k = lemma_named(t);
                assert(!is_name_of(named_types()[k], s@));
            }
        }
    }
    Err(RockDuckError::TypeMismatch)
}

impl SchemaField {
    /// A field with its type as text.
    pub fn from_field(field: &Field) -> (r: Self)
        ensures
            r.name@ == field.name@,
            match field_name(field.data_type) {
                Some(n) => r.data_type_str@ == n,
                None => r.data_type_str@ == "Other"@,
            },
            r.nullable == field.nullable,
    {
        SchemaField {
            name: field.name.clone(),
            data_type_str: text_copy(field.data_type.name()),
            nullable: field.nullable,
        }
    }

    /// The field with its type, if the type is one with a name.
    pub fn to_field(&self) -> (r: Result<Field, RockDuckError>)
        ensures
            match r {
                Ok(f) => f.name@ == self.name@ && is_name_of(f.data_type, self.data_type_str@)
                    && f.nullable == self.nullable,
                Err(e) => e == RockDuckError::TypeMismatch && forall|t: FieldType|
                    !#[trigger] is_name_of(t, self.data_type_str@),
            },
            r is Ok <==> is_named(self.data_type_str@),
    {
        match parse_data_type(self.data_type_str.as_str()) {
            Ok(data_type) => Ok(
                Field { name: self.name.clone(), data_type, nullable: self.nullable },
            ),
            Err(e) => Err(e),
        }
    }
}

/// The encoding that suits the values of a type.
pub open spec fn suited(dt: ColumnType) -> Seq<char> {
    match dt {
        ColumnType::Float32 | ColumnType::Float64 => "BtrBlocks(ALP)"@,
        ColumnType::Int8
        | ColumnType::Int16
        | ColumnType::Int32
        | ColumnType::Int64
        | ColumnType::UInt8
        | ColumnType::UInt16
        | ColumnType::UInt32
        | ColumnType::UInt64 => "BtrBlocks(FastLanes)"@,
        _ => "BtrBlocks"@,
    }
}

/// The encoding that suits the values of a type.
pub fn recommended_encoding(dt: ColumnType) -> (r: &'static str)
    ensures
        r@ == suited(dt),
{
    match dt {
        ColumnType::Float32 | ColumnType::Float64 => "BtrBlocks(ALP)",
        ColumnType::Int8
        | ColumnType::Int16
        | ColumnType::Int32
        | ColumnType::Int64
        | ColumnType::UInt8
        | ColumnType::UInt16
        | ColumnType::UInt32
        | ColumnType::UInt64 => "BtrBlocks(FastLanes)",
        _ => "BtrBlocks",
    }
}

/// A schema of columns that may all lack values.
pub fn make_schema(columns: &Vec<(String, FieldType)>) -> (r: Vec<Field>)
    ensures
        r@.len() == columns@.len(),
        forall|i: int|
            #![trigger r@[i]]
            0 <= i < r@.len() ==> r@[i].name@ == columns@[i].0@ && r@[i].data_type == columns@[i].1
                && r@[i].nullable,
{
    let mut fields: Vec<Field> = Vec::new();
    let mut i: usize = 0;
    while i < columns.len()
        invariant
            i <= columns@.len(),
            fields@.len() == i,
            forall|k: int|
                #![trigger fields@[k]]
                0 <= k < i ==> fields@[k].name@ == columns@[k].0@ && fields@[k].data_type
                    == columns@[k].1 && fields@[k].nullable,
        decreases columns@.len() - i,
    {
        fields.push(Field { name: columns[i].0.clone(), data_type: columns[i].1, nullable: true });
        i = i + 1;
    }
    fields
}

/// How many rows the first `n` batches have.
pub open spec fn rows_before(rows: Seq<u64>, n: int) -> nat
    decreases n,
{
    if n <= 0 {
        0
    } else {
        rows_before(rows, n - 1) + rows[n - 1] as nat
    }
}

proof fn lemma_rows_before(rows: Seq<u64>, i: int, j: int)
    requires
        0 <= i <= j <= rows.len(),
    ensures
        rows_before(rows, i) <= rows_before(rows, j),
    decreases j - i,
{
    if i < j {
        lemma_rows_before(rows, i, j - 1);
    }
}

/// The batch that a row lies in, and its place there.
pub fn locate_row(rows: &[u64], total_rows: u64, row_offset: u64) -> (r: Option<(usize, u64)>)
    ensures
        match r {
            Some((batch, place)) => {
                &&& row_offset < total_rows
                &&& batch < rows@.len()
                &&& place < rows@[batch as int]
                &&& rows_before(rows@, batch as int) + place == row_offset
            },
            None => row_offset >= total_rows || row_offset >= rows_before(
                rows@,
                rows@.len() as int,
            ),
        },
{
    if row_offset >= total_rows {
        return None;
    }
    let mut left: u64 = row_offset;
    let mut i: usize = 0;
    while i < rows.len()
        invariant
            i <= rows@.len(),
            row_offset < total_rows,
            rows_before(rows@, i as int) + left == row_offset,
        decreases rows@.len() - i,
    {
        if left < rows[i] {
            return Some((i, left));
        }
        left = left - rows[i];
        i = i + 1;
    }
    None
}

/// What is known of the encoding of a column.
#[derive(Debug)]
pub struct ColumnEncoding {
    pub column_name: String,
    pub scheme: EncodingScheme,
    pub total_rows: u64,
    pub original_bytes: u64,
    pub encoded_bytes: u64,
}

/// The scheme of most rows: the last one where several have as many.
pub open spec fn dominant(schemes: Seq<(EncodingScheme, u32)>) -> EncodingScheme
    decreases schemes.len(),
{
    if schemes.len() == 0 {
        EncodingScheme::BtrBlocks
    } else {
        schemes[dominant_at(schemes)].0
    }
}

/// The place of the scheme of most rows.
pub open spec fn dominant_at(schemes: Seq<(EncodingScheme, u32)>) -> int
    decreases schemes.len(),
{
    if schemes.len() <= 1 {
        0
    } else {
        let before = dominant_at(schemes.drop_last());
        if schemes[before].1 <= schemes.last().1 {
            schemes.len() - 1
        } else {
            before
        }
    }
}

/// The scheme of most rows.
pub fn dominant_scheme(schemes: &Vec<(EncodingScheme, u32)>) -> (r: EncodingScheme)
    ensures
        r == dominant(schemes@),
{
    let n: usize = schemes.len();
    if n == 0 {
        return EncodingScheme::BtrBlocks;
    }
    let mut best: usize = 0;
    let mut i: usize = 1;
    while i < n
        invariant
            n == schemes@.len(),
            best < i <= n,
            best == dominant_at(schemes@.take(i as int)),
        decreases n - i,
    {
        assert(schemes@.take(i + 1).drop_last() =~= schemes@.take(i as int));
        if schemes[best].1 <= schemes[i].1 {
            best = i;
        }
        i = i + 1;
    }
    assert(schemes@.take(n as int) =~= schemes@);
    schemes[best].0
}

/// What a column file holds. A file in the column format that could be opened
/// holds the batch that was read from it; any other is read as one in Arrow's form.
pub open spec fn column_file(bytes: Seq<u8>, column: Option<Result<BatchView, RockDuckError>>) -> Result<
    Seq<BatchView>,
    RockDuckError,
> {
    match column {
        Some(read) if is_column_file(bytes) => match read {
            Ok(b) => Ok(seq![b]),
            Err(e) => Err(e),
        },
        _ => match file_batches(bytes, None) {
            Ok(list) => Ok(list),
            Err(_) => Err(RockDuckError::Internal),
        },
    }
}

/// What was read from a file in the column format.
pub open spec fn read_view(column: Option<Result<Batch, RockDuckError>>) -> Option<
    Result<BatchView, RockDuckError>,
> {
    match column {
        Some(Ok(b)) => Some(Ok(b@)),
        Some(Err(e)) => Some(Err(e)),
        None => None,
    }
}

/// How many rows each batch has.
pub open spec fn batch_lens(batches: Seq<BatchView>) -> Seq<u64> {
    batches.map_values(|b: BatchView| batch_rows(b) as u64)
}

/// How many rows some batches have, as far as that can be counted.
pub open spec fn counted_rows(batches: Seq<BatchView>) -> u64 {
    let n = rows_before(batch_lens(batches), batches.len() as int);
    if n > u64::MAX {
        u64::MAX
    } else {
        n as u64
    }
}

/// How many rows each batch has.
fn list_lens(batches: &Vec<Batch>) -> (r: Vec<u64>)
    ensures
        r@ == batch_lens(batch_views(batches@)),
{
    let mut r: Vec<u64> = Vec::new();
    let mut i: usize = 0;
    while i < batches.len()
        invariant
            i <= batches@.len(),
            r@.len() == i,
            forall|k: int|
                #![trigger r@[k]]
                0 <= k < i ==> r@[k] == batch_lens(batch_views(batches@))[k],
        decreases batches@.len() - i,
    {
        r.push(batches[i].num_rows() as u64);
        i = i + 1;
    }
    assert(r@ =~= batch_lens(batch_views(batches@)));
    r
}

/// A reader of a column file.
#[derive(Debug)]
pub struct VortexReader {
    pub batches: Vec<Batch>,
    pub total_rows: u64,
    pub encoding_meta: Option<ColumnEncoding>,
}

impl VortexReader {
    /// The rows of the batches are counted.
    pub open spec fn wf(&self) -> bool {
        self.total_rows == counted_rows(batch_views(self.batches@))
    }

    /// Opens a file: its bytes, what was read from it as one in the column format,
    /// if it could be opened as such, and what is known of its encoding.
    pub fn open(
        bytes: &[u8],
        column: Option<Result<Batch, RockDuckError>>,
        encoding_meta: Option<ColumnEncoding>,
    ) -> (r: Result<Self, RockDuckError>)
        ensures
            match r {
                Ok(reader) => reader.wf() && reader.encoding_meta == encoding_meta && column_file(
                    bytes@,
                    read_view(column),
                ) == Ok::<Seq<BatchView>, RockDuckError>(batch_views(reader.batches@)),
                Err(e) => column_file(bytes@, read_view(column)) == Err::<
                    Seq<BatchView>,
                    RockDuckError,
                >(e),
            },
    {
        let batches: Vec<Batch> = match column {
            Some(read) if looks_like_vortex(bytes) => match read {
                Ok(batch) => {
                    let mut list: Vec<Batch> = Vec::new();
                    list.push(batch);
                    assert(batch_views(list@) =~= seq![batch@]);
                    list
                },
                Err(e) => {
                    return Err(e);
                },
            },
            _ => match read_parquet_file(bytes) {
                Ok(list) => list,
                Err(_) => {
                    return Err(RockDuckError::Internal);
                },
            },
        };
        let lens = list_lens(&batches);
        let mut total_rows: u64 = 0;
        let mut i: usize = 0;
        while i < lens.len()
            invariant
                i <= lens@.len(),
                total_rows == (if rows_before(lens@, i as int) > u64::MAX {
                    u64::MAX as nat
                } else {
                    rows_before(lens@, i as int)
                }),
            decreases lens@.len() - i,
        {
            total_rows = total_rows.saturating_add(lens[i]);
            i = i + 1;
        }
        Ok(VortexReader { batches, total_rows, encoding_meta })
    }

    /// All batches.
    pub fn read_all_batches(&self) -> (r: &Vec<Batch>)
        ensures
            *r == self.batches,
    {
        &self.batches
    }

    /// The batch that a row lies in, and its place there.
    pub fn read_batch_at(&self, row_offset: u64) -> (r: Option<(Batch, usize)>)
        requires
            self.wf(),
        ensures
            ({
                let views = batch_views(self.batches@);
                match r {
                    Some((batch, place)) => exists|i: int|
                        0 <= i < views.len() && batch@ == #[trigger] views[i] && place < batch_rows(
                            views[i],
                        ) && rows_before(batch_lens(views), i) + place == row_offset,
                    None => row_offset >= counted_rows(views),
                }
            }),
    {
        let lens = list_lens(&self.batches);
        match locate_row(lens.as_slice(), self.total_rows, row_offset) {
            Some((i, place)) => {
                let ghost views = batch_views(self.batches@);
                let batch = self.batches[i].copy();
                let rows: usize = batch.num_rows();
                assert(views[i as int] == self.batches@[i as int]@);
                assert(lens@[i as int] == rows);
                Some((batch, place as usize))
            },
            None => None,
        }
    }

    /// How many rows there are.
    pub fn total_rows(&self) -> (r: u64)
        ensures
            r == self.total_rows,
    {
        self.total_rows
    }

    /// How many batches there are.
    pub fn num_batches(&self) -> (r: usize)
        ensures
            r == self.batches@.len(),
    {
        self.batches.len()
    }

    /// What is known of the encoding.
    pub fn encoding_meta(&self) -> (r: Option<&ColumnEncoding>)
        ensures
            match r {
                Some(m) => self.encoding_meta == Some(*m),
                None => self.encoding_meta is None,
            },
    {
        match &self.encoding_meta {
            Some(m) => Some(m),
            None => None,
        }
    }
}

/// A writer of a column file. It collects batches, and writes them when there are
/// rows enough.
#[derive(Debug)]
pub struct VortexWriter {
    pub path: String,
    pub col_name: String,
    /// The batches that are not yet written.
    pub batches: Vec<Batch>,
    /// Rows of those batches.
    pub total_rows: u64,
    pub picker: Option<AdaptiveEncodingPicker>,
    pub flush_threshold: u64,
    /// Bytes of all batches, and of what was written of them.
    pub bytes_written: u64,
    /// Bytes of the batches that were written.
    pub streaming_original_bytes: u64,
    /// Bytes that were written.
    pub streaming_encoded_bytes: u64,
    /// Rows that were written.
    pub total_rows_flushed: u64,
}

/// How many rows some batches have.
pub open spec fn batches_rows(batches: Seq<Batch>) -> nat
    decreases batches.len(),
{
    if batches.len() == 0 {
        0
    } else {
        batches_rows(batches.drop_last()) + batch_rows(batches.last()@)
    }
}

/// What a writer does when it ends.
#[derive(Debug, Clone, Copy, PartialEq, Eq, Structural)]
pub enum FinishStep {
    /// The batches that it holds are written.
    Write,
    /// All was written before.
    Report,
}

/// What was written of the batches at once: the scheme, and the bytes before and
/// after.
#[derive(Debug, Clone, Copy, PartialEq, Eq, Structural)]
pub struct Written {
    pub scheme: EncodingScheme,
    pub original_bytes: u64,
    pub encoded_bytes: u64,
}

impl VortexWriter {
    /// The rows of the batches are counted.
    pub open spec fn wf(&self) -> bool {
        &&& self.total_rows == batches_rows(self.batches@)
        &&& forall|i: int|
            #![trigger self.batches@[i]]
            0 <= i < self.batches@.len() ==> self.batches@[i].wf()
    }

    /// A writer without batches that uses the general encoding.
    pub fn create(path: String, col_name: String) -> (r: Self)
        ensures
            r.wf(),
            r.path == path,
            r.col_name == col_name,
            r.batches@.len() == 0,
            r.picker is None,
            r.flush_threshold == DEFAULT_FLUSH_THRESHOLD,
            r.bytes_written == 0 && r.streaming_original_bytes == 0 && r.streaming_encoded_bytes
                == 0 && r.total_rows_flushed == 0,
    {
        VortexWriter {
            path,
            col_name,
            batches: Vec::new(),
            total_rows: 0,
            picker: None,
            flush_threshold: DEFAULT_FLUSH_THRESHOLD,
            bytes_written: 0,
            streaming_original_bytes: 0,
            streaming_encoded_bytes: 0,
            total_rows_flushed: 0,
        }
    }

    /// A writer without batches that picks the encoding.
    pub fn with_encoding_picker(path: String, col_name: String, picker: AdaptiveEncodingPicker) -> (r:
        Self)
        ensures
            r.wf(),
            r.path == path,
            r.col_name == col_name,
            r.batches@.len() == 0,
            r.picker == Some(picker),
            r.flush_threshold == DEFAULT_FLUSH_THRESHOLD,
            r.bytes_written == 0 && r.streaming_original_bytes == 0 && r.streaming_encoded_bytes
                == 0 && r.total_rows_flushed == 0,
    {
        let mut r = Self::create(path, col_name);
        r.picker = Some(picker);
        r
    }

    /// The writer with another number of rows before it writes.
    pub fn with_flush_threshold(self, threshold: u64) -> (r: Self)
        ensures
            r == (VortexWriter { flush_threshold: threshold, ..self }),
    {
        let mut r = self;
        r.flush_threshold = threshold;
        r
    }

    /// Takes a batch of some bytes.
    pub fn write(&mut self, batch: Batch, memory_size: u64) -> (r: Result<(), RockDuckError>)
        requires
            old(self).wf(),
            batch.wf(),
            old(self).total_rows + batch_rows(batch@) <= u64::MAX,
            old(self).bytes_written + memory_size <= u64::MAX,
        ensures
            r is Ok,
            final(self).wf(),
            final(self).batches@ == old(self).batches@.push(batch),
            final(self).total_rows == old(self).total_rows + batch_rows(batch@),
            final(self).bytes_written == old(self).bytes_written + memory_size,
            final(self).path == old(self).path,
            final(self).col_name == old(self).col_name,
            final(self).picker == old(self).picker,
            final(self).flush_threshold == old(self).flush_threshold,
            final(self).streaming_original_bytes == old(self).streaming_original_bytes,
            final(self).streaming_encoded_bytes == old(self).streaming_encoded_bytes,
            final(self).total_rows_flushed == old(self).total_rows_flushed,
    {
        let ghost before = self.batches@;
        let rows: usize = batch.num_rows();
        self.total_rows = self.total_rows + rows as u64;
        self.bytes_written = self.bytes_written + memory_size;
        self.batches.push(batch);
        assert(self.batches@.drop_last() =~= before);
        Ok(())
    }

    /// How many batches are to be written now: all of them once there are rows
    /// enough, none before.
    pub fn flush_pending(&self) -> (r: usize)
        requires
            self.wf(),
        ensures
            r == if self.total_rows < self.flush_threshold {
                0
            } else {
                self.batches@.len()
            },
    {
        if self.total_rows < self.flush_threshold {
            0
        } else {
            self.batches.len()
        }
    }

    /// Notes that the batches were written, and what is known of their encoding.
    pub fn finish_flush(&mut self, done: Written) -> (r: ColumnEncoding)
        requires
            old(self).wf(),
            old(self).total_rows_flushed + old(self).total_rows <= u64::MAX,
            old(self).streaming_original_bytes + done.original_bytes <= u64::MAX,
            old(self).streaming_encoded_bytes + done.encoded_bytes <= u64::MAX,
            old(self).bytes_written + done.encoded_bytes <= u64::MAX,
        ensures
            final(self).wf(),
            final(self).batches@.len() == 0,
            final(self).total_rows == 0,
            final(self).total_rows_flushed == old(self).total_rows_flushed + old(self).total_rows,
            final(self).streaming_original_bytes == old(self).streaming_original_bytes
                + done.original_bytes,
            final(self).streaming_encoded_bytes == old(self).streaming_encoded_bytes
                + done.encoded_bytes,
            final(self).bytes_written == old(self).bytes_written + done.encoded_bytes,
            final(self).path == old(self).path,
            final(self).col_name == old(self).col_name,
            final(self).picker == old(self).picker,
            final(self).flush_threshold == old(self).flush_threshold,
            r.column_name@ == old(self).col_name@,
            r.scheme == done.scheme,
            r.total_rows == old(self).total_rows,
            r.original_bytes == done.original_bytes,
            r.encoded_bytes == done.encoded_bytes,
    {
        let r = ColumnEncoding {
            column_name: self.col_name.clone(),
            scheme: done.scheme,
            total_rows: self.total_rows,
            original_bytes: done.original_bytes,
            encoded_bytes: done.encoded_bytes,
        };
        self.streaming_original_bytes = self.streaming_original_bytes + done.original_bytes;
        self.streaming_encoded_bytes = self.streaming_encoded_bytes + done.encoded_bytes;
        self.total_rows_flushed = self.total_rows_flushed + self.total_rows;
        self.batches = Vec::new();
        self.total_rows = 0;
        self.bytes_written = self.bytes_written + done.encoded_bytes;
        r
    }

    /// What is left to do at the end, after rows enough for it were written: it
    /// is an error when there never was a batch.
    pub fn begin_finish(&self) -> (r: Result<FinishStep, RockDuckError>)
        requires
            self.wf(),
        ensures
            match r {
                Ok(FinishStep::Write) => self.total_rows > 0,
                Ok(FinishStep::Report) => self.total_rows == 0 && (self.batches@.len() > 0
                    || self.total_rows_flushed > 0),
                Err(e) => e == RockDuckError::Storage && self.batches@.len() == 0
                    && self.total_rows_flushed == 0,
            },
    {
        if self.total_rows > 0 {
            return Ok(FinishStep::Write);
        }
        if self.batches.len() == 0 && self.total_rows_flushed == 0 {
            return Err(RockDuckError::Storage);
        }
        Ok(FinishStep::Report)
    }

    /// What is known of a column of which all was written before.
    pub fn report(&self) -> (r: ColumnEncoding)
        ensures
            r.column_name@ == self.col_name@,
            r.scheme == EncodingScheme::BtrBlocks,
            r.total_rows == self.total_rows_flushed,
            r.original_bytes == self.streaming_original_bytes,
            r.encoded_bytes == self.streaming_encoded_bytes,
    {
        ColumnEncoding {
            column_name: self.col_name.clone(),
            scheme: EncodingScheme::BtrBlocks,
            total_rows: self.total_rows_flushed,
            original_bytes: self.streaming_original_bytes,
            encoded_bytes: self.streaming_encoded_bytes,
        }
    }

    /// How many rows wait to be written.
    pub fn total_rows(&self) -> (r: u64)
        ensures
            r == self.total_rows,
    {
        self.total_rows
    }

    /// How many batches wait to be written.
    pub fn num_batches(&self) -> (r: usize)
        ensures
            r == self.batches@.len(),
    {
        self.batches.len()
    }
}

/// The batches of a column file, one after the other, or the error that stood in
/// the way of reading them.
#[derive(Debug)]
pub struct VortexChunkIterator {
    pub batches: Vec<Batch>,
    pub current_idx: usize,
    pub error: Option<RockDuckError>,
}

impl VortexChunkIterator {
    /// The batches that were read, without those that have no rows, or an error.
    pub fn new(read: Result<Batch, RockDuckError>) -> (r: Self)
        ensures
            r.current_idx == 0,
            match read {
                Ok(batch) => r.error is None && r.batches@ == if batch_rows(batch@) > 0 {
                    seq![batch]
                } else {
                    Seq::empty()
                },
                Err(e) => r.error == Some(e) && r.batches@.len() == 0,
            },
    {
        let mut batches: Vec<Batch> = Vec::new();
        match read {
            Ok(batch) => {
                if batch.columns.len() > 0 && batch.columns[0].len() > 0 {
                    assert(batch@.columns[0] == batch.columns@[0]@);
                    batches.push(batch);
                } else {
                    proof {
                        if batch.columns@.len() > 0 {
                            assert(batch@.columns[0] == batch.columns@[0]@);
                        }
                    }
                }
                VortexChunkIterator { batches, current_idx: 0, error: None }
            },
            Err(e) => VortexChunkIterator { batches, current_idx: 0, error: Some(e) },
        }
    }

    /// The next batch; an error comes once, before all of them.
    pub fn next(&mut self) -> (r: Option<Result<Batch, RockDuckError>>)
        requires
            old(self).current_idx <= old(self).batches@.len(),
        ensures
            final(self).batches@ == old(self).batches@,
            final(self).error is None,
            final(self).current_idx <= final(self).batches@.len(),
            match r {
                Some(Err(e)) => old(self).error == Some(e) && final(self).current_idx == old(self).current_idx,
                Some(Ok(b)) => {
                    &&& old(self).error is None
                    &&& old(self).current_idx < old(self).batches@.len()
                    &&& b@ == old(self).batches@[old(self).current_idx as int]@
                    &&& final(self).current_idx == old(self).current_idx + 1
                },
                None => old(self).error is None && old(self).current_idx == old(self).batches@.len()
                    && final(self).current_idx == old(self).current_idx,
            },
    {
        match self.error {
            Some(e) => {
                self.error = None;
                return Some(Err(e));
            },
            None => {},
        }
        if self.current_idx >= self.batches.len() {
            return None;
        }
        let batch = self.batches[self.current_idx].copy();
        self.current_idx = self.current_idx + 1;
        Some(Ok(batch))
    }
}

/// A header that is written is read back.
pub proof fn law_header_is_read_back(magic: Seq<u8>, version: u8, entry_count: u32, payload_len: u32)
    requires
        magic.len() == 4,
    ensures
        ({
            let bytes = header_bytes(magic, version, entry_count, payload_len);
            &&& bytes.len() == VEM_HEADER_SIZE
            &&& bytes.take(4) == magic
            &&& bytes[4] == version
            &&& le_value(bytes.subrange(5, 9)) == entry_count
            &&& le_value(bytes.subrange(9, 13)) == payload_len
        }),
{
    let bytes = header_bytes(magic, version, entry_count, payload_len);
    lemma_pow256();
    lemma_le_len(entry_count as nat, 4);
    lemma_le_len(payload_len as nat, 4);
    lemma_le_round_trip(entry_count as nat, 4);
    lemma_le_round_trip(payload_len as nat, 4);
    assert(bytes.take(4) =~= magic);
    assert(bytes.subrange(5, 9) =~= le_bytes(entry_count as nat, 4));
    assert(bytes.subrange(9, 13) =~= le_bytes(payload_len as nat, 4));
}

/// The first entry of a metadata file is read back, whatever entries follow it.
pub proof fn law_first_entry_is_read_back(payload: Seq<u8>, rest: Seq<u8>)
    requires
        payload.len() <= u32::MAX,
    ensures
        sidecar_payload(sidecar_entry(payload, true) + rest) == Some(payload),
{
    let n = payload.len();
    let file = header_bytes(vem_magic(), VEM_VERSION, 1, 0);
    let head = header_bytes(vem_magic(), VEM_VERSION, 1, n as u32);
    let bytes = sidecar_entry(payload, true) + rest;
    law_header_is_read_back(vem_magic(), VEM_VERSION, 1, 0);
    law_header_is_read_back(vem_magic(), VEM_VERSION, 1, n as u32);
    assert(bytes =~= file + head + payload + rest);
    assert(bytes.take(4) =~= file.take(4));
    assert(bytes[4] == file[4]);
    let entry = bytes.skip(VEM_HEADER_SIZE as int);
    assert(entry =~= head + payload + rest);
    assert(entry.take(4) =~= head.take(4));
    assert(entry[4] == head[4]);
    assert(entry.subrange(9, 13) =~= head.subrange(9, 13));
    assert(entry.subrange(VEM_HEADER_SIZE as int, VEM_HEADER_SIZE + n as int) =~= payload);
}

/// Every row of a column file lies in exactly one batch: the place that one row
/// has is the place of no other.
pub proof fn law_rows_have_places_of_their_own(
    rows: Seq<u64>,
    a: int,
    i: int,
    b: int,
    j: int,
)
    requires
        0 <= a < rows.len(),
        0 <= b < rows.len(),
        0 <= i < rows[a],
        0 <= j < rows[b],
        rows_before(rows, a) + i == rows_before(rows, b) + j,
    ensures
        a == b,
        i == j,
{
    if a < b {
        lemma_rows_before(rows, a + 1, b);
    }
    if b < a {
        lemma_rows_before(rows, b + 1, a);
    }
}

} // verus!
