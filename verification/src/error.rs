//! Errors of the library.
use vstd::prelude::*;

verus! {

/// What is wrong with a patch file or a patch payload.
#[derive(Debug, Clone, Copy, PartialEq, Eq, Structural)]
pub enum DeltaFault {
    /// The file does not start with the magic number; holds what was found.
    BadMagic(u32),
    /// The record at `offset` announces a payload above the limit.
    ImplausiblePayload { offset: u64, size: u64 },
    /// The record at `offset` announces more bytes than the file has left.
    PayloadOverrun { offset: u64, size: u64, remaining: u64 },
    /// The payload of the record at `offset` is no patch.
    BadPatch { offset: u64 },
    /// The values of a sparse patch are not a binary column.
    NotBinary,
    /// A sparse patch has fewer values than rows.
    ValueCount,
}

/// Error of a fallible operation.
#[derive(Debug, Clone, Copy, PartialEq, Eq, Structural)]
pub enum RockDuckError {
    /// A segment id tries to leave the data directory.
    Security,
    /// A delta file or patch is damaged.
    Delta(DeltaFault),
    /// Arrow refused to encode or decode a column.
    Arrow,
    /// A patch is to be made of no cells.
    EmptyPatch,
    /// A column holds more bytes than Arrow can address.
    TooLarge,
    /// A batch has no column of the requested name.
    ColumnNotFound,
    /// A column does not have the expected type.
    TypeMismatch,
    /// A column does not have the expected number of rows.
    LengthMismatch,
    /// A serialized form is damaged.
    Deserialize,
    /// A value cannot be serialized.
    Serialization,
    /// A filter, a zone map or the encoding of a column cannot be written or read back.
    Codec,
    /// A file for exchange cannot be read.
    ReadPath,
    /// A file for exchange cannot be written.
    Write,
    /// A persisted file has a version that this library does not read.
    UnsupportedVersion(u64),
    /// A predicate cannot be parsed.
    Query,
    /// Something that should be stored is not.
    Storage,
    /// A place lies outside of what is there, or a column file cannot be read.
    Internal,
    /// The operation is not available.
    Unimplemented,
}

} // verus!
