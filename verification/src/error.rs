//! The error conditions of the storage layer.
use vstd::prelude::*;

verus! {

/// Why a serialized record was rejected.
#[derive(Debug, Clone, Copy, PartialEq, Eq, Structural)]
pub enum CorruptReason {
    /// The row identifier, the header length or a type tag is cut short.
    TruncatedField,
    /// The declared header length is zero, so it cannot count its own field.
    EmptyHeader,
    /// The type tags do not end where the declared header length says.
    HeaderOverrun,
    /// A type tag names no kind of value.
    UnknownTag(u64),
    /// A value's bytes would reach past the end of the buffer.
    PayloadOverrun,
    /// The declared total length is not the length of the header and the values.
    LengthMismatch,
}

/// What can go wrong when bytes are decoded or a page is filled.
#[derive(Debug, Clone, Copy, PartialEq, Eq, Structural)]
pub enum StorageError {
    /// Fewer bytes are available than the variable-length integer needs.
    TruncatedVarint,
    /// The type tag names no kind of value.
    InvalidType(u64),
    /// The bytes do not hold a well-formed record.
    CorruptRecord(CorruptReason),
    /// A column index (first field) reaches past the column count (second field).
    ColumnOutOfRange(usize, usize),
    /// A record needs more bytes (first field) than the page has free (second field).
    CapacityExceeded(usize, usize),
}

} // verus!
