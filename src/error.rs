//! Errors raised while parsing, building, or updating Intel HEX data.
//!
//! Every failure carries a detailed [`IntelHexErrorKind`] and says in which
//! phase it arose: parsing a record of a file (with the 1-based line number),
//! building a record to write, or updating the bytes of an image.
use crate::record::RecordType;
use vstd::prelude::*;

verus! {

/// The phase in which an error arose, with its detailed kind.
#[derive(Debug, PartialEq, Eq, Structural)]
pub enum IntelHexError {
    /// A record of a hex file is malformed; the `usize` is the 1-based line number.
    ParseRecordError(IntelHexErrorKind, usize),
    /// A record could not be built for output.
    CreateRecordError(IntelHexErrorKind),
    /// The bytes of an image could not be updated.
    UpdateError(IntelHexErrorKind),
}

/// What exactly went wrong.
#[derive(Debug, PartialEq, Eq, Structural)]
pub enum IntelHexErrorKind {
    /// Record does not begin with a ':'
    MissingStartCode,
    /// Record contains non-hexadecimal characters
    ContainsInvalidCharacters,
    /// Record is shorter than the smallest valid
    RecordTooShort,
    /// Record is longer than the largest valid
    RecordTooLong,
    /// Record's payload length does not match the record type (type, expected, found)
    RecordLengthInvalidForType(RecordType, usize, usize),
    /// Record's address does not match the record type (type, expected, found)
    RecordAddressInvalidForType(RecordType, usize, usize),
    /// Record type cannot be written
    RecordNotSupported,
    /// Record length is odd
    RecordNotEvenLength,
    /// Record checksum mismatch (expected, found)
    RecordChecksumMismatch(u8, u8),
    /// The line ends before the payload and checksum that its length field announces
    RecordInvalidPayloadLength,
    /// Encountered address that already contains data
    RecordAddressOverlap(usize),
    /// Provided record type does not exist
    InvalidRecordType,
    /// Provided address is invalid (e.g. does not hold any data)
    InvalidAddress(usize),
    /// Encountered second start address record
    DuplicateStartAddress,
    /// IntelHex instance has no data
    IntelHexInstanceEmpty,
}

} // verus!
