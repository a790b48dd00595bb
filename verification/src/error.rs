use vstd::prelude::*;

verus! {

/// Why a message could not be parsed or serialized.
#[derive(Debug, Clone, Copy, PartialEq, Eq, Structural)]
pub enum DnsError {
    /// The buffer is shorter than a fixed-size field requires.
    TooShort,
    /// A label or a compression pointer reaches past the end of the buffer.
    LabelOverrun,
    /// A domain name breaks the label syntax of RFC 1035.
    InvalidDomainName,
    /// The declared rdlength is too small for the fixed fields of the record type.
    RdataTooShort,
    /// The record type is not one of the supported types.
    UnsupportedRecordType,
    /// The declared rdlength differs from the encoded length of the record data.
    RdlengthMismatch,
    /// A compression pointer does not point strictly backwards, or pointers
    /// follow one another without end.
    PointerOffsetInvalid,
    /// A character-string holds more than 255 characters.
    CharacterStringTooLong,
}

} // verus!
