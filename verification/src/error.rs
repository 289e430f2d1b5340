//! The single error type shared by the encode and decode paths.

use vstd::prelude::*;

verus! {

/// Everything that can go wrong while encoding or decoding.
///
/// Each variant is one terminal failure; there is no local recovery. The
/// [`Error::Message`] variant carries free text for errors raised by caller
/// logic nested inside a value, through the uniform construct-from-message
/// factory that both the encode and the decode protocol share.
#[derive(Debug, PartialEq, Eq)]
pub enum Error {
    /// A string, byte blob, sequence or map is longer than a 32-bit count can say.
    LengthOverflow,
    /// A sequence or map was offered for encoding without an up-front length.
    LengthUnknown,
    /// The input ended before the requested bytes could be read.
    ReadFailed,
    /// A boolean marker byte was neither `0xf5` nor `0xf4`.
    InvalidBool,
    /// An optional marker byte was neither `0xf6` nor `0xf7`.
    InvalidOption,
    /// A decoded variant index names no variant of the requested enumeration.
    InvalidVariant,
    /// Decoded string or character bytes were not valid UTF-8.
    InvalidUtf8,
    /// A character payload held no code point at all.
    EmptyChar,
    /// The request (self-describing or identifier decode) is unsupported.
    NotImplemented,
    /// A free-text error raised by caller logic.
    Message(String),
}

impl Error {
    /// The uniform construct-from-message factory.
    pub fn custom(msg: String) -> (r: Error)
        ensures
            r == Error::Message(msg),
    {
        Error::Message(msg)
    }

    /// The human-readable message this error carries.
    pub fn message(&self) -> (r: String)
        ensures
            self is LengthOverflow ==> r@ == "length is too large"@,
            self is LengthUnknown ==> r@ == "length is unknown"@,
            self is ReadFailed ==> r@ == "failed to read"@,
            self is InvalidBool ==> r@ == "invalid boolean value"@,
            self is InvalidOption ==> r@ == "invalid option value"@,
            self is InvalidVariant ==> r@ == "invalid variant index"@,
            self is InvalidUtf8 ==> r@ == "invalid utf-8"@,
            self is EmptyChar ==> r@ == "empty string"@,
            self is NotImplemented ==> r@ == "not implemented"@,
            self matches Error::Message(m) ==> r@ == m@,
    {
        match self {
            Error::LengthOverflow => "length is too large".to_owned(),
            Error::LengthUnknown => "length is unknown".to_owned(),
            Error::ReadFailed => "failed to read".to_owned(),
            Error::InvalidBool => "invalid boolean value".to_owned(),
            Error::InvalidOption => "invalid option value".to_owned(),
            Error::InvalidVariant => "invalid variant index".to_owned(),
            Error::InvalidUtf8 => "invalid utf-8".to_owned(),
            Error::EmptyChar => "empty string".to_owned(),
            Error::NotImplemented => "not implemented".to_owned(),
            Error::Message(m) => m.clone(),
        }
    }
}

} // verus!
