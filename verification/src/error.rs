use vstd::prelude::*;

verus! {

/// Error taxonomy shared by the encoder and the decoder.
///
/// Every failure of a call in this crate is one of these kinds; the contracts
/// of the encoding and decoding functions say exactly which kind comes on
/// which input.
#[derive(Clone, Copy, Debug, PartialEq, Eq, Structural)]
pub enum Error {
    /// Input exhausted in the middle of a read (tag byte, line, or
    /// exact-length payload).
    Eof,
    /// Malformed length or integer text, a bulk payload not followed by the
    /// terminator, or an unrecognized tag byte.
    Syntax,
    /// The value to encode exceeds the signed 64-bit range.
    IntegerOutOfBound,
    /// Attempted operation on a shape outside the five-variant model.
    UnsupportedType,
    /// Text content required, but the bytes are not valid UTF-8.
    TextEncodingError,
    /// Failure of an underlying I/O primitive, wrapped opaquely.
    TransportError,
    /// Bytes remain after a complete top-level value where single-value
    /// framing is enforced.
    TrailingDataError,
}

impl Error {
    /// A short description of the error kind, one fixed line per kind.
    pub fn message(&self) -> (r: String)
        ensures
            r@ == match *self {
                Error::Eof => "unexpected end of input"@,
                Error::Syntax => "syntax error"@,
                Error::IntegerOutOfBound => "integer out of the signed 64-bit range"@,
                Error::UnsupportedType => "unsupported type"@,
                Error::TextEncodingError => "invalid text encoding"@,
                Error::TransportError => "an IO error occurred"@,
                Error::TrailingDataError => "trailing data after a complete value"@,
            },
    {
        match self {
            Error::Eof => "unexpected end of input".to_owned(),
            Error::Syntax => "syntax error".to_owned(),
            Error::IntegerOutOfBound => "integer out of the signed 64-bit range".to_owned(),
            Error::UnsupportedType => "unsupported type".to_owned(),
            Error::TextEncodingError => "invalid text encoding".to_owned(),
            Error::TransportError => "an IO error occurred".to_owned(),
            Error::TrailingDataError => "trailing data after a complete value".to_owned(),
        }
    }
}

} // verus!
