use vstd::prelude::*;

verus! {

/// Every way in which decoding or encoding a KLV frame can fail.
#[derive(Debug, Clone, Copy, PartialEq, Eq, Structural)]
pub enum ParseError {
    /// A read would extend past the end of the slice.
    BufferTooShort,
    /// A BER length uses the indefinite or reserved form, or a width other than 1, 2 or 4.
    UnsupportedLength,
    /// A fixed-width item arrived with another length (the observed length is carried).
    UnexpectedLength(usize),
    /// A tag byte that the dataset does not define.
    UnknownTag(u8),
    /// Invalid UTF-8, an invalid char code, a duration with too many nanoseconds,
    /// or a length that the wire format cannot carry.
    Encoding,
    /// The universal key is not 16 bytes long, or differs from the expected one.
    InvalidKey,
    /// Two fields of one record declare the same tag.
    DuplicateTag(u8),
    /// A required field is absent from the decoded frame.
    MissingField(u8),
    /// Bytes follow the end of the frame.
    TrailingBytes,
    /// The destination buffer is too small for the encoded frame.
    WriteFailed,
}

} // verus!
