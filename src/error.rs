use vstd::prelude::*;

verus! {

/// Why a byte buffer is not a well-formed NBT document.
#[derive(Clone, Copy, Debug, PartialEq, Eq, Structural)]
pub enum FormatError {
    /// A type id above 12, or `End` where a value must stand.
    InvalidTypeId,
    /// The document does not start with the id of a compound.
    InvalidRoot,
    /// The buffer ends before the value does.
    UnexpectedEnd,
    /// A list or array claims more than 65536 elements.
    SizeLimitExceeded,
    /// A name, list or array claims a negative length.
    NegativeLength,
}

/// Why compressed bytes could not be unpacked.
#[derive(Clone, Copy, Debug, PartialEq, Eq, Structural)]
pub enum CompressionError {
    /// No codec of the candidates decoded the bytes.
    NoCodecMatched,
    /// A chunk names a compression method other than 0, 1 or 2.
    UnknownMethod(u8),
}

/// The errors of the library.
#[derive(Clone, Copy, Debug, PartialEq, Eq, Structural)]
pub enum NbtError {
    Format(FormatError),
    Compression(CompressionError),
    /// A chunk's byte range does not lie inside the container.
    Bounds,
    /// A container is shorter than its 4096-byte offset table.
    HeaderTooShort,
    /// A chunk index beyond the offset table.
    InvalidChunkIndex,
    /// A file extension that names no known format.
    UnsupportedExtension,
    /// Files are read whole; reading them as a stream is not offered.
    StreamingUnsupported,
}

} // verus!
