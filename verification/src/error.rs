//! Error taxonomy of the decoder.

use vstd::prelude::*;

verus! {

/// The structural violation that made a file invalid.
#[derive(Clone, Copy, PartialEq, Eq, Structural, Debug)]
pub enum InvalidFileKind {
    /// A page's stored checksum does not match the checksum of its payload.
    CrcMismatch,
    /// The byte image is not a whole number of pages.
    TruncatedFile,
    /// A compressed-vector section header carries the wrong section id.
    MalformedSectionHeader,
    /// A packet begins with an unknown packet-type byte.
    MalformedPacketHeader,
    /// A data packet's byte-stream count differs from the prototype length.
    PrototypeMismatch,
    /// An integer field declares `max < min`.
    InvertedRange,
    /// An integer field declares more than `2^63` representable values.
    RangeTooLarge,
    /// A bit-packed raw value falls outside the declared `[min, max]` range.
    ValueOutOfRange,
}

/// The recognized but unsupported construct that was encountered.
#[derive(Clone, Copy, PartialEq, Eq, Structural, Debug)]
pub enum UnimplementedKind {
    /// Index packets are recognized but not decoded.
    IndexPacket,
    /// Ignored packets are recognized but not decoded.
    IgnoredPacket,
}

/// An error raised while decoding a point cloud.
#[derive(Clone, Copy, PartialEq, Eq, Structural, Debug)]
pub enum Error {
    /// A read or seek went past the end of the underlying byte image.
    Io,
    /// The file violates the format's structure.
    InvalidFile(InvalidFileKind),
    /// The file uses a recognized construct this decoder does not support.
    Unimplemented(UnimplementedKind),
    /// An internal invariant of the decoder was violated.
    Internal,
    /// A caller-supplied offset or size is not acceptable.
    InvalidArgument,
}

impl Error {
    /// The context line `message` returns for each error value.
    pub closed spec fn message_spec(self) -> Seq<char> {
        match self {
            Error::Io => "Read or seek went past the end of the file image"@,
            Error::InvalidFile(InvalidFileKind::CrcMismatch) => "Page checksum mismatch"@,
            Error::InvalidFile(InvalidFileKind::TruncatedFile) => {
                "File image is not a whole number of pages"@
            },
            Error::InvalidFile(InvalidFileKind::MalformedSectionHeader) => {
                "Failed to read compressed vector section header"@
            },
            Error::InvalidFile(InvalidFileKind::MalformedPacketHeader) => {
                "Failed to read packet header"@
            },
            Error::InvalidFile(InvalidFileKind::PrototypeMismatch) => {
                "Bytestream count does not match prototype size"@
            },
            Error::InvalidFile(InvalidFileKind::InvertedRange) => {
                "Integer field declares an inverted range"@
            },
            Error::InvalidFile(InvalidFileKind::RangeTooLarge) => {
                "Integer field declares too large a range"@
            },
            Error::InvalidFile(InvalidFileKind::ValueOutOfRange) => {
                "Decoded value falls outside the declared range"@
            },
            Error::Unimplemented(UnimplementedKind::IndexPacket) => {
                "Index packets are not supported"@
            },
            Error::Unimplemented(UnimplementedKind::IgnoredPacket) => {
                "Ignored packets are not supported"@
            },
            Error::Internal => "Internal decoder invariant violated"@,
            Error::InvalidArgument => "Invalid argument"@,
        }
    }

    /// A human-readable context line for the failure.
    pub fn message(&self) -> (r: &'static str)
        ensures
            r@ == self.message_spec(),
    {
        match self {
            Error::Io => "Read or seek went past the end of the file image",
            Error::InvalidFile(InvalidFileKind::CrcMismatch) => "Page checksum mismatch",
            Error::InvalidFile(InvalidFileKind::TruncatedFile) => {
                "File image is not a whole number of pages"
            },
            Error::InvalidFile(InvalidFileKind::MalformedSectionHeader) => {
                "Failed to read compressed vector section header"
            },
            Error::InvalidFile(InvalidFileKind::MalformedPacketHeader) => {
                "Failed to read packet header"
            },
            Error::InvalidFile(InvalidFileKind::PrototypeMismatch) => {
                "Bytestream count does not match prototype size"
            },
            Error::InvalidFile(InvalidFileKind::InvertedRange) => {
                "Integer field declares an inverted range"
            },
            Error::InvalidFile(InvalidFileKind::RangeTooLarge) => {
                "Integer field declares too large a range"
            },
            Error::InvalidFile(InvalidFileKind::ValueOutOfRange) => {
                "Decoded value falls outside the declared range"
            },
            Error::Unimplemented(UnimplementedKind::IndexPacket) => {
                "Index packets are not supported"
            },
            Error::Unimplemented(UnimplementedKind::IgnoredPacket) => {
                "Ignored packets are not supported"
            },
            Error::Internal => "Internal decoder invariant violated",
            Error::InvalidArgument => "Invalid argument",
        }
    }
}

} // verus!
