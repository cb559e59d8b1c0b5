//! Compressed-vector section header: the fixed-size record at a point
//! cloud's `file_offset` that locates the section's packet data.

use crate::bits::le_u64;
use crate::bits::read_u64_le;
use crate::error::Error;
use crate::error::InvalidFileKind;
use crate::paged_reader::logical_seq;
use crate::paged_reader::window_pages_ok;
use crate::paged_reader::PagedReader;
use vstd::prelude::*;

verus! {

/// Section-type byte identifying a compressed-vector section.
pub const COMPRESSED_VECTOR_SECTION_ID: u8 = 1;

/// Size of the section header on the wire, in logical bytes.
pub const SECTION_HEADER_SIZE: usize = 32;

/// Header of a compressed-vector section: one id byte, 7 reserved bytes,
/// then three little-endian 64-bit fields.
#[derive(Clone, Copy, PartialEq, Eq, Structural, Debug)]
pub struct CompressedVectorSectionHeader {
    /// Always `COMPRESSED_VECTOR_SECTION_ID` in a well-formed file.
    pub section_id: u8,
    /// Length of the whole section in bytes.
    pub section_length: u64,
    /// Physical offset of the first packet.
    pub data_offset: u64,
    /// Physical offset of the first index packet, or 0.
    pub index_offset: u64,
}

impl CompressedVectorSectionHeader {
    /// Reads the section header at the reader's current logical position.
    pub fn read(reader: &mut PagedReader) -> (r: Result<CompressedVectorSectionHeader, Error>)
        requires
            old(reader).wf(),
        ensures
            final(reader).wf(),
            final(reader).file() == old(reader).file(),
            final(reader).psz() == old(reader).psz(),
            match r {
                Ok(h) => {
                    let bytes = logical_seq(
                        old(reader).file(),
                        old(reader).psz(),
                        old(reader).position(),
                        SECTION_HEADER_SIZE as nat,
                    );
                    &&& old(reader).position() + SECTION_HEADER_SIZE <= old(reader).logical_len()
                    &&& window_pages_ok(
                        old(reader).file(),
                        old(reader).psz(),
                        old(reader).position(),
                        SECTION_HEADER_SIZE as nat,
                    )
                    &&& h.section_id == COMPRESSED_VECTOR_SECTION_ID
                    &&& bytes[0] == COMPRESSED_VECTOR_SECTION_ID
                    &&& h.section_length == le_u64(bytes.subrange(8, 16))
                    &&& h.data_offset == le_u64(bytes.subrange(16, 24))
                    &&& h.index_offset == le_u64(bytes.subrange(24, 32))
                    &&& final(reader).position() == old(reader).position()
                        + SECTION_HEADER_SIZE
                },
                Err(e) => {
                    ||| (e == Error::Io && old(reader).position() + SECTION_HEADER_SIZE > old(
                        reader,
                    ).logical_len() && final(reader).position() == old(reader).position())
                    ||| (e == Error::InvalidFile(InvalidFileKind::CrcMismatch) && old(
                        reader,
                    ).position() + SECTION_HEADER_SIZE <= old(reader).logical_len()
                        && !window_pages_ok(
                        old(reader).file(),
                        old(reader).psz(),
                        old(reader).position(),
                        SECTION_HEADER_SIZE as nat,
                    ) && final(reader).position() == old(reader).position())
                    ||| (e == Error::InvalidFile(InvalidFileKind::MalformedSectionHeader)
                        && logical_seq(
                        old(reader).file(),
                        old(reader).psz(),
                        old(reader).position(),
                        SECTION_HEADER_SIZE as nat,
                    )[0] != COMPRESSED_VECTOR_SECTION_ID && final(reader).position() == old(
                        reader,
                    ).position() + SECTION_HEADER_SIZE)
                },
            },
    {
        let buf = match reader.read_exact(SECTION_HEADER_SIZE) {
            Ok(v) => v,
            Err(e) => {
                return Err(e);
            },
        };
        let section_id = buf[0];
        if section_id != COMPRESSED_VECTOR_SECTION_ID {
            return Err(Error::InvalidFile(InvalidFileKind::MalformedSectionHeader));
        }
        let section_length = read_u64_le(&buf, 8);
        let data_offset = read_u64_le(&buf, 16);
        let index_offset = read_u64_le(&buf, 24);
        Ok(CompressedVectorSectionHeader { section_id, section_length, data_offset, index_offset })
    }
}

} // verus!
