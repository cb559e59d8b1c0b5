//! Packet framing inside a compressed-vector section.
//!
//! Every packet begins at a 4-byte-aligned logical position with a
//! packet-type byte.  Only data packets are decoded; index and ignored
//! packets are recognized so the caller can reject them distinctly.

use crate::bits::le_u16;
use crate::bits::read_u16_le;
use crate::error::Error;
use crate::error::InvalidFileKind;
use crate::paged_reader::logical_byte;
use crate::paged_reader::logical_seq;
use crate::paged_reader::window_pages_ok;
use crate::paged_reader::PagedReader;
use vstd::prelude::*;

verus! {

/// Packet-type byte of an index packet.
pub const INDEX_PACKET_TYPE: u8 = 0;

/// Packet-type byte of a data packet.
pub const DATA_PACKET_TYPE: u8 = 1;

/// Packet-type byte of an ignored packet.
pub const IGNORED_PACKET_TYPE: u8 = 2;

/// Size of a data packet header on the wire, in logical bytes.
pub const DATA_PACKET_HEADER_SIZE: usize = 6;

/// Header of a data packet: type byte, flags byte, then two little-endian
/// 16-bit fields.
#[derive(Clone, Copy, PartialEq, Eq, Structural, Debug)]
pub struct DataPacketHeader {
    pub packet_flags: u8,
    /// Whole packet length in bytes, header and padding included.
    pub packet_length: u16,
    /// Count of byte streams carried by this packet.
    pub bytestream_count: u16,
}

/// One parsed packet header.
#[derive(Clone, Copy, PartialEq, Eq, Structural, Debug)]
pub enum PacketHeader {
    Data(DataPacketHeader),
    Index,
    Ignored,
}

impl PacketHeader {
    /// Reads the packet header at the reader's current logical position.
    /// Index and ignored packets are identified by their type byte alone;
    /// only a data packet's header is consumed in full.
    pub fn read(reader: &mut PagedReader) -> (r: Result<PacketHeader, Error>)
        requires
            old(reader).wf(),
        ensures
            final(reader).wf(),
            final(reader).file() == old(reader).file(),
            final(reader).psz() == old(reader).psz(),
            match r {
                Ok(h) => {
                    let file = old(reader).file();
                    let psz = old(reader).psz();
                    let pos0 = old(reader).position();
                    let b0 = logical_byte(file, psz, pos0);
                    &&& pos0 + 1 <= old(reader).logical_len()
                    &&& window_pages_ok(file, psz, pos0, 1)
                    &&& match h {
                        PacketHeader::Index => {
                            &&& b0 == INDEX_PACKET_TYPE
                            &&& final(reader).position() == old(reader).position() + 1
                        },
                        PacketHeader::Ignored => {
                            &&& b0 == IGNORED_PACKET_TYPE
                            &&& final(reader).position() == old(reader).position() + 1
                        },
                        PacketHeader::Data(d) => {
                            &&& b0 == DATA_PACKET_TYPE
                            &&& pos0 + 6 <= old(reader).logical_len()
                            &&& window_pages_ok(file, psz, pos0 + 1, 5)
                            &&& d.packet_flags == logical_byte(
                                old(reader).file(),
                                old(reader).psz(),
                                old(reader).position() + 1,
                            )
                            &&& d.packet_length == le_u16(
                                logical_seq(
                                    old(reader).file(),
                                    old(reader).psz(),
                                    old(reader).position() + 2,
                                    2,
                                ),
                            )
                            &&& d.bytestream_count == le_u16(
                                logical_seq(
                                    old(reader).file(),
                                    old(reader).psz(),
                                    old(reader).position() + 4,
                                    2,
                                ),
                            )
                            &&& final(reader).position() == old(reader).position()
                                + DATA_PACKET_HEADER_SIZE
                        },
                    }
                },
                Err(e) => {
                    let file = old(reader).file();
                    let psz = old(reader).psz();
                    let pos0 = old(reader).position();
                    let llen = old(reader).logical_len();
                    let first_ok = pos0 + 1 <= llen && window_pages_ok(file, psz, pos0, 1);
                    let b0 = logical_byte(file, psz, pos0);
                    ||| (e == Error::Io && pos0 + 1 > llen && final(reader).position() == pos0)
                    ||| (e == Error::InvalidFile(InvalidFileKind::CrcMismatch) && pos0 + 1 <= llen
                        && !window_pages_ok(file, psz, pos0, 1) && final(reader).position()
                        == pos0)
                    ||| (e == Error::InvalidFile(InvalidFileKind::MalformedPacketHeader) && first_ok
                        && b0 != INDEX_PACKET_TYPE && b0 != DATA_PACKET_TYPE && b0
                        != IGNORED_PACKET_TYPE && final(reader).position() == pos0 + 1)
                    ||| (e == Error::Io && first_ok && b0 == DATA_PACKET_TYPE && pos0 + 6 > llen
                        && final(reader).position() == pos0 + 1)
                    ||| (e == Error::InvalidFile(InvalidFileKind::CrcMismatch) && first_ok && b0
                        == DATA_PACKET_TYPE && pos0 + 6 <= llen && !window_pages_ok(
                        file,
                        psz,
                        pos0 + 1,
                        5,
                    ) && final(reader).position() == pos0 + 1)
                },
            },
    {
        let ghost file = reader.file();
        let ghost psz = reader.psz();
        let ghost pos0 = reader.position();
        let first = match reader.read_exact(1) {
            Ok(v) => v,
            Err(e) => {
                return Err(e);
            },
        };
        proof {
            assert(first@[0] == logical_byte(file, psz, pos0));
        }
        let b0 = first[0];
        if b0 == INDEX_PACKET_TYPE {
            return Ok(PacketHeader::Index);
        }
        if b0 == IGNORED_PACKET_TYPE {
            return Ok(PacketHeader::Ignored);
        }
        if b0 != DATA_PACKET_TYPE {
            return Err(Error::InvalidFile(InvalidFileKind::MalformedPacketHeader));
        }
        let rest = match reader.read_exact(DATA_PACKET_HEADER_SIZE - 1) {
            Ok(v) => v,
            Err(e) => {
                return Err(e);
            },
        };
        let packet_flags = rest[0];
        let packet_length = read_u16_le(&rest, 1);
        let bytestream_count = read_u16_le(&rest, 3);
        proof {
            assert(rest@[0] == logical_byte(file, psz, pos0 + 1));
            assert(rest@.subrange(1, 3) =~= logical_seq(file, psz, pos0 + 2, 2));
            assert(rest@.subrange(3, 5) =~= logical_seq(file, psz, pos0 + 4, 2));
        }
        Ok(
            PacketHeader::Data(
                DataPacketHeader { packet_flags, packet_length, bytestream_count },
            ),
        )
    }
}

} // verus!
