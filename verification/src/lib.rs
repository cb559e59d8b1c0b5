//! Decoder core for the ASTM E57 point-cloud container format.
//!
//! An E57 file is a CRC-paged binary envelope around an XML directory and one
//! or more compressed-vector sections carrying point records as parallel
//! bit-packed byte streams.  This crate implements the decode pipeline for
//! such sections: a paged reader that presents the concatenated page payloads
//! as one logical byte stream and verifies per-page checksums, per-stream bit
//! buffers, bit-unpacking decoders for the four numeric record kinds, packet
//! framing, and a pull-based iterator over raw point tuples.
//!
//! The decoder works on an in-memory byte image of the file; reading the
//! image from disk and projecting raw tuples into typed points are left to
//! the surrounding application.  IEEE-754 values are carried as their
//! little-endian bit patterns so that the passthrough encoding is exact.

pub mod bitpack;
pub mod bits;
pub mod bs_read;
pub mod crc;
pub mod cv_section;
pub mod error;
pub mod packet;
pub mod paged_reader;
pub mod pc_reader_raw;
pub mod pointcloud;

pub use bitpack::BitPack;
pub use bs_read::ByteStreamReadBuffer;
pub use cv_section::CompressedVectorSectionHeader;
pub use packet::DataPacketHeader;
pub use packet::PacketHeader;
pub use paged_reader::PagedReader;
pub use pc_reader_raw::PointCloudReaderRaw;
pub use pointcloud::PointCloud;
pub use pointcloud::RawValues;
pub use pointcloud::Record;
pub use pointcloud::RecordDataType;
pub use pointcloud::RecordName;
pub use pointcloud::RecordValue;

pub use error::Error;
pub use error::InvalidFileKind;
pub use error::UnimplementedKind;
