//! Pull-based iteration over all raw points of one point cloud.
//!
//! The reader owns per-stream byte buffers and value queues sized to the
//! prototype.  Whenever any contributing queue runs dry it ingests one data
//! packet — the wire format refills all streams at once — and then emits one
//! fully aligned point tuple per call.  Errors surface through the returned
//! item and poison the reader; further calls yield end-of-stream.

use crate::bitpack::decode_ok;
use crate::bitpack::drained_cursor;
use crate::bitpack::drained_values;
use crate::bitpack::BitPack;
use crate::bits::le_u16;
use crate::bits::le_u64;
use crate::bits::read_u16_le;
use crate::bs_read::ByteStreamReadBuffer;
use crate::bs_read::MAX_STREAM_BYTES;
use crate::cv_section::CompressedVectorSectionHeader;
use crate::error::Error;
use crate::error::InvalidFileKind;
use crate::error::UnimplementedKind;
use crate::packet::PacketHeader;
use crate::paged_reader::align4;
use crate::paged_reader::logical_byte;
use crate::paged_reader::logical_of_physical;
use crate::paged_reader::logical_seq;
use crate::paged_reader::payload_len;
use crate::paged_reader::window_pages_ok;
use crate::paged_reader::PagedReader;
use crate::pointcloud::dt_constant_value;
use crate::pointcloud::dt_contributes;
use crate::pointcloud::dt_inverted;
use crate::pointcloud::dt_oversized;
use crate::pointcloud::dt_range_ok;
use crate::pointcloud::value_matches;
use crate::pointcloud::PointCloud;
use crate::pointcloud::RawValues;
use crate::pointcloud::Record;
use crate::pointcloud::RecordDataType;
use crate::pointcloud::RecordValue;
use std::collections::VecDeque;
use vstd::prelude::*;

verus! {

/// Sum of the first `k` entries of a sequence of sizes.
pub open spec fn sum_prefix(s: Seq<nat>, k: nat) -> nat
    decreases k,
{
    if k == 0 {
        0
    } else {
        sum_prefix(s, (k - 1) as nat) + s[k - 1]
    }
}

/// Iterate over all raw points of a point cloud for reading.
pub struct PointCloudReaderRaw {
    pc: PointCloud,
    reader: PagedReader,
    byte_streams: Vec<ByteStreamReadBuffer>,
    queues: Vec<VecDeque<RecordValue>>,
    read: u64,
    poisoned: bool,
}

impl PointCloudReaderRaw {
    /// The descriptor the reader was built from.
    pub closed spec fn descriptor(self) -> PointCloud {
        self.pc
    }

    /// The prototype of the cloud being read.
    pub closed spec fn prototype(self) -> Seq<Record> {
        self.pc.prototype@
    }

    /// Number of records the descriptor declares.
    pub closed spec fn records(self) -> u64 {
        self.pc.records
    }

    /// Count of points emitted so far.
    pub closed spec fn read_count(self) -> u64 {
        self.read
    }

    /// Whether an error has poisoned the reader.
    pub closed spec fn is_poisoned(self) -> bool {
        self.poisoned
    }

    /// The contents of every per-field value queue, in field order.
    pub closed spec fn queues_view(self) -> Seq<Seq<RecordValue>> {
        Seq::new(self.queues@.len() as nat, |i: int| self.queues@[i]@)
    }

    /// The underlying reader's logical cursor.
    pub closed spec fn reader_position(self) -> nat {
        self.reader.position()
    }

    /// The underlying reader's byte image.
    pub closed spec fn reader_file(self) -> Seq<u8> {
        self.reader.file()
    }

    /// The underlying reader's page size.
    pub closed spec fn reader_page_size(self) -> nat {
        self.reader.psz()
    }

    /// Well-formedness: one buffer and one queue per prototype field, no
    /// more points emitted than declared, and every queued value well-typed
    /// for its field.
    pub closed spec fn wf(self) -> bool {
        &&& self.reader.wf()
        &&& self.queues@.len() == self.pc.prototype@.len()
        &&& self.byte_streams@.len() == self.pc.prototype@.len()
        &&& self.read <= self.pc.records
        &&& forall|i: int|
            0 <= i < self.byte_streams@.len() ==> (#[trigger] self.byte_streams@[i]).wf()
        &&& forall|i: int, j: int|
            0 <= i < self.queues@.len() && 0 <= j < self.queues@[i]@.len() ==> value_matches(
                #[trigger] self.queues@[i]@[j],
                self.pc.prototype@[i].data_type,
            )
    }

    /// The least queue length over the first `k` fields that occupy bits on
    /// the wire; `usize::MAX` when none of them does.
    pub open spec fn min_avail_rec(self, k: nat) -> nat
        decreases k,
    {
        if k == 0 {
            usize::MAX as nat
        } else {
            let rest = self.min_avail_rec((k - 1) as nat);
            if dt_contributes(self.prototype()[k - 1].data_type) {
                let len = self.queues_view()[k - 1].len();
                if len < rest {
                    len
                } else {
                    rest
                }
            } else {
                rest
            }
        }
    }

    /// The number of whole points the queues can emit before the next
    /// packet must be ingested: the least queue length over the fields that
    /// occupy bits on the wire — zero-bit constant fields are synthesized at
    /// assembly and place no bound — or `usize::MAX` when no field occupies
    /// bits, and 0 for an empty prototype.
    pub open spec fn available_spec(self) -> nat {
        if self.prototype().len() == 0 {
            0
        } else {
            self.min_avail_rec(self.prototype().len())
        }
    }

    proof fn lemma_min_avail_le(self, k: nat, i: int)
        requires
            0 <= i < k,
            k <= self.queues@.len(),
            self.queues@.len() == self.pc.prototype@.len(),
            dt_contributes(self.pc.prototype@[i].data_type),
        ensures
            self.min_avail_rec(k) <= self.queues@[i]@.len(),
        decreases k,
    {
        if i < k - 1 {
            self.lemma_min_avail_le((k - 1) as nat, i);
        }
    }

    /// The per-stream byte buffers, in field order.
    pub closed spec fn streams_view(self) -> Seq<ByteStreamReadBuffer> {
        self.byte_streams@
    }

    /// Count of logical bytes of the underlying reader.
    pub open spec fn reader_logical_len(self) -> nat {
        (self.reader_file().len() / self.reader_page_size()) * payload_len(self.reader_page_size())
    }

    /// The packet-type byte at the reader's cursor.
    pub open spec fn packet_type_byte(self) -> u8 {
        logical_byte(self.reader_file(), self.reader_page_size(), self.reader_position())
    }

    /// The packet-type byte at the cursor can be read and checksummed.
    pub open spec fn header_readable(self) -> bool {
        &&& self.reader_position() + 1 <= self.reader_logical_len()
        &&& window_pages_ok(self.reader_file(), self.reader_page_size(), self.reader_position(), 1)
    }

    /// A whole 6-byte data packet header at the cursor can be read and
    /// checksummed.
    pub open spec fn data_header_readable(self) -> bool {
        &&& self.header_readable()
        &&& self.reader_position() + 6 <= self.reader_logical_len()
        &&& window_pages_ok(
            self.reader_file(),
            self.reader_page_size(),
            self.reader_position() + 1,
            5,
        )
    }

    /// The byte-stream count of the data packet at the cursor.
    pub open spec fn packet_stream_count(self) -> u16 {
        le_u16(
            logical_seq(
                self.reader_file(),
                self.reader_page_size(),
                self.reader_position() + 4,
                2,
            ),
        )
    }

    /// The per-stream payload sizes of the data packet at the cursor.
    pub open spec fn packet_sizes(self) -> Seq<nat> {
        Seq::new(
            self.prototype().len(),
            |i: int| le_u16(
                logical_seq(
                    self.reader_file(),
                    self.reader_page_size(),
                    (self.reader_position() + 6 + 2 * i) as nat,
                    2,
                ),
            ) as nat,
        )
    }

    /// Logical position where stream `i`'s payload run begins inside the
    /// data packet at the cursor; at `i == prototype().len()` this is the
    /// end of the packet body.
    pub open spec fn payload_base(self, i: int) -> nat {
        self.reader_position() + 6 + 2 * self.prototype().len() + sum_prefix(
            self.packet_sizes(),
            i as nat,
        )
    }

    /// Stream `i`'s payload run inside the data packet at the cursor.
    pub open spec fn payload_window(self, i: int) -> Seq<u8> {
        logical_seq(
            self.reader_file(),
            self.reader_page_size(),
            self.payload_base(i),
            self.packet_sizes()[i],
        )
    }

    /// Stream `i`'s buffer contents once this packet's payload run is
    /// appended: the pending bytes (consumed whole bytes are dropped at
    /// append) followed by the run.
    pub open spec fn stream_bytes(self, i: int) -> Seq<u8> {
        self.streams_view()[i].bytes().subrange(
            (self.streams_view()[i].start() / 8) as int,
            self.streams_view()[i].bytes().len() as int,
        ) + self.payload_window(i)
    }

    /// Stream `i`'s bit cursor once this packet's payload run is appended.
    pub open spec fn stream_start(self, i: int) -> nat {
        self.streams_view()[i].start() % 8
    }

    /// Queue `i` once this packet is ingested: its buffer, extended with the
    /// packet's payload run, drained by the decoder its field dictates.
    pub open spec fn ingested_queue(self, i: int) -> Seq<RecordValue> {
        drained_values(
            self.prototype()[i].data_type,
            self.stream_bytes(i),
            self.stream_start(i),
            self.queues_view()[i],
        )
    }

    /// Ingesting one packet from the current state succeeds: a readable,
    /// checksummed data packet header addressed to this prototype, readable
    /// checksummed size and payload runs, stream buffers with room for the
    /// runs, decoders that accept every whole value, and an in-bounds
    /// 4-byte realignment after the body.
    pub open spec fn ingest_ok(self) -> bool {
        let n = self.prototype().len() as int;
        let file = self.reader_file();
        let psz = self.reader_page_size();
        let llen = self.reader_logical_len();
        let pos0 = self.reader_position();
        &&& self.data_header_readable()
        &&& self.packet_type_byte() == 1
        &&& self.packet_stream_count() as int == n
        &&& pos0 + 6 + 2 * n <= llen
        &&& forall|i: int|
            0 <= i < n ==> #[trigger] window_pages_ok(file, psz, (pos0 + 6 + 2 * i) as nat, 2)
        &&& forall|i: int|
            0 <= i < n ==> #[trigger] self.payload_base(i) + self.packet_sizes()[i] <= llen
                && window_pages_ok(file, psz, self.payload_base(i), self.packet_sizes()[i])
        &&& forall|i: int|
            0 <= i < n ==> (#[trigger] self.streams_view()[i]).bytes().len()
                - self.streams_view()[i].start() / 8 + self.packet_sizes()[i] <= MAX_STREAM_BYTES
        &&& forall|i: int|
            0 <= i < n ==> decode_ok(
                self.prototype()[i].data_type,
                #[trigger] self.stream_bytes(i),
                self.stream_start(i),
            )
        &&& align4(self.payload_base(n)) <= llen
    }

    /// Every page window the packet at the cursor touches verifies its
    /// checksum; ingestion reports `CrcMismatch` only when this fails.
    pub open spec fn ingest_windows_ok(self) -> bool {
        let n = self.prototype().len() as int;
        let file = self.reader_file();
        let psz = self.reader_page_size();
        let pos0 = self.reader_position();
        &&& window_pages_ok(file, psz, pos0, 1)
        &&& window_pages_ok(file, psz, pos0 + 1, 5)
        &&& forall|i: int|
            0 <= i < n ==> #[trigger] window_pages_ok(file, psz, (pos0 + 6 + 2 * i) as nat, 2)
        &&& forall|i: int|
            0 <= i < n ==> window_pages_ok(
                file,
                psz,
                #[trigger] self.payload_base(i),
                self.packet_sizes()[i],
            )
    }

    /// The packet at the cursor fits the logical stream and the stream
    /// buffers; ingestion reports `Io` only when this fails.
    pub open spec fn ingest_bounds_ok(self) -> bool {
        let n = self.prototype().len() as int;
        let llen = self.reader_logical_len();
        let pos0 = self.reader_position();
        &&& pos0 + 6 <= llen
        &&& pos0 + 6 + 2 * n <= llen
        &&& forall|i: int|
            0 <= i < n ==> #[trigger] self.payload_base(i) + self.packet_sizes()[i] <= llen
        &&& forall|i: int|
            0 <= i < n ==> (#[trigger] self.streams_view()[i]).bytes().len()
                - self.streams_view()[i].start() / 8 + self.packet_sizes()[i] <= MAX_STREAM_BYTES
        &&& align4(self.payload_base(n)) <= llen
    }

    /// The descriptor locates a readable, checksummed compressed-vector
    /// section header carrying the right id, whose data offset addresses a
    /// payload byte of the image: exactly the condition under which `new`
    /// succeeds.
    pub open spec fn section_locatable(pc: PointCloud, reader: PagedReader) -> bool {
        let file = reader.file();
        let psz = reader.psz();
        let off = pc.file_offset as nat;
        let hpos = logical_of_physical(psz, off);
        let hdr = logical_seq(file, psz, hpos, 32);
        let doff = le_u64(hdr.subrange(16, 24)) as nat;
        &&& off <= file.len()
        &&& off % psz < payload_len(psz)
        &&& hpos + 32 <= reader.logical_len()
        &&& window_pages_ok(file, psz, hpos, 32)
        &&& hdr[0] == 1
        &&& doff <= file.len()
        &&& doff % psz < payload_len(psz)
    }

    /// Creates a reader for one point cloud: seeks to the compressed-vector
    /// section named by the descriptor, reads its header, and positions the
    /// underlying reader at the first packet.
    pub fn new(pc: PointCloud, reader: PagedReader) -> (r: Result<PointCloudReaderRaw, Error>)
        requires
            reader.wf(),
        ensures
            r is Ok <==> Self::section_locatable(pc, reader),
            match r {
                Ok(s) => {
                    let file = reader.file();
                    let psz = reader.psz();
                    let hdr = logical_seq(
                        file,
                        psz,
                        logical_of_physical(psz, pc.file_offset as nat),
                        32,
                    );
                    &&& s.wf()
                    &&& s.descriptor() == pc
                    &&& s.prototype() == pc.prototype@
                    &&& s.records() == pc.records
                    &&& s.read_count() == 0
                    &&& !s.is_poisoned()
                    &&& s.reader_file() == file
                    &&& s.reader_page_size() == psz
                    &&& s.reader_position() == logical_of_physical(
                        psz,
                        le_u64(hdr.subrange(16, 24)) as nat,
                    )
                    &&& s.queues_view().len() == pc.prototype@.len()
                    &&& s.streams_view().len() == pc.prototype@.len()
                    &&& forall|i: int|
                        0 <= i < s.queues_view().len() ==> (#[trigger] s.queues_view()[i]).len()
                            == 0
                    &&& forall|i: int|
                        0 <= i < s.streams_view().len() ==> (#[trigger] s.streams_view()[
                            i
                        ]).bytes() == Seq::<u8>::empty() && s.streams_view()[i].start() == 0
                },
                Err(e) => {
                    let file = reader.file();
                    let psz = reader.psz();
                    let llen = reader.logical_len();
                    let off = pc.file_offset as nat;
                    let seek1_ok = off <= file.len() && off % psz < payload_len(psz);
                    let hpos = logical_of_physical(psz, off);
                    let hdr_in = hpos + 32 <= llen;
                    let hdr_win = window_pages_ok(file, psz, hpos, 32);
                    let hdr = logical_seq(file, psz, hpos, 32);
                    let doff = le_u64(hdr.subrange(16, 24)) as nat;
                    ||| (e == Error::Io && off > file.len())
                    ||| (e == Error::InvalidArgument && off <= file.len() && off % psz
                        >= payload_len(psz))
                    ||| (e == Error::Io && seek1_ok && !hdr_in)
                    ||| (e == Error::InvalidFile(InvalidFileKind::CrcMismatch) && seek1_ok && hdr_in
                        && !hdr_win)
                    ||| (e == Error::InvalidFile(InvalidFileKind::MalformedSectionHeader)
                        && seek1_ok && hdr[0] != 1)
                    ||| (e == Error::Io && seek1_ok && hdr[0] == 1 && doff > file.len())
                    ||| (e == Error::InvalidArgument && seek1_ok && hdr[0] == 1 && doff
                        <= file.len() && doff % psz >= payload_len(psz))
                },
            },
    {
        let mut reader = reader;
        match reader.seek_physical(pc.file_offset) {
            Ok(()) => (),
            Err(e) => {
                return Err(e);
            },
        }
        let header = match CompressedVectorSectionHeader::read(&mut reader) {
            Ok(h) => h,
            Err(e) => {
                return Err(e);
            },
        };
        match reader.seek_physical(header.data_offset) {
            Ok(()) => (),
            Err(e) => {
                return Err(e);
            },
        }
        let n = pc.prototype.len();
        let mut byte_streams: Vec<ByteStreamReadBuffer> = Vec::new();
        let mut queues: Vec<VecDeque<RecordValue>> = Vec::new();
        let mut i: usize = 0;
        while i < n
            invariant
                i <= n,
                byte_streams@.len() == i,
                queues@.len() == i,
                forall|k: int|
                    0 <= k < i ==> (#[trigger] byte_streams@[k]).wf() && byte_streams@[k].bytes()
                        == Seq::<u8>::empty() && byte_streams@[k].start() == 0,
                forall|k: int| 0 <= k < i ==> (#[trigger] queues@[k])@.len() == 0,
            decreases n - i,
        {
            byte_streams.push(ByteStreamReadBuffer::new());
            queues.push(VecDeque::new());
            i = i + 1;
        }
        Ok(PointCloudReaderRaw { pc, reader, byte_streams, queues, read: 0, poisoned: false })
    }

    /// Count of whole points the queues can currently emit: the minimum
    /// queue length over fields that occupy bits on the wire.
    pub fn available_in_queue(&self) -> (r: usize)
        requires
            self.wf(),
        ensures
            r as nat == self.available_spec(),
    {
        let n = self.queues.len();
        if n == 0 {
            return 0;
        }
        let mut av: usize = usize::MAX;
        let mut i: usize = 0;
        while i < n
            invariant
                self.wf(),
                i <= n,
                n == self.queues@.len(),
                av as nat == self.min_avail_rec(i as nat),
            decreases n - i,
        {
            let dt = self.pc.prototype[i].data_type;
            let contributes = match dt {
                RecordDataType::Single { .. } => true,
                RecordDataType::Double { .. } => true,
                RecordDataType::ScaledInteger { min, max, .. } => min != max,
                RecordDataType::Integer { min, max } => min != max,
            };
            if contributes {
                let len = self.queues[i].len();
                if len < av {
                    av = len;
                }
            }
            i = i + 1;
        }
        av
    }

    /// Pops one value per field, in field order, into a fresh point.
    /// Zero-bit constant fields are synthesized; an empty contributing
    /// queue is an internal error.
    pub fn pop_queue_point(&mut self) -> (r: Result<RawValues, Error>)
        requires
            old(self).wf(),
        ensures
            final(self).wf(),
            final(self).prototype() == old(self).prototype(),
            final(self).records() == old(self).records(),
            final(self).read_count() == old(self).read_count(),
            final(self).is_poisoned() == old(self).is_poisoned(),
            final(self).reader_position() == old(self).reader_position(),
            final(self).queues_view().len() == old(self).queues_view().len(),
            match r {
                Ok(p) => {
                    &&& p@.len() == old(self).prototype().len()
                    &&& forall|i: int|
                        0 <= i < p@.len() ==> value_matches(
                            #[trigger] p@[i],
                            old(self).prototype()[i].data_type,
                        )
                    &&& forall|i: int|
                        0 <= i < p@.len() ==> (if dt_contributes(
                            old(self).prototype()[i].data_type,
                        ) {
                            &&& old(self).queues_view()[i].len() >= 1
                            &&& p@[i] == old(self).queues_view()[i][0]
                            &&& #[trigger] final(self).queues_view()[i] == old(
                                self,
                            ).queues_view()[i].subrange(
                                1,
                                old(self).queues_view()[i].len() as int,
                            )
                        } else {
                            &&& p@[i] == dt_constant_value(old(self).prototype()[i].data_type)
                            &&& final(self).queues_view()[i] == old(self).queues_view()[i]
                        })
                },
                Err(e) => {
                    &&& e == Error::Internal
                    &&& exists|i: int|
                        0 <= i < old(self).prototype().len() && dt_contributes(
                            #[trigger] old(self).prototype()[i].data_type,
                        ) && old(self).queues_view()[i].len() == 0
                },
            },
    {
        let n = self.queues.len();
        let ghost proto = self.pc.prototype@;
        let ghost oldq = self.queues_view();
        let mut point: RawValues = Vec::new();
        let mut failed: bool = false;
        let ghost mut badi: int = 0;
        let mut i: usize = 0;
        while i < n
            invariant
                i <= n,
                n == oldq.len(),
                n == proto.len(),
                self.pc.prototype@ == proto,
                self.queues@.len() == n,
                self.byte_streams@ == old(self).byte_streams@,
                self.pc == old(self).pc,
                self.reader == old(self).reader,
                self.read == old(self).read,
                self.poisoned == old(self).poisoned,
                oldq == old(self).queues_view(),
                old(self).wf(),
                forall|k: int| 0 <= k < n - i ==> (#[trigger] self.queues@[k])@ == oldq[k + i],
                forall|k: int|
                    n - i <= k < n ==> ((#[trigger] self.queues@[k])@ == oldq[k - (n - i)] || (
                    oldq[k - (n - i)].len() >= 1 && self.queues@[k]@ == oldq[k - (n
                        - i)].subrange(1, oldq[k - (n - i)].len() as int))),
                !failed ==> point@.len() == i,
                !failed ==> forall|j: int|
                    0 <= j < i ==> (if dt_contributes(#[trigger] proto[j].data_type) {
                        &&& oldq[j].len() >= 1
                        &&& point@[j] == oldq[j][0]
                        &&& self.queues@[j + (n - i)]@ == oldq[j].subrange(1, oldq[j].len() as int)
                    } else {
                        &&& point@[j] == dt_constant_value(proto[j].data_type)
                        &&& self.queues@[j + (n - i)]@ == oldq[j]
                    }),
                !failed ==> forall|j: int|
                    0 <= j < i ==> value_matches(#[trigger] point@[j], proto[j].data_type),
                failed ==> 0 <= badi < n && dt_contributes(proto[badi].data_type) && oldq[
                    badi
                ].len() == 0,
            decreases n - i,
        {
            let mut q = self.queues.remove(0);
            let dt = self.pc.prototype[i].data_type;
            if !failed {
                let contributes = match dt {
                    RecordDataType::Single { .. } => true,
                    RecordDataType::Double { .. } => true,
                    RecordDataType::ScaledInteger { min, max, .. } => min != max,
                    RecordDataType::Integer { min, max } => min != max,
                };
                if contributes {
                    match q.pop_front() {
                        Some(v) => {
                            point.push(v);
                        },
                        None => {
                            failed = true;
                            proof {
                                badi = i as int;
                            }
                        },
                    }
                } else {
                    let v = match dt {
                        RecordDataType::Single { .. } => RecordValue::Single(0),
                        RecordDataType::Double { .. } => RecordValue::Double(0),
                        RecordDataType::ScaledInteger { min, .. } => RecordValue::ScaledInteger(
                            min,
                        ),
                        RecordDataType::Integer { min, .. } => RecordValue::Integer(min),
                    };
                    point.push(v);
                }
            }
            self.queues.push(q);
            i = i + 1;
        }
        proof {
            assert forall|a: int, b: int|
                0 <= a < self.queues@.len() && 0 <= b < self.queues@[a]@.len() implies value_matches(
                #[trigger] self.queues@[a]@[b],
                self.pc.prototype@[a].data_type,
            ) by {
                assert(old(self).queues@[a]@ == oldq[a]);
                if self.queues@[a]@ == oldq[a] {
                    assert(self.queues@[a]@[b] == old(self).queues@[a]@[b]);
                } else {
                    assert(oldq[a].len() >= 1 && self.queues@[a]@ == oldq[a].subrange(
                        1,
                        oldq[a].len() as int,
                    ));
                    assert(oldq[a].subrange(1, oldq[a].len() as int)[b] == oldq[a][1 + b]);
                    assert(self.queues@[a]@[b] == old(self).queues@[a]@[b + 1]);
                }
            }
        }
        if failed {
            return Err(Error::Internal);
        }
        Ok(point)
    }

    /// Ingests one packet: reads and checks its header, reads each stream's
    /// payload run into its buffer, drains every buffer through the decoder
    /// its field dictates, and realigns the reader to the next 4-byte
    /// logical boundary.  Index and ignored packets, and a byte-stream count
    /// differing from the prototype length, are rejected before any stream
    /// is touched.
    #[verifier::rlimit(100)]
    #[verifier::spinoff_prover]
    pub fn advance(&mut self) -> (r: Result<(), Error>)
        requires
            old(self).wf(),
        ensures
            final(self).wf(),
            final(self).prototype() == old(self).prototype(),
            final(self).records() == old(self).records(),
            final(self).read_count() == old(self).read_count(),
            final(self).is_poisoned() == old(self).is_poisoned(),
            final(self).reader_file() == old(self).reader_file(),
            final(self).reader_page_size() == old(self).reader_page_size(),
            final(self).queues_view().len() == old(self).queues_view().len(),
            forall|i: int|
                0 <= i < old(self).queues_view().len() ==> {
                    &&& (#[trigger] final(self).queues_view()[i]).len() >= old(
                        self,
                    ).queues_view()[i].len()
                    &&& final(self).queues_view()[i].subrange(
                        0,
                        old(self).queues_view()[i].len() as int,
                    ) == old(self).queues_view()[i]
                },
            r is Ok <==> old(self).ingest_ok(),
            r is Ok ==> ({
                let n = old(self).prototype().len() as int;
                &&& final(self).reader_position() == align4(old(self).payload_base(n))
                &&& final(self).reader_position() % 4 == 0
                &&& old(self).packet_type_byte() == 1
                &&& old(self).packet_stream_count() as int == n
                &&& forall|i: int|
                    0 <= i < n ==> {
                        &&& (#[trigger] final(self).streams_view()[i]).bytes() == old(
                            self,
                        ).stream_bytes(i)
                        &&& final(self).streams_view()[i].start() == drained_cursor(
                            old(self).prototype()[i].data_type,
                            old(self).stream_bytes(i),
                            old(self).stream_start(i),
                        )
                        &&& final(self).queues_view()[i] == old(self).ingested_queue(i)
                    }
            }),
            (old(self).header_readable() && old(self).packet_type_byte() == 0) ==> r == Err::<
                (),
                Error,
            >(Error::Unimplemented(UnimplementedKind::IndexPacket)),
            (old(self).header_readable() && old(self).packet_type_byte() == 2) ==> r == Err::<
                (),
                Error,
            >(Error::Unimplemented(UnimplementedKind::IgnoredPacket)),
            (old(self).data_header_readable() && old(self).packet_type_byte() == 1 && old(
                self,
            ).packet_stream_count() as int != old(self).prototype().len()) ==> r == Err::<
                (),
                Error,
            >(Error::InvalidFile(InvalidFileKind::PrototypeMismatch)),
            r == Err::<(), Error>(Error::Unimplemented(UnimplementedKind::IndexPacket)) ==> old(
                self,
            ).packet_type_byte() == 0,
            r == Err::<(), Error>(Error::Unimplemented(UnimplementedKind::IgnoredPacket)) ==> old(
                self,
            ).packet_type_byte() == 2,
            r == Err::<(), Error>(Error::InvalidFile(InvalidFileKind::PrototypeMismatch)) ==> old(
                self,
            ).packet_type_byte() == 1 && old(self).packet_stream_count() as int != old(
                self,
            ).prototype().len(),
            (r == Err::<(), Error>(Error::Unimplemented(UnimplementedKind::IndexPacket)) || r
                == Err::<(), Error>(Error::Unimplemented(UnimplementedKind::IgnoredPacket)) || r
                == Err::<(), Error>(Error::InvalidFile(InvalidFileKind::PrototypeMismatch))) ==> {
                &&& final(self).queues_view() == old(self).queues_view()
                &&& final(self).streams_view() == old(self).streams_view()
            },
            r == Err::<(), Error>(Error::InvalidFile(InvalidFileKind::InvertedRange)) ==> exists|i: int|
                0 <= i < old(self).prototype().len() && dt_inverted(
                    (#[trigger] old(self).prototype()[i]).data_type,
                ),
            r == Err::<(), Error>(Error::InvalidFile(InvalidFileKind::RangeTooLarge)) ==> exists|i: int|
                0 <= i < old(self).prototype().len() && dt_oversized(
                    (#[trigger] old(self).prototype()[i]).data_type,
                ),
            r == Err::<(), Error>(Error::InvalidFile(InvalidFileKind::ValueOutOfRange)) ==> exists|i: int|
                0 <= i < old(self).prototype().len() && !decode_ok(
                    (#[trigger] old(self).prototype()[i]).data_type,
                    old(self).stream_bytes(i),
                    old(self).stream_start(i),
                ),
            r == Err::<(), Error>(Error::InvalidFile(InvalidFileKind::CrcMismatch)) ==> !old(
                self,
            ).ingest_windows_ok(),
            r == Err::<(), Error>(Error::Io) ==> !old(self).ingest_bounds_ok(),
            r is Err ==> forall|i: int|
                0 <= i < old(self).prototype().len() && !dt_range_ok(
                    (#[trigger] old(self).prototype()[i]).data_type,
                ) ==> final(self).queues_view()[i] == old(self).queues_view()[i],
    {
        let ghost proto = self.pc.prototype@;
        let ghost oldq = self.queues_view();
        let ghost file = self.reader.file();
        let ghost psz = self.reader.psz();
        let ghost pos0 = self.reader.position();
        let ghost llen = old(self).reader_logical_len();
        let ghost szs = old(self).packet_sizes();
        let header = match PacketHeader::read(&mut self.reader) {
            Ok(h) => h,
            Err(e) => {
                proof {
                    self.lemma_queues_unchanged(*old(self));
                    assert(!old(self).ingest_ok());
                }
                return Err(e);
            },
        };
        let dh = match header {
            PacketHeader::Index => {
                proof {
                    self.lemma_queues_unchanged(*old(self));
                }
                return Err(Error::Unimplemented(UnimplementedKind::IndexPacket));
            },
            PacketHeader::Ignored => {
                proof {
                    self.lemma_queues_unchanged(*old(self));
                }
                return Err(Error::Unimplemented(UnimplementedKind::IgnoredPacket));
            },
            PacketHeader::Data(d) => d,
        };
        let n = self.queues.len();
        if dh.bytestream_count as usize != n {
            proof {
                self.lemma_queues_unchanged(*old(self));
            }
            return Err(Error::InvalidFile(InvalidFileKind::PrototypeMismatch));
        }
        let mut sizes: Vec<usize> = Vec::new();
        let mut i: usize = 0;
        while i < n
            invariant
                i <= n,
                sizes@.len() == i,
                self.pc == old(self).pc,
                self.read == old(self).read,
                self.poisoned == old(self).poisoned,
                self.byte_streams@ == old(self).byte_streams@,
                self.queues@ == old(self).queues@,
                self.reader.wf(),
                old(self).wf(),
                n == self.queues@.len(),
                n == old(self).prototype().len(),
                file == old(self).reader_file(),
                psz == old(self).reader_page_size(),
                pos0 == old(self).reader_position(),
                llen == old(self).reader_logical_len(),
                szs == old(self).packet_sizes(),
                old(self).data_header_readable(),
                old(self).packet_type_byte() == 1,
                old(self).packet_stream_count() as int == n,
                self.reader.file() == file,
                self.reader.psz() == psz,
                self.reader.position() == pos0 + 6 + 2 * i,
                pos0 + 6 + 2 * i <= llen,
                forall|j: int| 0 <= j < i ==> (#[trigger] sizes@[j]) as nat == szs[j],
                forall|j: int|
                    0 <= j < i ==> #[trigger] window_pages_ok(
                        file,
                        psz,
                        (pos0 + 6 + 2 * j) as nat,
                        2,
                    ),
            decreases n - i,
        {
            let buf = match self.reader.read_exact(2) {
                Ok(v) => v,
                Err(e) => {
                    proof {
                        self.lemma_queues_unchanged(*old(self));
                        assert(!old(self).ingest_ok()) by {
                            if old(self).ingest_ok() {
                                assert(pos0 + 6 + 2 * n <= llen);
                                assert(window_pages_ok(
                                    file,
                                    psz,
                                    (pos0 + 6 + 2 * (i as int)) as nat,
                                    2,
                                ));
                            }
                        }
                    }
                    return Err(e);
                },
            };
            let len = read_u16_le(&buf, 0);
            proof {
                assert(buf@.subrange(0, 2) =~= buf@);
                assert(buf@ == logical_seq(file, psz, (pos0 + 6 + 2 * (i as int)) as nat, 2));
                assert(len as nat == szs[i as int]);
            }
            sizes.push(len as usize);
            i = i + 1;
        }
        let mut payloads: Vec<Vec<u8>> = Vec::new();
        let mut i: usize = 0;
        while i < n
            invariant
                i <= n,
                payloads@.len() == i,
                sizes@.len() == n,
                self.pc == old(self).pc,
                self.read == old(self).read,
                self.poisoned == old(self).poisoned,
                self.byte_streams@ == old(self).byte_streams@,
                self.queues@ == old(self).queues@,
                self.reader.wf(),
                old(self).wf(),
                n == self.queues@.len(),
                n == old(self).prototype().len(),
                file == old(self).reader_file(),
                psz == old(self).reader_page_size(),
                pos0 == old(self).reader_position(),
                llen == old(self).reader_logical_len(),
                szs == old(self).packet_sizes(),
                old(self).data_header_readable(),
                old(self).packet_type_byte() == 1,
                old(self).packet_stream_count() as int == n,
                self.reader.file() == file,
                self.reader.psz() == psz,
                self.reader.position() == old(self).payload_base(i as int),
                pos0 + 6 + 2 * n <= llen,
                forall|j: int| 0 <= j < n ==> (#[trigger] sizes@[j]) as nat == szs[j],
                forall|j: int|
                    0 <= j < n ==> #[trigger] window_pages_ok(
                        file,
                        psz,
                        (pos0 + 6 + 2 * j) as nat,
                        2,
                    ),
                forall|j: int| 0 <= j < i ==> (#[trigger] payloads@[j])@ == old(
                    self,
                ).payload_window(j),
                forall|j: int|
                    0 <= j < i ==> #[trigger] old(self).payload_base(j) + szs[j] <= llen
                        && window_pages_ok(file, psz, old(self).payload_base(j), szs[j]),
            decreases n - i,
        {
            let sz = sizes[i];
            let buf = match self.reader.read_exact(sz) {
                Ok(v) => v,
                Err(e) => {
                    proof {
                        self.lemma_queues_unchanged(*old(self));
                        assert(!old(self).ingest_ok()) by {
                            if old(self).ingest_ok() {
                                assert(old(self).payload_base(i as int) + old(
                                    self,
                                ).packet_sizes()[i as int] <= llen && window_pages_ok(
                                    file,
                                    psz,
                                    old(self).payload_base(i as int),
                                    old(self).packet_sizes()[i as int],
                                ));
                            }
                        }
                    }
                    return Err(e);
                },
            };
            proof {
                assert(buf@ == old(self).payload_window(i as int));
                assert(sum_prefix(szs, (i + 1) as nat) == sum_prefix(szs, i as nat) + szs[i as int]);
            }
            payloads.push(buf);
            i = i + 1;
        }
        let mut failure: Option<Error> = None;
        let mut i: usize = 0;
        while i < n
            invariant
                i <= n,
                payloads@.len() == n,
                failure matches Some(e) ==> {
                    &&& !(e matches Error::Unimplemented(_))
                    &&& e != Error::InvalidFile(InvalidFileKind::PrototypeMismatch)
                    &&& e != Error::InvalidFile(InvalidFileKind::CrcMismatch)
                    &&& e == Error::Io ==> exists|j: int|
                        0 <= j < n && (#[trigger] old(self).streams_view()[j]).bytes().len() - old(
                            self,
                        ).streams_view()[j].start() / 8 + szs[j] > MAX_STREAM_BYTES
                    &&& e == Error::InvalidFile(InvalidFileKind::InvertedRange) ==> exists|j: int|
                        0 <= j < n && dt_inverted((#[trigger] proto[j]).data_type)
                    &&& e == Error::InvalidFile(InvalidFileKind::RangeTooLarge) ==> exists|j: int|
                        0 <= j < n && dt_oversized((#[trigger] proto[j]).data_type)
                    &&& e == Error::InvalidFile(InvalidFileKind::ValueOutOfRange) ==> exists|j: int|
                        0 <= j < n && !decode_ok(
                            (#[trigger] proto[j]).data_type,
                            old(self).stream_bytes(j),
                            old(self).stream_start(j),
                        )
                },
                failure is Some ==> !old(self).ingest_ok(),
                forall|k: int|
                    n - i <= k < n ==> (!dt_range_ok(proto[k - (n - i)].data_type) ==> (
                    #[trigger] self.queues@[k])@ == oldq[k - (n - i)]),
                n == oldq.len(),
                n == proto.len(),
                self.pc == old(self).pc,
                self.pc.prototype@ == proto,
                self.read == old(self).read,
                self.poisoned == old(self).poisoned,
                self.reader.wf(),
                old(self).wf(),
                oldq == old(self).queues_view(),
                self.queues@.len() == n,
                self.byte_streams@.len() == n,
                n == old(self).prototype().len(),
                file == old(self).reader_file(),
                psz == old(self).reader_page_size(),
                pos0 == old(self).reader_position(),
                llen == old(self).reader_logical_len(),
                szs == old(self).packet_sizes(),
                old(self).data_header_readable(),
                old(self).packet_type_byte() == 1,
                old(self).packet_stream_count() as int == n,
                self.reader.file() == file,
                self.reader.psz() == psz,
                self.reader.position() == old(self).payload_base(n as int),
                pos0 + 6 + 2 * n <= llen,
                forall|j: int|
                    0 <= j < n ==> #[trigger] window_pages_ok(
                        file,
                        psz,
                        (pos0 + 6 + 2 * j) as nat,
                        2,
                    ),
                forall|j: int| 0 <= j < n ==> (#[trigger] payloads@[j])@ == old(
                    self,
                ).payload_window(j),
                forall|j: int|
                    0 <= j < n ==> #[trigger] old(self).payload_base(j) + szs[j] <= llen
                        && window_pages_ok(file, psz, old(self).payload_base(j), szs[j]),
                forall|k: int| 0 <= k < n - i ==> (#[trigger] self.queues@[k])@ == oldq[k + i],
                forall|k: int|
                    0 <= k < n - i ==> #[trigger] self.byte_streams@[k] == old(
                        self,
                    ).byte_streams@[k + i],
                forall|k: int| 0 <= k < n ==> (#[trigger] self.byte_streams@[k]).wf(),
                forall|k: int|
                    n - i <= k < n ==> {
                        let j = k - (n - i);
                        &&& (#[trigger] self.queues@[k])@.len() >= oldq[j].len()
                        &&& self.queues@[k]@.subrange(0, oldq[j].len() as int) == oldq[j]
                        &&& forall|m: int|
                            0 <= m < self.queues@[k]@.len() ==> value_matches(
                                #[trigger] self.queues@[k]@[m],
                                proto[j].data_type,
                            )
                    },
                failure is None ==> forall|k: int|
                    n - i <= k < n ==> {
                        let j = k - (n - i);
                        &&& (#[trigger] self.byte_streams@[k]).bytes() == old(self).stream_bytes(j)
                        &&& self.byte_streams@[k].start() == drained_cursor(
                            proto[j].data_type,
                            old(self).stream_bytes(j),
                            old(self).stream_start(j),
                        )
                        &&& self.queues@[k]@ == old(self).ingested_queue(j)
                    },
                failure is None ==> forall|j: int|
                    0 <= j < i ==> (#[trigger] old(self).streams_view()[j]).bytes().len() - old(
                        self,
                    ).streams_view()[j].start() / 8 + szs[j] <= MAX_STREAM_BYTES && decode_ok(
                        proto[j].data_type,
                        old(self).stream_bytes(j),
                        old(self).stream_start(j),
                    ),
            decreases n - i,
        {
            let mut bs = self.byte_streams.remove(0);
            let mut q = self.queues.remove(0);
            let ghost qbefore = q@;
            let ghost bs0 = bs;
            if failure.is_none() {
                let payload = &payloads[i];
                proof {
                    assert(payload@ == old(self).payload_window(i as int));
                    assert(payload@.len() == szs[i as int]);
                    assert(bs0 == old(self).streams_view()[i as int]);
                }
                match bs.append(payload) {
                    Err(e) => {
                        proof {
                            assert(!old(self).ingest_ok()) by {
                                if old(self).ingest_ok() {
                                    assert(old(self).streams_view()[i as int].bytes().len() - old(
                                        self,
                                    ).streams_view()[i as int].start() / 8 + old(
                                        self,
                                    ).packet_sizes()[i as int] <= MAX_STREAM_BYTES);
                                }
                            }
                            assert(old(self).streams_view()[i as int].bytes().len() - old(
                                self,
                            ).streams_view()[i as int].start() / 8 + szs[i as int]
                                > MAX_STREAM_BYTES);
                        }
                        failure = Some(e);
                    },
                    Ok(()) => {
                        proof {
                            assert(bs.bytes() == old(self).stream_bytes(i as int));
                        }
                        let dt = self.pc.prototype[i].data_type;
                        let res = match dt {
                            RecordDataType::Single { .. } => BitPack::unpack_singles(
                                &mut bs,
                                &mut q,
                            ),
                            RecordDataType::Double { .. } => BitPack::unpack_doubles(
                                &mut bs,
                                &mut q,
                            ),
                            RecordDataType::ScaledInteger { min, max, .. } => {
                                BitPack::unpack_scaled_ints(&mut bs, min, max, &mut q)
                            },
                            RecordDataType::Integer { min, max } => BitPack::unpack_ints(
                                &mut bs,
                                min,
                                max,
                                &mut q,
                            ),
                        };
                        match res {
                            Ok(()) => {
                                proof {
                                    assert(bs.bytes() == old(self).stream_bytes(i as int));
                                    assert(bs0.start() == old(self).streams_view()[
                                        i as int
                                    ].start());
                                    assert(bs.start() == drained_cursor(
                                        proto[i as int].data_type,
                                        old(self).stream_bytes(i as int),
                                        old(self).stream_start(i as int),
                                    ));
                                    assert(q@ =~= old(self).ingested_queue(i as int));
                                    assert(q@ == old(self).ingested_queue(i as int));
                                    assert(decode_ok(
                                        proto[i as int].data_type,
                                        old(self).stream_bytes(i as int),
                                        old(self).stream_start(i as int),
                                    ));
                                }
                            },
                            Err(e) => {
                                proof {
                                    assert(!old(self).ingest_ok()) by {
                                        if old(self).ingest_ok() {
                                            assert(decode_ok(
                                                proto[i as int].data_type,
                                                old(self).stream_bytes(i as int),
                                                old(self).stream_start(i as int),
                                            ));
                                        }
                                    }
                                    assert(e != Error::InvalidFile(InvalidFileKind::CrcMismatch)
                                        && !(e matches Error::Unimplemented(_)) && e
                                        != Error::InvalidFile(InvalidFileKind::PrototypeMismatch));
                                    if e == Error::InvalidFile(InvalidFileKind::ValueOutOfRange) {
                                        assert(!decode_ok(
                                            proto[i as int].data_type,
                                            old(self).stream_bytes(i as int),
                                            old(self).stream_start(i as int),
                                        ));
                                    }
                                }
                                failure = Some(e);
                            },
                        }
                    },
                }
            }
            proof {
                assert(qbefore == oldq[i as int]);
                assert(old(self).queues@[i as int]@ == oldq[i as int]);
                if q@ != qbefore {
                    assert(q@.subrange(0, qbefore.len() as int) == qbefore);
                }
                assert forall|m: int| 0 <= m < q@.len() implies value_matches(
                    #[trigger] q@[m],
                    proto[i as int].data_type,
                ) by {
                    if m < qbefore.len() {
                        if q@ != qbefore {
                            assert(q@[m] == q@.subrange(0, qbefore.len() as int)[m]);
                        }
                        assert(q@[m] == old(self).queues@[i as int]@[m]);
                    }
                }
            }
            self.byte_streams.push(bs);
            self.queues.push(q);
            i = i + 1;
        }
        match failure {
            Some(e) => {
                proof {
                    if e == Error::Io {
                        assert(!old(self).ingest_bounds_ok()) by {
                            if old(self).ingest_bounds_ok() {
                                let j = choose|j: int|
                                    0 <= j < n && (#[trigger] old(
                                        self,
                                    ).streams_view()[j]).bytes().len() - old(
                                        self,
                                    ).streams_view()[j].start() / 8 + szs[j] > MAX_STREAM_BYTES;
                                assert(old(self).streams_view()[j].bytes().len() - old(
                                    self,
                                ).streams_view()[j].start() / 8 + old(self).packet_sizes()[j]
                                    <= MAX_STREAM_BYTES);
                            }
                        }
                    }
                }
                Err(e)
            },
            None => {
                match self.reader.align() {
                    Ok(()) => {
                        proof {
                            assert(old(self).ingest_ok());
                        }
                        Ok(())
                    },
                    Err(e) => {
                        proof {
                            assert(!old(self).ingest_ok()) by {
                                if old(self).ingest_ok() {
                                    assert(align4(old(self).payload_base(n as int)) <= llen);
                                }
                            }
                            assert(!old(self).ingest_bounds_ok()) by {
                                if old(self).ingest_bounds_ok() {
                                    assert(align4(old(self).payload_base(n as int)) <= llen);
                                }
                            }
                        }
                        Err(e)
                    },
                }
            },
        }
    }

    proof fn lemma_queues_unchanged(self, o: PointCloudReaderRaw)
        requires
            self.queues@ == o.queues@,
        ensures
            self.queues_view() == o.queues_view(),
            forall|i: int|
                0 <= i < o.queues_view().len() ==> {
                    &&& (#[trigger] self.queues_view()[i]).len() >= o.queues_view()[i].len()
                    &&& self.queues_view()[i].subrange(0, o.queues_view()[i].len() as int)
                        == o.queues_view()[i]
                },
    {
        assert(self.queues_view() =~= o.queues_view());
        assert forall|i: int| 0 <= i < o.queues_view().len() implies {
            &&& (#[trigger] self.queues_view()[i]).len() >= o.queues_view()[i].len()
            &&& self.queues_view()[i].subrange(0, o.queues_view()[i].len() as int)
                == o.queues_view()[i]
        } by {
            assert(self.queues_view()[i].subrange(0, o.queues_view()[i].len() as int)
                =~= o.queues_view()[i]);
        }
    }

    /// Returns the next point, an error item that poisons the reader, or
    /// `None` once all declared records were emitted or the reader is
    /// poisoned.  When the declared count exceeds what the packets hold, a
    /// trailing packet that refills nothing ends the stream, while a failed
    /// ingestion (packets ran out, bad checksum, unsupported packet)
    /// surfaces as an error item first.
    pub fn next(&mut self) -> (r: Option<Result<RawValues, Error>>)
        requires
            old(self).wf(),
        ensures
            final(self).wf(),
            final(self).prototype() == old(self).prototype(),
            final(self).records() == old(self).records(),
            old(self).read_count() >= old(self).records() ==> r is None,
            old(self).is_poisoned() ==> r is None,
            (old(self).is_poisoned() || old(self).read_count() >= old(self).records()) ==> {
                &&& final(self).queues_view() == old(self).queues_view()
                &&& final(self).streams_view() == old(self).streams_view()
                &&& final(self).reader_position() == old(self).reader_position()
                &&& final(self).read_count() == old(self).read_count()
            },
            (!old(self).is_poisoned() && old(self).read_count() < old(self).records()) ==> {
                &&& old(self).available_spec() >= 1 ==> (r matches Some(v) && v is Ok)
                &&& (old(self).available_spec() == 0 && !old(self).ingest_ok()) ==> (r matches Some(
                    v,
                ) && v is Err)
                &&& (old(self).available_spec() == 0 && old(self).ingest_ok()) ==> !(r matches Some(
                    v,
                ) && v is Err)
            },
            r matches Some(Ok(p)) ==> (old(self).available_spec() >= 1 ==> forall|i: int|
                0 <= i < p@.len() ==> (if dt_contributes(
                    (#[trigger] old(self).prototype()[i]).data_type,
                ) {
                    &&& old(self).queues_view()[i].len() >= 1
                    &&& p@[i] == old(self).queues_view()[i][0]
                    &&& final(self).queues_view()[i] == old(self).queues_view()[i].subrange(
                        1,
                        old(self).queues_view()[i].len() as int,
                    )
                } else {
                    &&& p@[i] == dt_constant_value(old(self).prototype()[i].data_type)
                    &&& final(self).queues_view()[i] == old(self).queues_view()[i]
                })),
            r matches Some(Ok(p)) ==> (old(self).available_spec() == 0 ==> forall|i: int|
                0 <= i < p@.len() ==> (if dt_contributes(
                    (#[trigger] old(self).prototype()[i]).data_type,
                ) {
                    &&& old(self).ingested_queue(i).len() >= 1
                    &&& p@[i] == old(self).ingested_queue(i)[0]
                    &&& final(self).queues_view()[i] == old(self).ingested_queue(i).subrange(
                        1,
                        old(self).ingested_queue(i).len() as int,
                    )
                } else {
                    &&& p@[i] == dt_constant_value(old(self).prototype()[i].data_type)
                    &&& final(self).queues_view()[i] == old(self).ingested_queue(i)
                })),
            match r {
                None => {
                    &&& final(self).read_count() == old(self).read_count()
                    &&& (old(self).is_poisoned() || old(self).read_count() >= old(self).records()
                        || final(self).available_spec() == 0)
                },
                Some(v) => match v {
                    Ok(p) => {
                        &&& !old(self).is_poisoned()
                        &&& !final(self).is_poisoned()
                        &&& old(self).read_count() < old(self).records()
                        &&& final(self).read_count() == old(self).read_count() + 1
                        &&& p@.len() == old(self).prototype().len()
                        &&& forall|i: int|
                            0 <= i < p@.len() ==> value_matches(
                                #[trigger] p@[i],
                                old(self).prototype()[i].data_type,
                            )
                    },
                    Err(_) => {
                        &&& final(self).is_poisoned()
                        &&& final(self).read_count() == old(self).read_count()
                    },
                },
            },
    {
        if self.poisoned {
            return None;
        }
        if self.read >= self.pc.records {
            return None;
        }
        if self.available_in_queue() < 1 {
            match self.advance() {
                Ok(()) => {
                    proof {
                        assert forall|i: int|
                            0 <= i < old(self).prototype().len() implies #[trigger] self.queues_view()[i]
                            == old(self).ingested_queue(i) by {
                            assert(self.streams_view()[i].bytes() == old(self).stream_bytes(i));
                        }
                    }
                },
                Err(e) => {
                    self.poisoned = true;
                    return Some(Err(e));
                },
            }
        }
        if self.available_in_queue() < 1 {
            return None;
        }
        let ghost pre = *self;
        match self.pop_queue_point() {
            Ok(point) => {
                let ghost post = *self;
                self.read = self.read + 1;
                proof {
                    self.lemma_queues_unchanged(post);
                    assert forall|i: int|
                        0 <= i < point@.len() && old(self).available_spec() >= 1 implies (
                    if dt_contributes((#[trigger] old(self).prototype()[i]).data_type) {
                        &&& old(self).queues_view()[i].len() >= 1
                        &&& point@[i] == old(self).queues_view()[i][0]
                        &&& self.queues_view()[i] == old(self).queues_view()[i].subrange(
                            1,
                            old(self).queues_view()[i].len() as int,
                        )
                    } else {
                        &&& point@[i] == dt_constant_value(old(self).prototype()[i].data_type)
                        &&& self.queues_view()[i] == old(self).queues_view()[i]
                    }) by {
                        assert(pre.queues_view()[i].len() >= 0);
                        assert(post.queues_view()[i].len() >= 0);
                        assert(old(self).queues_view()[i].len() >= 0);
                    }
                    assert forall|i: int|
                        0 <= i < point@.len() && old(self).available_spec() == 0 implies (
                    if dt_contributes((#[trigger] old(self).prototype()[i]).data_type) {
                        &&& old(self).ingested_queue(i).len() >= 1
                        &&& point@[i] == old(self).ingested_queue(i)[0]
                        &&& self.queues_view()[i] == old(self).ingested_queue(i).subrange(
                            1,
                            old(self).ingested_queue(i).len() as int,
                        )
                    } else {
                        &&& point@[i] == dt_constant_value(old(self).prototype()[i].data_type)
                        &&& self.queues_view()[i] == old(self).ingested_queue(i)
                    }) by {
                        assert(pre.streams_view()[i].bytes().len() >= 0);
                        assert(pre.queues_view()[i].len() >= 0);
                        assert(post.queues_view()[i].len() >= 0);
                        assert(old(self).ingested_queue(i).len() >= 0);
                    }
                }
                Some(Ok(point))
            },
            Err(e) => {
                proof {
                    let i = choose|i: int|
                        0 <= i < pre.prototype().len() && dt_contributes(
                            #[trigger] pre.prototype()[i].data_type,
                        ) && pre.queues_view()[i].len() == 0;
                    pre.lemma_min_avail_le(pre.queues@.len() as nat, i);
                    assert(false);
                }
                self.poisoned = true;
                Some(Err(e))
            },
        }
    }

    /// Remaining point count: exactly `records - read`, as both the lower
    /// and upper bound.
    pub fn size_hint(&self) -> (r: (u64, Option<u64>))
        requires
            self.wf(),
        ensures
            r.0 as int == self.records() - self.read_count(),
            r.1 == Some((self.records() - self.read_count()) as u64),
    {
        let remaining = self.pc.records - self.read;
        (remaining, Some(remaining))
    }

    /// The underlying reader's logical cursor, for inspection after a run.
    pub fn reader_logical_position(&self) -> (r: u64)
        ensures
            r as nat == self.reader_position(),
    {
        self.reader.logical_position()
    }

    /// Consumes the iterator and hands back the underlying reader, so
    /// another cloud of the same image can be read.
    pub fn into_reader(self) -> (r: PagedReader)
        requires
            self.wf(),
        ensures
            r.wf(),
            r.file() == self.reader_file(),
            r.psz() == self.reader_page_size(),
            r.position() == self.reader_position(),
    {
        self.reader
    }
}

} // verus!
