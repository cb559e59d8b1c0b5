use e57::bits::u32_to_le_vec;
use e57::crc::crc32_range;
use e57::BitPack;
use e57::ByteStreamReadBuffer;
use e57::Error;
use e57::InvalidFileKind;
use e57::PagedReader;
use e57::PointCloud;
use e57::PointCloudReaderRaw;
use e57::Record;
use e57::RecordDataType;
use e57::RecordName;
use e57::RecordValue;
use e57::UnimplementedKind;
use std::collections::VecDeque;

/// Splits a logical byte stream into pages of `page_size` bytes, each a
/// zero-padded payload followed by the little-endian CRC-32C of the payload.
fn paginate(logical: &[u8], page_size: usize) -> Vec<u8> {
    let payload = page_size - 4;
    let npages = if logical.is_empty() { 0 } else { (logical.len() + payload - 1) / payload };
    let mut out = Vec::new();
    for p in 0..npages {
        let lo = p * payload;
        let hi = std::cmp::min(lo + payload, logical.len());
        let mut chunk = logical[lo..hi].to_vec();
        chunk.resize(payload, 0u8);
        let crc = crc32_range(&chunk, 0, payload);
        out.extend_from_slice(&chunk);
        out.extend_from_slice(&crc.to_le_bytes());
    }
    out
}

/// A compressed-vector section header at logical offset 0 whose packet data
/// begins at physical offset 32 (inside the first page for the page sizes
/// used here).
fn section_header(section_length: u64, data_offset: u64) -> Vec<u8> {
    let mut out = vec![1u8, 0, 0, 0, 0, 0, 0, 0];
    out.extend_from_slice(&section_length.to_le_bytes());
    out.extend_from_slice(&data_offset.to_le_bytes());
    out.extend_from_slice(&0u64.to_le_bytes());
    out
}

/// A data packet for the given per-stream payload runs, padded to the next
/// 4-byte boundary.
fn data_packet(streams: &[Vec<u8>]) -> Vec<u8> {
    data_packet_with_count(streams, streams.len() as u16)
}

fn data_packet_with_count(streams: &[Vec<u8>], count: u16) -> Vec<u8> {
    let mut body: Vec<u8> = vec![1u8, 0u8];
    let total: usize = 6 + 2 * streams.len() + streams.iter().map(|s| s.len()).sum::<usize>();
    let padded = (total + 3) / 4 * 4;
    body.extend_from_slice(&(padded as u16).to_le_bytes());
    body.extend_from_slice(&count.to_le_bytes());
    for s in streams {
        body.extend_from_slice(&(s.len() as u16).to_le_bytes());
    }
    for s in streams {
        body.extend_from_slice(s);
    }
    body.resize(padded, 0u8);
    body
}

/// Bit-packs `(value, bits)` pairs least-significant-bit first.
fn pack_bits(values: &[(u64, u32)]) -> Vec<u8> {
    let mut out = Vec::new();
    let mut acc: u128 = 0;
    let mut nbits: u32 = 0;
    for &(v, b) in values {
        acc |= (v as u128) << nbits;
        nbits += b;
        while nbits >= 8 {
            out.push(acc as u8);
            acc >>= 8;
            nbits -= 8;
        }
    }
    if nbits > 0 {
        out.push(acc as u8);
    }
    out
}

fn descriptor(records: u64, prototype: Vec<Record>) -> PointCloud {
    PointCloud {
        guid: String::from("{49aa8f8b-618f-423e-a632-f9a58ad79e40}"),
        name: Some(String::from("synthesized")),
        records,
        file_offset: 0,
        prototype,
    }
}

fn int_field(name: RecordName, min: i64, max: i64) -> Record {
    Record { name, data_type: RecordDataType::Integer { min, max } }
}

/// Builds a whole file image: section header at physical 0, the given
/// packets from physical 32 on, paginated with the given page size.
fn build_file(packets: &[Vec<u8>], page_size: usize) -> Vec<u8> {
    let mut logical = section_header(0, 32);
    for p in packets {
        logical.extend_from_slice(p);
    }
    paginate(&logical, page_size)
}

#[test]
fn crc_known_vector() {
    // Standard CRC-32C check value for the nine ASCII digits.
    let data: Vec<u8> = b"123456789".to_vec();
    assert_eq!(crc32_range(&data, 0, 9), 0xE3069283);
}

#[test]
fn paged_reader_crosses_pages() {
    let logical: Vec<u8> = (0u8..36).collect();
    let image = paginate(&logical, 16);
    assert_eq!(image.len(), 48);
    let mut reader = PagedReader::new(image, 16).unwrap();
    let bytes = reader.read_exact(24).unwrap();
    assert_eq!(bytes, (0u8..24).collect::<Vec<u8>>());
    assert_eq!(reader.logical_position(), 24);
    // Physical offset 17 is payload byte 1 of page 1; each page carries 12
    // payload bytes, so it maps to logical byte 13.
    reader.seek_physical(17).unwrap();
    let bytes = reader.read_exact(2).unwrap();
    assert_eq!(bytes, vec![13u8, 14u8]);
}

#[test]
fn seek_rejects_crc_offsets() {
    let logical: Vec<u8> = (0u8..24).collect();
    let image = paginate(&logical, 16);
    let mut reader = PagedReader::new(image, 16).unwrap();
    // Bytes 12..16 of each 16-byte page are the CRC trailer.
    assert_eq!(reader.seek_physical(12), Err(Error::InvalidArgument));
    assert_eq!(reader.seek_physical(15), Err(Error::InvalidArgument));
    assert!(reader.seek_physical(11).is_ok());
    assert_eq!(reader.seek_physical(9999), Err(Error::Io));
}

#[test]
fn reader_rejects_bad_geometry() {
    assert!(matches!(PagedReader::new(vec![0u8; 16], 6), Err(Error::InvalidArgument)));
    assert!(matches!(
        PagedReader::new(vec![0u8; 17], 16),
        Err(Error::InvalidFile(InvalidFileKind::TruncatedFile))
    ));
}

#[test]
fn validate_crc() {
    let logical: Vec<u8> = (0u8..24).collect();
    let image = paginate(&logical, 16);
    let reader = PagedReader::new(image.clone(), 16).unwrap();
    assert!(reader.validate_crc().is_ok());
    // Flipping any single byte of the image must be detected.
    for i in 0..image.len() {
        let mut corrupt = image.clone();
        corrupt[i] ^= 0x40;
        let reader = PagedReader::new(corrupt, 16).unwrap();
        assert_eq!(
            reader.validate_crc(),
            Err(Error::InvalidFile(InvalidFileKind::CrcMismatch)),
            "corruption at byte {} went undetected",
            i
        );
    }
}

#[test]
fn read_detects_corruption() {
    let logical: Vec<u8> = (0u8..24).collect();
    let mut image = paginate(&logical, 16);
    image[13] ^= 0xFF; // inside page 0's CRC trailer
    let mut reader = PagedReader::new(image, 16).unwrap();
    assert_eq!(reader.read_exact(4), Err(Error::InvalidFile(InvalidFileKind::CrcMismatch)));
}

#[test]
fn byte_stream_bit_order() {
    let mut bs = ByteStreamReadBuffer::new();
    bs.append(&vec![0b1010_0110u8, 0b0000_0001u8]).unwrap();
    assert_eq!(bs.available_bits(), 16);
    // Least significant bits first: 0,1,1,0 then 0,1,0,1 ...
    assert_eq!(bs.consume_bits(1), 0);
    assert_eq!(bs.consume_bits(2), 0b11);
    assert_eq!(bs.consume_bits(5), 0b10100);
    // Next byte continues at its least significant bit.
    assert_eq!(bs.consume_bits(8), 1);
    assert_eq!(bs.available_bits(), 0);
}

#[test]
fn byte_stream_alignment_guard() {
    let mut bs = ByteStreamReadBuffer::new();
    bs.append(&vec![1u8, 2, 3, 4, 5]).unwrap();
    bs.consume_bits(3);
    assert_eq!(bs.consume_bytes(1), Err(Error::Internal));
    bs.consume_bits(5);
    assert_eq!(bs.consume_bytes(2), Ok(vec![2u8, 3u8]));
    assert_eq!(bs.consume_bytes(3), Err(Error::Io));
}

#[test]
fn unpack_ints_exact_values() {
    // Range -10..=20 needs 5 bits; decoded value is min + raw.
    let mut bs = ByteStreamReadBuffer::new();
    bs.append(&pack_bits(&[(0, 5), (30, 5), (7, 5)])).unwrap();
    let mut q: VecDeque<RecordValue> = VecDeque::new();
    BitPack::unpack_ints(&mut bs, -10, 20, &mut q).unwrap();
    assert_eq!(
        q.iter().copied().collect::<Vec<_>>(),
        vec![RecordValue::Integer(-10), RecordValue::Integer(20), RecordValue::Integer(-3)]
    );
    // One bit of residue (16 bits appended, 15 consumed).
    assert_eq!(bs.available_bits(), 1);
}

#[test]
fn unpack_ints_rejects_out_of_range() {
    // Range 0..=5 needs 3 bits, so raw 7 is representable but out of range.
    let mut bs = ByteStreamReadBuffer::new();
    bs.append(&pack_bits(&[(7, 3)])).unwrap();
    let mut q: VecDeque<RecordValue> = VecDeque::new();
    assert_eq!(
        BitPack::unpack_ints(&mut bs, 0, 5, &mut q),
        Err(Error::InvalidFile(InvalidFileKind::ValueOutOfRange))
    );
}

#[test]
fn unpack_ints_rejects_bad_ranges() {
    let mut bs = ByteStreamReadBuffer::new();
    let mut q: VecDeque<RecordValue> = VecDeque::new();
    assert_eq!(
        BitPack::unpack_ints(&mut bs, 5, 1, &mut q),
        Err(Error::InvalidFile(InvalidFileKind::InvertedRange))
    );
    assert_eq!(
        BitPack::unpack_ints(&mut bs, i64::MIN, i64::MAX, &mut q),
        Err(Error::InvalidFile(InvalidFileKind::RangeTooLarge))
    );
}

#[test]
fn unpack_scaled_ints_keep_raw() {
    let mut bs = ByteStreamReadBuffer::new();
    bs.append(&pack_bits(&[(3, 4), (15, 4)])).unwrap();
    let mut q: VecDeque<RecordValue> = VecDeque::new();
    BitPack::unpack_scaled_ints(&mut bs, -2, 13, &mut q).unwrap();
    assert_eq!(
        q.iter().copied().collect::<Vec<_>>(),
        vec![RecordValue::ScaledInteger(1), RecordValue::ScaledInteger(13)]
    );
}

#[test]
fn unpack_singles_round_trip() {
    let sources = [1.5f32, -0.25f32, 3.14159f32];
    let mut bytes = Vec::new();
    for v in sources {
        bytes.extend_from_slice(&v.to_le_bytes());
    }
    let mut bs = ByteStreamReadBuffer::new();
    bs.append(&bytes).unwrap();
    let mut q: VecDeque<RecordValue> = VecDeque::new();
    BitPack::unpack_singles(&mut bs, &mut q).unwrap();
    assert_eq!(q.len(), 3);
    for (i, v) in sources.iter().enumerate() {
        match q[i] {
            RecordValue::Single(bits) => {
                // Re-serializing the emitted pattern reproduces the source.
                assert_eq!(u32_to_le_vec(bits), v.to_le_bytes().to_vec());
                assert_eq!(f32::from_bits(bits), *v);
            },
            _ => panic!("wrong variant"),
        }
    }
}

#[test]
fn unpack_doubles_round_trip() {
    let sources = [2.25f64, -1234.5678f64];
    let mut bytes = Vec::new();
    for v in sources {
        bytes.extend_from_slice(&v.to_le_bytes());
    }
    let mut bs = ByteStreamReadBuffer::new();
    bs.append(&bytes).unwrap();
    let mut q: VecDeque<RecordValue> = VecDeque::new();
    BitPack::unpack_doubles(&mut bs, &mut q).unwrap();
    assert_eq!(q.len(), 2);
    for (i, v) in sources.iter().enumerate() {
        match q[i] {
            RecordValue::Double(bits) => {
                assert_eq!(bits.to_le_bytes(), v.to_le_bytes());
                assert_eq!(f64::from_bits(bits), *v);
            },
            _ => panic!("wrong variant"),
        }
    }
}

fn xyz_double_prototype() -> Vec<Record> {
    vec![
        Record {
            name: RecordName::CartesianX,
            data_type: RecordDataType::Double { min: None, max: None },
        },
        Record {
            name: RecordName::CartesianY,
            data_type: RecordDataType::Double { min: None, max: None },
        },
        Record {
            name: RecordName::CartesianZ,
            data_type: RecordDataType::Double { min: None, max: None },
        },
        int_field(RecordName::CartesianInvalidState, 0, 1),
    ]
}

fn xyz_double_file(points: &[[f64; 3]], states: &[u64]) -> Vec<u8> {
    let mut xs = Vec::new();
    let mut ys = Vec::new();
    let mut zs = Vec::new();
    for p in points {
        xs.extend_from_slice(&p[0].to_le_bytes());
        ys.extend_from_slice(&p[1].to_le_bytes());
        zs.extend_from_slice(&p[2].to_le_bytes());
    }
    let st = pack_bits(&states.iter().map(|&s| (s, 1)).collect::<Vec<_>>());
    build_file(&[data_packet(&[xs, ys, zs, st])], 1024)
}

#[test]
fn raw_iterator() {
    let points = [[1.0f64, 2.0, 3.0], [-4.5, 5.5, -6.5], [0.0, -0.0, 9.25]];
    let states = [1u64, 0, 1];
    let image = xyz_double_file(&points, &states);
    let reader = PagedReader::new(image, 1024).unwrap();
    let pc = descriptor(3, xyz_double_prototype());
    let mut iter = PointCloudReaderRaw::new(pc, reader).unwrap();
    assert_eq!(iter.size_hint(), (3, Some(3)));
    for (i, p) in points.iter().enumerate() {
        let point = iter.next().unwrap().unwrap();
        assert_eq!(point.len(), 4);
        assert_eq!(point[0], RecordValue::Double(p[0].to_bits()));
        assert_eq!(point[1], RecordValue::Double(p[1].to_bits()));
        assert_eq!(point[2], RecordValue::Double(p[2].to_bits()));
        assert_eq!(point[3], RecordValue::Integer(states[i] as i64));
        assert_eq!(iter.size_hint(), (3 - i as u64 - 1, Some(3 - i as u64 - 1)));
    }
    assert!(iter.next().is_none());
    assert_eq!(iter.size_hint(), (0, Some(0)));
    // After a complete run the logical cursor sits on a 4-byte boundary,
    // and the reader can be taken back for another run.
    assert_eq!(iter.reader_logical_position() % 4, 0);
    let reader = iter.into_reader();
    assert_eq!(reader.logical_position() % 4, 0);
}

fn float_rgb_prototype() -> Vec<Record> {
    vec![
        Record {
            name: RecordName::CartesianX,
            data_type: RecordDataType::Single { min: None, max: None },
        },
        Record {
            name: RecordName::CartesianY,
            data_type: RecordDataType::Single { min: None, max: None },
        },
        Record {
            name: RecordName::CartesianZ,
            data_type: RecordDataType::Single { min: None, max: None },
        },
        int_field(RecordName::ColorRed, 0, 255),
        int_field(RecordName::ColorGreen, 0, 255),
        int_field(RecordName::ColorBlue, 0, 255),
    ]
}

#[test]
fn color_limits() {
    let coords = [[295.0f32, 296.5, 297.25], [296.0, 297.0, 298.0]];
    let rgb = [[0u64, 128, 255], [17, 0, 255]];
    let mut streams: Vec<Vec<u8>> = vec![Vec::new(); 3];
    for p in &coords {
        for i in 0..3 {
            streams[i].extend_from_slice(&p[i].to_le_bytes());
        }
    }
    for c in 0..3 {
        streams.push(pack_bits(&rgb.iter().map(|p| (p[c], 8)).collect::<Vec<_>>()));
    }
    let image = build_file(&[data_packet(&streams)], 1024);
    let reader = PagedReader::new(image, 1024).unwrap();
    let pc = descriptor(2, float_rgb_prototype());
    let mut iter = PointCloudReaderRaw::new(pc, reader).unwrap();
    let mut count = 0;
    while let Some(item) = iter.next() {
        let point = item.unwrap();
        assert_eq!(point.len(), 6);
        for i in 0..3 {
            assert_eq!(point[i], RecordValue::Single(coords[count][i].to_bits()));
        }
        for c in 0..3 {
            match point[3 + c] {
                RecordValue::Integer(v) => {
                    assert!(0 <= v && v <= 255);
                    assert_eq!(v, rgb[count][c] as i64);
                },
                _ => panic!("wrong variant"),
            }
        }
        count += 1;
    }
    assert_eq!(count, 2);
}

#[test]
fn multiple_packets() {
    // The same cloud split across two data packets; queues drain between.
    let pts1 = [[1.0f64, 1.5, 2.0]];
    let pts2 = [[7.0f64, 8.0, 9.0], [10.0, 11.0, 12.0]];
    let mut packets = Vec::new();
    for pts in [&pts1[..], &pts2[..]] {
        let mut xs = Vec::new();
        let mut ys = Vec::new();
        let mut zs = Vec::new();
        for p in pts {
            xs.extend_from_slice(&p[0].to_le_bytes());
            ys.extend_from_slice(&p[1].to_le_bytes());
            zs.extend_from_slice(&p[2].to_le_bytes());
        }
        let st = pack_bits(&pts.iter().map(|_| (0u64, 1)).collect::<Vec<_>>());
        packets.push(data_packet(&[xs, ys, zs, st]));
    }
    let image = build_file(&packets, 64);
    let reader = PagedReader::new(image, 64).unwrap();
    let pc = descriptor(3, xyz_double_prototype());
    let mut iter = PointCloudReaderRaw::new(pc, reader).unwrap();
    let mut xs_seen = Vec::new();
    while let Some(item) = iter.next() {
        let point = item.unwrap();
        match point[0] {
            RecordValue::Double(bits) => xs_seen.push(f64::from_bits(bits)),
            _ => panic!("wrong variant"),
        }
    }
    assert_eq!(xs_seen, vec![1.0, 7.0, 10.0]);
}

#[test]
fn prototype_mismatch() {
    let image = build_file(&[data_packet_with_count(&[vec![0u8], vec![0u8]], 2)], 1024);
    let reader = PagedReader::new(image, 1024).unwrap();
    let pc = descriptor(4, vec![int_field(RecordName::Intensity, 0, 7)]);
    let mut iter = PointCloudReaderRaw::new(pc, reader).unwrap();
    assert_eq!(
        iter.next(),
        Some(Err(Error::InvalidFile(InvalidFileKind::PrototypeMismatch)))
    );
    // The error poisons the iterator; further calls yield end-of-stream.
    assert_eq!(iter.next(), None);
}

#[test]
fn index_and_ignored_packets() {
    for (type_byte, kind) in [
        (0u8, UnimplementedKind::IndexPacket),
        (2u8, UnimplementedKind::IgnoredPacket),
    ] {
        let packet = vec![type_byte, 0, 0, 0];
        let image = build_file(&[packet], 1024);
        let reader = PagedReader::new(image, 1024).unwrap();
        let pc = descriptor(1, vec![int_field(RecordName::Intensity, 0, 7)]);
        let mut iter = PointCloudReaderRaw::new(pc, reader).unwrap();
        assert_eq!(iter.next(), Some(Err(Error::Unimplemented(kind))));
        assert_eq!(iter.next(), None);
    }
}

#[test]
fn premature_end_is_end_of_stream() {
    // Three records of data while the descriptor declares five: the
    // iterator ends early instead of failing.  A trailing data packet with
    // an empty stream stands in for a section whose packets are exhausted.
    let st = pack_bits(&[(1, 8), (2, 8), (3, 8)]);
    let image = build_file(&[data_packet(&[st]), data_packet(&[Vec::new()])], 1024);
    let reader = PagedReader::new(image, 1024).unwrap();
    let pc = descriptor(5, vec![int_field(RecordName::Intensity, 0, 255)]);
    let mut iter = PointCloudReaderRaw::new(pc, reader).unwrap();
    assert_eq!(iter.next(), Some(Ok(vec![RecordValue::Integer(1)])));
    assert_eq!(iter.next(), Some(Ok(vec![RecordValue::Integer(2)])));
    assert_eq!(iter.next(), Some(Ok(vec![RecordValue::Integer(3)])));
    assert_eq!(iter.next(), None);
    assert_eq!(iter.size_hint(), (2, Some(2)));
}

#[test]
fn premature_end_without_trailing_packet() {
    // Five records declared but only three encoded and no further packet:
    // the failed ingestion surfaces as an error item (here the zero page
    // padding reads as an index packet), then the iterator ends.
    let st = pack_bits(&[(1, 8), (2, 8), (3, 8)]);
    let image = build_file(&[data_packet(&[st])], 1024);
    let reader = PagedReader::new(image, 1024).unwrap();
    let pc = descriptor(5, vec![int_field(RecordName::Intensity, 0, 255)]);
    let mut iter = PointCloudReaderRaw::new(pc, reader).unwrap();
    for v in 1..=3i64 {
        assert_eq!(iter.next(), Some(Ok(vec![RecordValue::Integer(v)])));
    }
    assert_eq!(
        iter.next(),
        Some(Err(Error::Unimplemented(UnimplementedKind::IndexPacket)))
    );
    assert_eq!(iter.next(), None);
}

#[test]
fn bit_values_straddle_packets() {
    // A 3-bit field whose fifth value's bits are split across two packets:
    // two bits of residue stay buffered after the first packet and join the
    // second packet's byte.
    let first = pack_bits(&[(1, 3), (2, 3), (5 & 3, 2)]);
    let second = pack_bits(&[(5 >> 2, 1), (6, 3), (7, 3), (0, 1)]);
    assert_eq!(first.len(), 1);
    assert_eq!(second.len(), 1);
    let image = build_file(&[data_packet(&[first]), data_packet(&[second])], 1024);
    let reader = PagedReader::new(image, 1024).unwrap();
    let pc = descriptor(5, vec![int_field(RecordName::Intensity, 0, 7)]);
    let mut iter = PointCloudReaderRaw::new(pc, reader).unwrap();
    for v in [1i64, 2, 5, 6, 7] {
        assert_eq!(iter.next(), Some(Ok(vec![RecordValue::Integer(v)])));
    }
    assert_eq!(iter.next(), None);
}

#[test]
fn zero_records() {
    let image = build_file(&[], 1024);
    let reader = PagedReader::new(image, 1024).unwrap();
    let pc = descriptor(0, vec![int_field(RecordName::Intensity, 0, 7)]);
    let mut iter = PointCloudReaderRaw::new(pc, reader).unwrap();
    assert_eq!(iter.next(), None);
    assert_eq!(iter.size_hint(), (0, Some(0)));
}

#[test]
fn constant_column_synthesized() {
    // A field with min == max contributes no bits; its constant is
    // synthesized when the point is assembled.
    let st = pack_bits(&[(2, 2), (3, 2)]);
    let image = build_file(&[data_packet(&[Vec::new(), st])], 1024);
    let reader = PagedReader::new(image, 1024).unwrap();
    let pc = descriptor(
        2,
        vec![
            int_field(RecordName::ReturnCount, 5, 5),
            int_field(RecordName::Intensity, 0, 3),
        ],
    );
    let mut iter = PointCloudReaderRaw::new(pc, reader).unwrap();
    assert_eq!(
        iter.next(),
        Some(Ok(vec![RecordValue::Integer(5), RecordValue::Integer(2)]))
    );
    assert_eq!(
        iter.next(),
        Some(Ok(vec![RecordValue::Integer(5), RecordValue::Integer(3)]))
    );
    assert_eq!(iter.next(), None);
}

#[test]
fn scaled_integer_fields_keep_raw() {
    let vals = pack_bits(&[(0, 4), (15, 4)]);
    let image = build_file(&[data_packet(&[vals])], 1024);
    let reader = PagedReader::new(image, 1024).unwrap();
    let pc = descriptor(
        2,
        vec![Record {
            name: RecordName::TimeStamp,
            data_type: RecordDataType::ScaledInteger {
                min: -2,
                max: 13,
                scale: 0.001f64.to_bits(),
                offset: 0.0f64.to_bits(),
            },
        }],
    );
    let mut iter = PointCloudReaderRaw::new(pc, reader).unwrap();
    assert_eq!(iter.next(), Some(Ok(vec![RecordValue::ScaledInteger(-2)])));
    assert_eq!(iter.next(), Some(Ok(vec![RecordValue::ScaledInteger(13)])));
    assert_eq!(iter.next(), None);
}

#[test]
fn corrupt_packet_page_poisons_iterator() {
    let st = pack_bits(&[(1, 3)]);
    let mut image = build_file(&[data_packet(&[st])], 64);
    // Corrupt a payload byte inside the packet region (page 0 payload).
    image[40] ^= 0x10;
    let reader = PagedReader::new(image, 64).unwrap();
    let pc = descriptor(1, vec![int_field(RecordName::Intensity, 0, 7)]);
    match PointCloudReaderRaw::new(pc, reader) {
        // The section header may already be unreadable, or the first
        // next() fails; either way the corruption is fatal.
        Err(e) => assert_eq!(e, Error::InvalidFile(InvalidFileKind::CrcMismatch)),
        Ok(mut iter) => {
            assert_eq!(
                iter.next(),
                Some(Err(Error::InvalidFile(InvalidFileKind::CrcMismatch)))
            );
            assert_eq!(iter.next(), None);
        },
    }
}

#[test]
fn manual_advance_and_pop() {
    let vals = pack_bits(&[(4, 3), (6, 3)]);
    let image = build_file(&[data_packet(&[vals])], 1024);
    let reader = PagedReader::new(image, 1024).unwrap();
    let pc = descriptor(2, vec![int_field(RecordName::Intensity, 0, 7)]);
    let mut r = PointCloudReaderRaw::new(pc, reader).unwrap();
    assert_eq!(r.available_in_queue(), 0);
    r.advance().unwrap();
    assert_eq!(r.available_in_queue(), 2);
    assert_eq!(r.pop_queue_point(), Ok(vec![RecordValue::Integer(4)]));
    assert_eq!(r.available_in_queue(), 1);
    assert_eq!(r.pop_queue_point(), Ok(vec![RecordValue::Integer(6)]));
    assert_eq!(r.available_in_queue(), 0);
    assert_eq!(r.pop_queue_point(), Err(Error::Internal));
}

#[test]
fn pointclouds() {
    // Descriptor carry-through: the boundary fields arrive unchanged.
    let pc = descriptor(2090, float_rgb_prototype());
    assert_eq!(pc.records, 2090);
    assert_eq!(pc.file_offset, 0);
    assert_eq!(pc.prototype.len(), 6);
    assert_eq!(pc.prototype[0].name, RecordName::CartesianX);
    assert_eq!(pc.guid, "{49aa8f8b-618f-423e-a632-f9a58ad79e40}");
    assert_eq!(pc.name.as_deref(), Some("synthesized"));
}

#[test]
fn error_messages_name_their_kind() {
    assert!(Error::InvalidFile(InvalidFileKind::CrcMismatch).message().contains("checksum"));
    assert!(Error::Unimplemented(UnimplementedKind::IndexPacket).message().contains("Index"));
    assert!(Error::Internal.message().len() > 0);
}
