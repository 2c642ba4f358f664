use rust_minecraft_networking::builder::PacketConstructor;
use rust_minecraft_networking::packet::{finish_inflated, PacketUtils};
use rust_minecraft_networking::varint::{ByteReader, CodecError, VarInt};
use std::io::Read;

fn inflate(body: &[u8]) -> Option<Vec<u8>> {
    let mut out: Vec<u8> = Vec::new();
    match compress::zlib::Decoder::new(std::io::Cursor::new(body.to_vec())).read_to_end(&mut out) {
        Ok(_) => Some(out),
        Err(_) => None,
    }
}

fn read_compressed_packet(reader: &mut ByteReader) -> Result<(usize, Vec<u8>), CodecError> {
    let (declared, body) = PacketUtils::read_compressed_frame(reader)?;
    let inflated = if declared == 0 { None } else { inflate(&body) };
    PacketUtils::finish_compressed(declared, body, inflated)
}

#[test]
fn test1() {
    let packetc = PacketUtils::write_compressed_packet(0x01, vec![87; 9521], 256).unwrap();
    let mut packetcreader = ByteReader::new(packetc.clone());
    let packetd = read_compressed_packet(&mut packetcreader).unwrap();
    assert_eq!(packetd, (0x01, vec![87u8; 9521]));
}

#[test]
fn test2() {
    let packetc = VarInt::write_to_bytes(37);
    let mut packetcreader = ByteReader::new(packetc.clone());
    let out = VarInt::read_from_reader(&mut packetcreader).unwrap();
    assert_eq!(out, 37);
}

#[test]
fn varint_round_trip_representative_values() {
    for v in [0i32, 1, 127, 128, 255, 256, 2_097_151, 2_147_483_647, -1] {
        let bytes = VarInt::write_to_bytes(v);
        assert_eq!(VarInt::read_from_bytes(bytes.clone()), Ok(v));
        let mut r = ByteReader::new(bytes);
        assert_eq!(VarInt::read_from_reader(&mut r), Ok(v));
        assert_eq!(r.remaining(), 0);
    }
}

#[test]
fn varint_exact_encodings() {
    assert_eq!(VarInt::write_to_bytes(0), vec![0x00]);
    assert_eq!(VarInt::write_to_bytes(127), vec![0x7f]);
    assert_eq!(VarInt::write_to_bytes(128), vec![0x80, 0x01]);
    assert_eq!(VarInt::write_to_bytes(255), vec![0xff, 0x01]);
    assert_eq!(VarInt::write_to_bytes(300), vec![0xac, 0x02]);
    assert_eq!(VarInt::write_to_bytes(2_097_151), vec![0xff, 0xff, 0x7f]);
    assert_eq!(VarInt::write_to_bytes(-1), vec![0xff, 0xff, 0xff, 0xff, 0x0f]);
}

#[test]
fn varint_minimal_lengths() {
    assert_eq!(VarInt::write_to_bytes(127).len(), 1);
    assert_eq!(VarInt::write_to_bytes(128).len(), 2);
    assert_eq!(VarInt::write_to_bytes(16_383).len(), 2);
    assert_eq!(VarInt::write_to_bytes(16_384).len(), 3);
    assert_eq!(VarInt::write_to_bytes(2_147_483_647).len(), 5);
}

#[test]
fn varint_too_long_is_malformed() {
    assert_eq!(VarInt::read_from_bytes(vec![0x80; 6]), Err(CodecError::MalformedVarInt));
    assert_eq!(VarInt::read_from_bytes(vec![0xff, 0xff, 0xff, 0xff, 0xff, 0x01]), Err(CodecError::MalformedVarInt));
}

#[test]
fn varint_short_input_is_truncated() {
    assert_eq!(VarInt::read_from_bytes(vec![]), Err(CodecError::TruncatedInput));
    assert_eq!(VarInt::read_from_bytes(vec![0x80, 0x80]), Err(CodecError::TruncatedInput));
    let mut r = ByteReader::new(vec![0xff]);
    assert_eq!(VarInt::read_from_reader(&mut r), Err(CodecError::TruncatedInput));
}

#[test]
fn varint_stops_at_terminating_byte() {
    let mut r = ByteReader::new(vec![0xac, 0x02, 0x07]);
    assert_eq!(VarInt::read_from_reader(&mut r), Ok(300));
    assert_eq!(r.remaining(), 1);
}

#[test]
fn frame_round_trip_sizes() {
    for size in [0usize, 1, 9521] {
        let payload: Vec<u8> = (0..size).map(|i| (i % 251) as u8).collect();
        let frame = PacketUtils::write_packet(0x01, payload.clone());
        let mut r = ByteReader::new(frame);
        let block = PacketUtils::read_varint_prefixed_bytearray(&mut r).unwrap();
        let mut expected = VarInt::write_to_bytes(1);
        expected.extend_from_slice(&payload);
        assert_eq!(block, expected);
        assert_eq!(r.remaining(), 0);
    }
}

#[test]
fn frame_exact_bytes() {
    assert_eq!(PacketUtils::write_packet(0x01, vec![9, 8]), vec![3, 1, 9, 8]);
    assert_eq!(PacketUtils::write_packet_lengthless(300, vec![7]), vec![0xac, 0x02, 7]);
}

#[test]
fn prefixed_read_short_block_is_truncated() {
    let mut r = ByteReader::new(vec![5, 1, 2]);
    assert_eq!(PacketUtils::read_varint_prefixed_bytearray(&mut r), Err(CodecError::TruncatedInput));
}

#[test]
fn string_has_byte_count_prefix() {
    assert_eq!(PacketUtils::write_string("hi".to_string()), vec![2, b'h', b'i']);
    assert_eq!(PacketUtils::write_string("é".to_string()), vec![2, 0xc3, 0xa9]);
}

#[test]
fn large_payload_is_compressed_and_recovered() {
    let payload = vec![87u8; 9521];
    let frame = PacketUtils::write_compressed_packet(0x01, payload.clone(), 256).unwrap();
    assert!(frame.len() < 9521);
    let mut r = ByteReader::new(frame);
    let block = PacketUtils::read_varint_prefixed_bytearray(&mut r).unwrap();
    let declared = VarInt::read_from_bytes(block).unwrap();
    assert_eq!(declared, 9522);
    let frame = PacketUtils::write_compressed_packet(0x01, payload.clone(), 256).unwrap();
    let mut r = ByteReader::new(frame);
    assert_eq!(read_compressed_packet(&mut r), Ok((1, payload)));
}

#[test]
fn small_payload_is_stored_uncompressed() {
    let payload = vec![1u8, 2, 3];
    let frame = PacketUtils::write_compressed_packet(0x02, payload.clone(), 256).unwrap();
    assert_eq!(frame, vec![5, 0, 2, 1, 2, 3]);
    let mut r = ByteReader::new(frame);
    assert_eq!(read_compressed_packet(&mut r), Ok((2, payload)));
}

#[test]
fn payload_at_threshold_is_compressed() {
    let payload = vec![0u8; 9];
    let frame = PacketUtils::write_compressed_packet(0x01, payload.clone(), 10).unwrap();
    assert_eq!(frame[1], 10);
    let mut r = ByteReader::new(frame);
    assert_eq!(read_compressed_packet(&mut r), Ok((1, payload)));
}

#[test]
fn negative_threshold_disables_compression() {
    assert_eq!(PacketUtils::write_compressed_packet(1, vec![1, 2, 3], -1), Err(CodecError::CompressionDisabled));
}

#[test]
fn inflated_length_mismatch() {
    assert_eq!(finish_inflated(4, Some(vec![1, 2, 3])), Err(CodecError::DecompressionMismatch));
    assert_eq!(finish_inflated(3, Some(vec![1, 2, 3])), Ok((1, vec![2, 3])));
    assert_eq!(finish_inflated(3, None), Err(CodecError::UnderlyingIoError));
}

#[test]
fn invalid_zlib_body_fails() {
    let (declared, body) = PacketUtils::split_compressed_block(vec![3, 0xde, 0xad, 0xbe]).unwrap();
    assert_eq!((declared, body.clone()), (3, vec![0xde, 0xad, 0xbe]));
    let inflated = inflate(&body);
    assert_eq!(inflated, None);
    assert_eq!(PacketUtils::finish_compressed(declared, body, inflated), Err(CodecError::UnderlyingIoError));
}

#[test]
fn uncompressed_body_is_split_directly() {
    assert_eq!(PacketUtils::finish_compressed(0, vec![7, 1, 2], None), Ok((7, vec![1, 2])));
}

#[test]
fn compressed_frame_leaves_following_bytes() {
    let mut bytes = PacketUtils::write_compressed_packet(3, vec![4u8; 600], 256).unwrap();
    bytes.extend_from_slice(&[0xaa, 0xbb]);
    let mut r = ByteReader::new(bytes);
    assert_eq!(read_compressed_packet(&mut r), Ok((3, vec![4u8; 600])));
    assert_eq!(r.read_to_end(), vec![0xaa, 0xbb]);
}

#[test]
fn compressed_body_inflates_to_inner_block() {
    let frame = PacketUtils::write_compressed_packet(1, vec![87u8; 9521], 256).unwrap();
    let mut r = ByteReader::new(frame);
    let (declared, body) = PacketUtils::read_compressed_frame(&mut r).unwrap();
    assert_eq!(declared, 9522);
    let mut inner = vec![1u8];
    inner.extend_from_slice(&vec![87u8; 9521]);
    assert_eq!(inflate(&body), Some(inner));
    assert_eq!(r.remaining(), 0);
}

#[test]
fn malformed_varint_leaves_reader_unchanged() {
    let mut r = ByteReader::new(vec![0x80; 6]);
    assert_eq!(VarInt::read_from_reader(&mut r), Err(CodecError::MalformedVarInt));
    assert_eq!(r.remaining(), 6);
}

#[test]
fn varint_needs_more_bytes() {
    assert!(VarInt::needs_more(&vec![]));
    assert!(VarInt::needs_more(&vec![0x80, 0x81]));
    assert!(!VarInt::needs_more(&vec![0x80, 0x01]));
    assert!(!VarInt::needs_more(&vec![0x80; 5]));
}

#[test]
fn builder_golden_bytes() {
    let mut b = PacketConstructor::new();
    b.insert_string("hi");
    b.insert_varint(300);
    assert_eq!(b.build(5), vec![6, 5, 2, b'h', b'i', 0xac, 0x02]);
}

#[test]
fn builder_fixed_width_elements() {
    let mut b = PacketConstructor::new();
    b.insert_unsigned_byte(0xfe);
    b.insert_byte(-2);
    b.insert_short(-2);
    b.insert_unsigned_short(0x1234);
    b.insert_int(-2);
    b.insert_long(0x0102030405060708);
    b.insert_bool(true);
    b.insert_bool(false);
    b.insert_float(1.5f32.to_bits());
    b.insert_double(1.5f64.to_bits());
    b.insert_bytearray(vec![9, 9]);
    let out = b.build(0);
    let mut expected: Vec<u8> = vec![0];
    expected.extend_from_slice(&[0xfe, 0xfe, 0xff, 0xfe, 0x12, 0x34, 0xff, 0xff, 0xff, 0xfe]);
    expected.extend_from_slice(&[1, 2, 3, 4, 5, 6, 7, 8, 1, 0]);
    expected.extend_from_slice(&1.5f32.to_be_bytes());
    expected.extend_from_slice(&1.5f64.to_be_bytes());
    expected.extend_from_slice(&[2, 9, 9]);
    let mut framed = vec![expected.len() as u8];
    framed.extend_from_slice(&expected);
    assert_eq!(out, framed);
}

#[test]
fn builder_long_negative() {
    let mut b = PacketConstructor::new();
    b.insert_long(-1);
    assert_eq!(b.build(1), vec![9, 1, 0xff, 0xff, 0xff, 0xff, 0xff, 0xff, 0xff, 0xff]);
}
