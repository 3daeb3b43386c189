//! The wire codec: envelope serialization, compression, framing, and their
//! round trips.

use lan_chat::message::{
    decode, encode, frame, parse_msg, serialize_msg, strip_header, DecodeError, Message,
    MessageHeader,
};
use std::io::Write;

fn header(name: &str, uid: u32, mid: u32, ts: u64) -> MessageHeader {
    MessageHeader::new(name.to_string(), uid, mid, ts)
}

fn round_trip(m: &Message) -> Message {
    let framed = m.to_network();
    let stripped = strip_header(&framed).expect("a framed message must strip");
    decode(&stripped).expect("a framed message must decode")
}

#[test]
fn framing_round_trip_all_variants() {
    let msgs = vec![
        Message::Broadcast(0),
        Message::Broadcast(u32::MAX),
        Message::Ack(7, 9),
        Message::Hello(header("ada", 1, 2, 3), vec![1, 2, 3]),
        Message::Text(header("", 10, 20, 30), vec![]),
        Message::Image(header("caf\u{e9} \u{1F600}", 4, 5, 6), vec![0xff, 0, 0xff]),
        Message::Goodbye(header("bye", 8, 9, 10), vec![42]),
        Message::Dropped(header("gone", 11, 12, 13), vec![9, 9]),
    ];
    for m in &msgs {
        assert_eq!(&round_trip(m), m);
    }
}

#[test]
fn from_network_inverts_to_network() {
    let m = Message::Text(header("pat", 77, 88, 99), b"hello there".to_vec());
    let wire = m.to_network();
    assert_eq!(Message::from_network(&wire).unwrap(), m);
}

#[test]
fn frame_prefix_is_little_endian_payload_length() {
    let m = Message::Ack(1, 2);
    let compressed = encode(&m);
    let framed = frame(&compressed);
    assert_eq!(framed.len(), compressed.len() + 8);
    let mut prefix = [0u8; 8];
    prefix.copy_from_slice(&framed[0..8]);
    assert_eq!(u64::from_le_bytes(prefix), compressed.len() as u64);
    assert_eq!(&framed[8..], &compressed[..]);
}

#[test]
fn strip_header_rejects_short_and_inconsistent_frames() {
    assert!(strip_header(&[]).is_none());
    assert!(strip_header(&[1, 2, 3]).is_none());
    // declares 5 payload bytes but carries 2
    let mut framed = 5u64.to_le_bytes().to_vec();
    framed.extend_from_slice(&[1, 2]);
    assert!(strip_header(&framed).is_none());
    // declares 2 and carries 2
    let mut framed = 2u64.to_le_bytes().to_vec();
    framed.extend_from_slice(&[1, 2]);
    assert_eq!(strip_header(&framed).unwrap(), vec![1, 2]);
}

#[test]
fn decode_rejects_garbage_compression() {
    assert_eq!(decode(&[1, 2, 3, 4]).unwrap_err(), DecodeError::BadCompression);
}

#[test]
fn decode_rejects_well_compressed_garbage() {
    let mut enc = flate2::write::DeflateEncoder::new(Vec::new(), flate2::Compression::default());
    enc.write_all(&[200, 201, 202]).unwrap();
    let bytes = enc.finish().unwrap();
    assert_eq!(decode(&bytes).unwrap_err(), DecodeError::Malformed);
}

#[test]
fn from_network_rejects_bad_frames() {
    assert_eq!(Message::from_network(&[0, 1]).unwrap_err(), DecodeError::BadFrame);
}

#[test]
fn compression_shrinks_repetitive_payloads() {
    let m = Message::Text(header("rep", 1, 2, 3), vec![7u8; 10000]);
    let compressed = encode(&m);
    assert!(compressed.len() < 2000);
    assert_eq!(round_trip(&m), m);
}

#[test]
fn envelope_parses_back_exactly() {
    let m = Message::Hello(header("zo\u{eb}", 5, 6, 7), vec![0, 1, 2, 3]);
    let envelope = serialize_msg(&m);
    assert_eq!(parse_msg(&envelope).unwrap(), m);
}

#[test]
fn envelope_rejects_malformed_bytes() {
    assert!(parse_msg(&[]).is_none());
    // unknown tag
    assert!(parse_msg(&[200, 0, 0, 0, 0]).is_none());
    // a broadcast envelope with a trailing byte
    let mut envelope = serialize_msg(&Message::Broadcast(9));
    envelope.push(0);
    assert!(parse_msg(&envelope).is_none());
    // a truncated acknowledgment
    let envelope = serialize_msg(&Message::Ack(1, 2));
    assert!(parse_msg(&envelope[..envelope.len() - 1]).is_none());
}

#[test]
fn envelope_names_survive_multibyte_boundaries() {
    // a name whose UTF-8 form is longer than its character count
    let m = Message::Goodbye(header("\u{4f60}\u{597d}", 1, 2, 3), vec![]);
    assert_eq!(round_trip(&m), m);
}
