//! Tests for the wire primitives: strings, packed integers, variable-width
//! integers, identifiers, and compressed-section framing.

use brs::bits::{BitCursor, BitSink};
use brs::compress::{read_compressed, write_compressed};
use brs::save::Uuid;
use brs::wire::{put_string, put_uuid, ByteCursor};

fn string_round_trip(s: &str) {
    let mut out: Vec<u8> = Vec::new();
    assert!(put_string(&mut out, s));
    let mut cur = ByteCursor::new(out);
    let got = cur.read_string().expect("string should decode");
    assert_eq!(got.as_str(), s);
}

#[test]
fn ascii_string_round_trip() {
    string_round_trip("");
    string_round_trip("A");
    string_round_trip("PB_DefaultBrick");
    string_round_trip("hello world 1234!@#");
}

#[test]
fn unicode_string_round_trip() {
    string_round_trip("caf\u{e9}");
    string_round_trip("\u{65e5}\u{672c}\u{8a9e}");
    string_round_trip("\u{1F9F1}");
}

#[test]
fn ascii_string_prefix_is_positive() {
    let mut out: Vec<u8> = Vec::new();
    assert!(put_string(&mut out, "abc"));
    assert_eq!(out[0..4], [4, 0, 0, 0]);
    assert_eq!(&out[4..7], b"abc");
    assert_eq!(out[7], 0);
}

#[test]
fn ucs2_description_wire_form() {
    let mut out: Vec<u8> = Vec::new();
    assert!(put_string(&mut out, "\u{65e5}\u{672c}\u{8a9e}"));
    assert_eq!(out[0..4], [0xFD, 0xFF, 0xFF, 0xFF]);
    assert_eq!(out[4..10], [0xE5, 0x65, 0x2C, 0x67, 0x9E, 0x8A]);
    assert_eq!(out[10], 0);
    assert_eq!(out.len(), 11);
}

#[test]
fn uuid_round_trip() {
    let id = Uuid {
        bytes: [
            0x01, 0x23, 0x45, 0x67, 0x89, 0xAB, 0xCD, 0xEF, 0x10, 0x32, 0x54, 0x76, 0x98,
            0xBA, 0xDC, 0xFE,
        ],
    };
    let mut out: Vec<u8> = Vec::new();
    put_uuid(&mut out, &id);
    assert_eq!(out[0..4], [0x67, 0x45, 0x23, 0x01]);
    let mut cur = ByteCursor::new(out);
    let got = cur.read_uuid().expect("uuid should decode");
    assert_eq!(got, id);
}

#[test]
fn uint_packed_round_trip() {
    for &v in &[0u32, 1, 2, 127, 128, 129, 300, 16383, 16384, 1 << 20, u32::MAX] {
        let mut sink = BitSink::new();
        sink.write_uint_packed(v);
        sink.byte_align();
        let bytes = sink.into_bytes();
        let mut cur = BitCursor::new(bytes);
        assert_eq!(cur.read_uint_packed(), Some(v));
    }
}

#[test]
fn int_packed_round_trip() {
    for &v in &[0i32, 1, -1, 63, -64, 1000, -1000, i32::MAX, -i32::MAX] {
        let mut sink = BitSink::new();
        sink.write_int_packed(v);
        sink.byte_align();
        let bytes = sink.into_bytes();
        let mut cur = BitCursor::new(bytes);
        assert_eq!(cur.read_int_packed(), Some(v));
    }
}

#[test]
fn uint_width_round_trip() {
    for &(v, max) in &[(0u32, 2u32), (1, 2), (0, 24), (23, 24), (5, 11), (10, 11), (7, 100),
        (99, 100), (0, u32::MAX), (12345, u32::MAX)] {
        let mut sink = BitSink::new();
        assert!(sink.write_uint(v, max));
        sink.byte_align();
        let bytes = sink.into_bytes();
        let mut cur = BitCursor::new(bytes);
        assert_eq!(cur.read_uint(max), Some(v), "value {} with bound {}", v, max);
    }
}

#[test]
fn uint_rejects_value_at_bound() {
    let mut sink = BitSink::new();
    assert!(!sink.write_uint(24, 24));
    assert!(!sink.write_uint(2, 2));
}

#[test]
fn compression_raw_when_not_smaller() {
    // two bytes of already-dense data cannot shrink under zlib
    let payload: Vec<u8> = vec![0xA7, 0x3C];
    let mut out: Vec<u8> = Vec::new();
    assert!(write_compressed(&mut out, &payload, true));
    assert_eq!(out[0..4], [2, 0, 0, 0]);
    assert_eq!(out[4..8], [0, 0, 0, 0]);
    assert_eq!(&out[8..10], &payload[..]);
}

#[test]
fn compression_deflates_when_smaller() {
    let payload: Vec<u8> = vec![0u8; 4096];
    let mut out: Vec<u8> = Vec::new();
    assert!(write_compressed(&mut out, &payload, true));
    let clen = i32::from_le_bytes([out[4], out[5], out[6], out[7]]);
    assert!(clen > 0 && (clen as usize) < 4096);
    let mut cur = ByteCursor::new(out);
    let back = read_compressed(&mut cur).expect("framed section should decode");
    assert_eq!(back, payload);
}

#[test]
fn compression_round_trip_uncompressed() {
    let payload: Vec<u8> = (0..100u8).collect();
    let mut out: Vec<u8> = Vec::new();
    assert!(write_compressed(&mut out, &payload, false));
    assert_eq!(out[4..8], [0, 0, 0, 0]);
    let mut cur = ByteCursor::new(out);
    let back = read_compressed(&mut cur).expect("framed section should decode");
    assert_eq!(back, payload);
}

#[test]
fn bit_string_round_trip_unaligned() {
    let mut sink = BitSink::new();
    sink.write_bit(true);
    assert!(sink.write_string("BCD_Interact"));
    sink.byte_align();
    let bytes = sink.into_bytes();
    let mut cur = BitCursor::new(bytes);
    assert_eq!(cur.read_bit(), Some(true));
    assert_eq!(cur.read_string().expect("string should decode").as_str(), "BCD_Interact");
}
