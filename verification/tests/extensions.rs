//! Extension blocks: Fixext selection against the Ext bands, type codes,
//! and round trips.

use msgpack::encoder::Encoder;
use msgpack::reader::MsgPackReader;
use msgpack::value::DecodedValue;

fn decode_one(buffer: &[u8]) -> DecodedValue {
    let mut unpacker = MsgPackReader::new(buffer);
    unpacker.try_read().unwrap()
}

#[test]
fn fixext4_selected_over_ext8() {
    // A 4-byte payload takes the Fixext4 form, not Ext8, even though Ext8
    // would also be legal: the exact form matters.
    let mut packer = Encoder::new();
    packer.write_ext(3, &[0x0A, 0x0B, 0x0C, 0x0D]).unwrap();
    let buffer = packer.into_bytes();
    assert_eq!(buffer, vec![0xD6, 0x03, 0x0A, 0x0B, 0x0C, 0x0D]);
    match decode_one(&buffer) {
        DecodedValue::Extension(code, data) => {
            assert_eq!(code, 3);
            assert_eq!(data, vec![0x0A, 0x0B, 0x0C, 0x0D]);
        }
        _ => panic!("expected an extension"),
    }
}

#[test]
fn fixext1_form() {
    let mut packer = Encoder::new();
    packer.write_ext(9, &[0x2A]).unwrap();
    let buffer = packer.into_bytes();
    assert_eq!(buffer, vec![0xD4, 0x09, 0x2A]);
    match decode_one(&buffer) {
        DecodedValue::Extension(code, data) => {
            assert_eq!(code, 9);
            assert_eq!(data, vec![0x2A]);
        }
        _ => panic!("expected an extension"),
    }
}

#[test]
fn fixext2_8_16_forms() {
    for (n, tag) in [(2usize, 0xD5u8), (8, 0xD7), (16, 0xD8)] {
        let data: Vec<u8> = (0..n as u8).collect();
        let mut packer = Encoder::new();
        packer.write_ext(1, data.as_slice()).unwrap();
        let buffer = packer.into_bytes();
        assert_eq!(buffer.len(), 2 + n);
        assert_eq!(buffer[0], tag);
        assert_eq!(buffer[1], 0x01);
        match decode_one(&buffer) {
            DecodedValue::Extension(code, payload) => {
                assert_eq!(code, 1);
                assert_eq!(payload, data);
            }
            _ => panic!("expected an extension"),
        }
    }
}

#[test]
fn ext8_for_inbetween_lengths() {
    // Three bytes match no Fixext form, so the Ext8 band applies: tag,
    // length, type code, payload.
    let mut packer = Encoder::new();
    packer.write_ext(7, &[0x01, 0x02, 0x03]).unwrap();
    let buffer = packer.into_bytes();
    assert_eq!(buffer, vec![0xC7, 0x03, 0x07, 0x01, 0x02, 0x03]);
    match decode_one(&buffer) {
        DecodedValue::Extension(code, data) => {
            assert_eq!(code, 7);
            assert_eq!(data, vec![0x01, 0x02, 0x03]);
        }
        _ => panic!("expected an extension"),
    }
}

#[test]
fn ext8_for_empty_payload() {
    let mut packer = Encoder::new();
    packer.write_ext(0, &[]).unwrap();
    let buffer = packer.into_bytes();
    assert_eq!(buffer, vec![0xC7, 0x00, 0x00]);
    match decode_one(&buffer) {
        DecodedValue::Extension(code, data) => {
            assert_eq!(code, 0);
            assert_eq!(data.len(), 0);
        }
        _ => panic!("expected an extension"),
    }
}

#[test]
fn ext16_band() {
    let data: Vec<u8> = vec![0x55; 256];
    let mut packer = Encoder::new();
    packer.write_ext(42, data.as_slice()).unwrap();
    let buffer = packer.into_bytes();
    assert_eq!(buffer.len(), 4 + 256);
    assert_eq!(&buffer[0..4], &[0xC8, 0x01, 0x00, 42]);
    match decode_one(&buffer) {
        DecodedValue::Extension(code, payload) => {
            assert_eq!(code, 42);
            assert_eq!(payload, data);
        }
        _ => panic!("expected an extension"),
    }
}

#[test]
fn ext32_band() {
    let data: Vec<u8> = vec![0x66; 70000];
    let mut packer = Encoder::new();
    packer.write_ext(127, data.as_slice()).unwrap();
    let buffer = packer.into_bytes();
    assert_eq!(buffer.len(), 6 + 70000);
    assert_eq!(&buffer[0..6], &[0xC9, 0x00, 0x01, 0x11, 0x70, 127]);
    match decode_one(&buffer) {
        DecodedValue::Extension(code, payload) => {
            assert_eq!(code, 127);
            assert_eq!(payload, data);
        }
        _ => panic!("expected an extension"),
    }
}

#[test]
fn negative_code_still_decodes() {
    // The encoder refuses negative codes, but the decoder reports what is
    // on the wire, reserved or not.
    let buffer = [0xD4u8, 0xFF, 0x01];
    match decode_one(&buffer) {
        DecodedValue::Extension(code, data) => {
            assert_eq!(code, -1);
            assert_eq!(data, vec![0x01]);
        }
        _ => panic!("expected an extension"),
    }
}
