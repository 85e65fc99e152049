//! Exact wire bytes and sizes at every band boundary: the encoder must
//! pick the smallest legal form, and the decoder must hand the value back.

use msgpack::encoder::Encoder;
use msgpack::reader::MsgPackReader;
use msgpack::value::DecodedValue;

fn encode_uint(v: u64) -> Vec<u8> {
    let mut packer = Encoder::new();
    packer.write_uint(v);
    packer.into_bytes()
}

fn encode_int(v: i64) -> Vec<u8> {
    let mut packer = Encoder::new();
    packer.write_int(v).unwrap();
    packer.into_bytes()
}

fn decode_one(buffer: &[u8]) -> DecodedValue {
    let mut unpacker = MsgPackReader::new(buffer);
    unpacker.try_read().unwrap()
}

#[test]
fn bool_exact_bytes() {
    let mut packer = Encoder::new();
    packer.write_bool(true);
    assert_eq!(packer.into_bytes(), vec![0xC3]);
    let mut packer = Encoder::new();
    packer.write_bool(false);
    assert_eq!(packer.into_bytes(), vec![0xC2]);
}

#[test]
fn string_8bit_52_characters() {
    // A 52-character ASCII string takes the Str8 form: one tag byte, one
    // length byte, then the 52 payload bytes.
    let text: String = "d".repeat(52);
    let mut packer = Encoder::new();
    packer.write_str(&text).unwrap();
    let buffer = packer.into_bytes();
    assert_eq!(buffer.len(), 2 + 52);
    assert_eq!(&buffer[0..2], &[0xD9, 52]);
    match decode_one(&buffer) {
        DecodedValue::String(x) => assert_eq!(x, text),
        _ => panic!("expected a string"),
    }
}

#[test]
fn uint_fixed_top() {
    let buffer = encode_uint(127);
    assert_eq!(buffer, vec![0x7F]);
    match decode_one(&buffer) {
        DecodedValue::Unsigned(x) => assert_eq!(x, 127),
        _ => panic!("expected an unsigned"),
    }
}

#[test]
fn uint_8bit_exact_bytes() {
    assert_eq!(encode_uint(128), vec![0xCC, 0x80]);
    assert_eq!(encode_uint(255), vec![0xCC, 0xFF]);
}

#[test]
fn uint_16bit_exact_bytes() {
    assert_eq!(encode_uint(256), vec![0xCD, 0x01, 0x00]);
    assert_eq!(encode_uint(65535), vec![0xCD, 0xFF, 0xFF]);
}

#[test]
fn uint_32bit_exact_bytes() {
    assert_eq!(encode_uint(65536), vec![0xCE, 0x00, 0x01, 0x00, 0x00]);
    assert_eq!(encode_uint(4294967295), vec![0xCE, 0xFF, 0xFF, 0xFF, 0xFF]);
}

#[test]
fn uint_64bit_max() {
    let buffer = encode_uint(u64::MAX);
    assert_eq!(
        buffer,
        vec![0xCF, 0xFF, 0xFF, 0xFF, 0xFF, 0xFF, 0xFF, 0xFF, 0xFF]
    );
    match decode_one(&buffer) {
        DecodedValue::Unsigned(x) => assert_eq!(x, u64::MAX),
        _ => panic!("expected an unsigned"),
    }
}

#[test]
fn int_negative_fixed_band() {
    assert_eq!(encode_int(-1), vec![0xFF]);
    assert_eq!(encode_int(-15), vec![0xF1]);
    match decode_one(&encode_int(-15)) {
        DecodedValue::Signed(x) => assert_eq!(x, -15),
        _ => panic!("expected a signed"),
    }
}

#[test]
fn int_8bit_band() {
    assert_eq!(encode_int(-16), vec![0xD0, 0xF0]);
    assert_eq!(encode_int(-127), vec![0xD0, 0x81]);
    match decode_one(&encode_int(-127)) {
        DecodedValue::Signed(x) => assert_eq!(x, -127),
        _ => panic!("expected a signed"),
    }
}

#[test]
fn int_16bit_band() {
    // -128 misses the Int8 band on purpose: the stated boundary is -127.
    assert_eq!(encode_int(-128), vec![0xD1, 0xFF, 0x80]);
    assert_eq!(encode_int(-32767), vec![0xD1, 0x80, 0x01]);
    match decode_one(&encode_int(-32767)) {
        DecodedValue::Signed(x) => assert_eq!(x, -32767),
        _ => panic!("expected a signed"),
    }
}

#[test]
fn int_32bit_band() {
    assert_eq!(encode_int(-32768), vec![0xD2, 0xFF, 0xFF, 0x80, 0x00]);
    assert_eq!(encode_int(-2147483647), vec![0xD2, 0x80, 0x00, 0x00, 0x01]);
    match decode_one(&encode_int(-2147483647)) {
        DecodedValue::Signed(x) => assert_eq!(x, -2147483647),
        _ => panic!("expected a signed"),
    }
}

#[test]
fn int_64bit_band() {
    assert_eq!(
        encode_int(-2147483648),
        vec![0xD3, 0xFF, 0xFF, 0xFF, 0xFF, 0x80, 0x00, 0x00, 0x00]
    );
    let buffer = encode_int(i64::MIN + 1);
    assert_eq!(buffer.len(), 9);
    match decode_one(&buffer) {
        DecodedValue::Signed(x) => assert_eq!(x, i64::MIN + 1),
        _ => panic!("expected a signed"),
    }
}

#[test]
fn nonnegative_int_encodes_unsigned() {
    // A signed API call with a non-negative value takes the unsigned wire
    // form, and so decodes as Unsigned: a property, not a bug.
    let buffer = encode_int(5);
    assert_eq!(buffer, vec![0x05]);
    match decode_one(&buffer) {
        DecodedValue::Unsigned(x) => assert_eq!(x, 5),
        _ => panic!("expected an unsigned"),
    }
    match decode_one(&encode_int(0)) {
        DecodedValue::Unsigned(x) => assert_eq!(x, 0),
        _ => panic!("expected an unsigned"),
    }
}

#[test]
fn string_fixed_top_boundary() {
    let text: String = "a".repeat(31);
    let mut packer = Encoder::new();
    packer.write_str(&text).unwrap();
    let buffer = packer.into_bytes();
    assert_eq!(buffer.len(), 32);
    assert_eq!(buffer[0], 0xBF);
    match decode_one(&buffer) {
        DecodedValue::String(x) => assert_eq!(x, text),
        _ => panic!("expected a string"),
    }
}

#[test]
fn string_8bit_bottom_boundary() {
    let text: String = "a".repeat(32);
    let mut packer = Encoder::new();
    packer.write_str(&text).unwrap();
    let buffer = packer.into_bytes();
    assert_eq!(buffer.len(), 34);
    assert_eq!(buffer[0], 0xD9);
    assert_eq!(buffer[1], 32);
    match decode_one(&buffer) {
        DecodedValue::String(x) => assert_eq!(x, text),
        _ => panic!("expected a string"),
    }
}

#[test]
fn string_16bit_band() {
    let text: String = "b".repeat(256);
    let mut packer = Encoder::new();
    packer.write_str(&text).unwrap();
    let buffer = packer.into_bytes();
    assert_eq!(buffer.len(), 3 + 256);
    assert_eq!(&buffer[0..3], &[0xDA, 0x01, 0x00]);
    match decode_one(&buffer) {
        DecodedValue::String(x) => assert_eq!(x, text),
        _ => panic!("expected a string"),
    }
}

#[test]
fn string_32bit_band() {
    let text: String = "c".repeat(70000);
    let mut packer = Encoder::new();
    packer.write_str(&text).unwrap();
    let buffer = packer.into_bytes();
    assert_eq!(buffer.len(), 5 + 70000);
    assert_eq!(&buffer[0..5], &[0xDB, 0x00, 0x01, 0x11, 0x70]);
    match decode_one(&buffer) {
        DecodedValue::String(x) => assert_eq!(x, text),
        _ => panic!("expected a string"),
    }
}

#[test]
fn string_multibyte_characters() {
    // Characters above ASCII: the length bands count UTF-8 bytes, not
    // characters.
    let text = "snowman \u{2603} and crab \u{1F980}".to_string();
    let mut packer = Encoder::new();
    packer.write_str(&text).unwrap();
    let buffer = packer.into_bytes();
    assert_eq!(buffer.len(), 1 + text.len());
    match decode_one(&buffer) {
        DecodedValue::String(x) => assert_eq!(x, text),
        _ => panic!("expected a string"),
    }
}

#[test]
fn bin_8bit_top_boundary() {
    let data: Vec<u8> = (0..=255u8).map(|b| b).collect();
    assert_eq!(data.len(), 256);
    let mut packer = Encoder::new();
    packer.write_bin(&data[0..255]).unwrap();
    let buffer = packer.into_bytes();
    assert_eq!(buffer.len(), 257);
    assert_eq!(&buffer[0..2], &[0xC4, 0xFF]);
    match decode_one(&buffer) {
        DecodedValue::Binary(x) => assert_eq!(x.as_slice(), &data[0..255]),
        _ => panic!("expected a binary"),
    }
}

#[test]
fn bin_16bit_bottom_boundary() {
    let data: Vec<u8> = vec![7; 256];
    let mut packer = Encoder::new();
    packer.write_bin(data.as_slice()).unwrap();
    let buffer = packer.into_bytes();
    assert_eq!(buffer.len(), 259);
    assert_eq!(&buffer[0..3], &[0xC5, 0x01, 0x00]);
    match decode_one(&buffer) {
        DecodedValue::Binary(x) => assert_eq!(x, data),
        _ => panic!("expected a binary"),
    }
}

#[test]
fn bin_32bit_band() {
    let data: Vec<u8> = vec![9; 70000];
    let mut packer = Encoder::new();
    packer.write_bin(data.as_slice()).unwrap();
    let buffer = packer.into_bytes();
    assert_eq!(buffer.len(), 5 + 70000);
    assert_eq!(&buffer[0..5], &[0xC6, 0x00, 0x01, 0x11, 0x70]);
    match decode_one(&buffer) {
        DecodedValue::Binary(x) => assert_eq!(x, data),
        _ => panic!("expected a binary"),
    }
}

#[test]
fn nonminimal_forms_still_decode() {
    // The decoder dispatches on the tag alone: a value carried in a wider
    // form than necessary still decodes to the same number.
    match decode_one(&[0xCC, 0x05]) {
        DecodedValue::Unsigned(x) => assert_eq!(x, 5),
        _ => panic!("expected an unsigned"),
    }
    match decode_one(&[0xCD, 0x00, 0x05]) {
        DecodedValue::Unsigned(x) => assert_eq!(x, 5),
        _ => panic!("expected an unsigned"),
    }
    match decode_one(&[0xD0, 0xF9]) {
        DecodedValue::Signed(x) => assert_eq!(x, -7),
        _ => panic!("expected a signed"),
    }
}
