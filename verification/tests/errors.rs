//! Every failure kind, each triggered by an input that owes exactly that
//! error: reserved type codes, oversized values, unknown tags, truncated
//! payloads and invalid UTF-8.

use msgpack::encoder::Encoder;
use msgpack::reader::MsgPackReader;
use msgpack::wire::{DecodeError, EncodeError};

#[test]
fn reserved_extension_code() {
    let mut packer = Encoder::new();
    let r = packer.write_ext(-1, &[0x01]);
    assert_eq!(r, Err(EncodeError::TypeReserved));
    // Nothing was written before the refusal.
    assert_eq!(packer.into_bytes().len(), 0);
}

#[test]
fn reserved_code_checked_before_length() {
    let mut packer = Encoder::new();
    assert_eq!(packer.write_ext(-128, &[]), Err(EncodeError::TypeReserved));
}

#[test]
fn int_wont_fit() {
    let mut packer = Encoder::new();
    assert_eq!(packer.write_int(i64::MIN), Err(EncodeError::WontFit));
    assert_eq!(packer.into_bytes().len(), 0);
}

#[test]
fn unknown_tag() {
    // 0xC1 is the one byte value with no wire-format rule.
    let buffer = [0xC1u8];
    let mut unpacker = MsgPackReader::new(&buffer);
    assert_eq!(unpacker.try_read().unwrap_err(), DecodeError::NoData);
}

#[test]
fn empty_stream() {
    let buffer: [u8; 0] = [];
    let mut unpacker = MsgPackReader::new(&buffer);
    assert_eq!(
        unpacker.try_read().unwrap_err(),
        DecodeError::InsufficientData
    );
}

#[test]
fn truncated_str16() {
    // Declares a Str16 of length 10 but supplies only 5 trailing bytes:
    // the decoder must not return a 5-byte string silently.
    let buffer = [0xDAu8, 0x00, 0x0A, b'h', b'e', b'l', b'l', b'o'];
    let mut unpacker = MsgPackReader::new(&buffer);
    assert_eq!(
        unpacker.try_read().unwrap_err(),
        DecodeError::InsufficientData
    );
}

#[test]
fn truncated_fixstr() {
    let buffer = [0xA5u8, b'a', b'b'];
    let mut unpacker = MsgPackReader::new(&buffer);
    assert_eq!(
        unpacker.try_read().unwrap_err(),
        DecodeError::InsufficientData
    );
}

#[test]
fn truncated_uint32() {
    let buffer = [0xCEu8, 0x00, 0x01];
    let mut unpacker = MsgPackReader::new(&buffer);
    assert_eq!(
        unpacker.try_read().unwrap_err(),
        DecodeError::InsufficientData
    );
}

#[test]
fn truncated_bin8() {
    let buffer = [0xC4u8, 0x04, 0xAA];
    let mut unpacker = MsgPackReader::new(&buffer);
    assert_eq!(
        unpacker.try_read().unwrap_err(),
        DecodeError::InsufficientData
    );
}

#[test]
fn truncated_fixext() {
    // Fixext4 wants a type code and four data bytes; only two arrive.
    let buffer = [0xD6u8, 0x03, 0x01, 0x02];
    let mut unpacker = MsgPackReader::new(&buffer);
    assert_eq!(
        unpacker.try_read().unwrap_err(),
        DecodeError::InsufficientData
    );
}

#[test]
fn truncated_array_element() {
    // A fixarray claiming two elements whose second is missing: the inner
    // failure propagates unmodified.
    let buffer = [0x92u8, 0x01];
    let mut unpacker = MsgPackReader::new(&buffer);
    assert_eq!(
        unpacker.try_read().unwrap_err(),
        DecodeError::InsufficientData
    );
}

#[test]
fn truncated_map_value() {
    // A fixmap claiming one pair, with a key but no value.
    let buffer = [0x81u8, 0x01];
    let mut unpacker = MsgPackReader::new(&buffer);
    assert_eq!(
        unpacker.try_read().unwrap_err(),
        DecodeError::InsufficientData
    );
}

#[test]
fn invalid_utf8_string() {
    // A fixstr of two bytes that are not valid UTF-8: a distinct failure
    // from a short read.
    let buffer = [0xA2u8, 0xFF, 0xFE];
    let mut unpacker = MsgPackReader::new(&buffer);
    assert_eq!(unpacker.try_read().unwrap_err(), DecodeError::InvalidUtf8);
}

#[test]
fn invalid_utf8_is_not_insufficient() {
    // An overlong encoding of '/' (0xC0 0xAF) must be rejected as UTF-8.
    let buffer = [0xA2u8, 0xC0, 0xAF];
    let mut unpacker = MsgPackReader::new(&buffer);
    assert_eq!(unpacker.try_read().unwrap_err(), DecodeError::InvalidUtf8);
}

#[test]
fn nesting_at_the_bound_decodes() {
    // 128 nested arrays, the deepest holding one integer: exactly at the
    // decoder's nesting bound.
    let mut buffer = vec![0x91u8; 128];
    buffer.push(0x07);
    let mut unpacker = MsgPackReader::new(buffer.as_slice());
    let mut value = unpacker.try_read().unwrap();
    let mut levels = 0;
    loop {
        match value {
            msgpack::value::DecodedValue::Array(mut es) => {
                assert_eq!(es.len(), 1);
                value = es.pop().unwrap();
                levels += 1;
            }
            msgpack::value::DecodedValue::Unsigned(x) => {
                assert_eq!(x, 7);
                break;
            }
            _ => panic!("expected arrays around an unsigned"),
        }
    }
    assert_eq!(levels, 128);
}

#[test]
fn nesting_past_the_bound_fails_closed() {
    // One container level too many: the decoder refuses rather than
    // recurse without bound.
    let mut buffer = vec![0x91u8; 129];
    buffer.push(0x07);
    let mut unpacker = MsgPackReader::new(buffer.as_slice());
    assert_eq!(unpacker.try_read().unwrap_err(), DecodeError::DepthLimit);
}

#[test]
fn deep_nesting_claim_fails_closed() {
    // A stream can claim deep nesting cheaply; a long run of map headers
    // is refused the same way.
    let buffer = vec![0x81u8; 100000];
    let mut unpacker = MsgPackReader::new(buffer.as_slice());
    assert_eq!(unpacker.try_read().unwrap_err(), DecodeError::DepthLimit);
}

#[test]
fn failure_does_not_reset_position() {
    // After a failed read the caller owns recovery; the reader can go on
    // from wherever it stopped, here after the consumed unknown tag.
    let buffer = [0xC1u8, 0x07];
    let mut unpacker = MsgPackReader::new(&buffer);
    assert_eq!(unpacker.try_read().unwrap_err(), DecodeError::NoData);
    match unpacker.try_read().unwrap() {
        msgpack::value::DecodedValue::Unsigned(x) => assert_eq!(x, 7),
        _ => panic!("expected an unsigned"),
    }
}
