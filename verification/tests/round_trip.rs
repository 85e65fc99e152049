//! Tests that what is written by the encoder has the correctly minimal
//! packing size, as well as our decoder being able to interpret the same
//! data from the encoded stream as we originally inserted.

use msgpack::encoder::Encoder;
use msgpack::reader::MsgPackReader;
use msgpack::value::DecodedValue;

#[test]
fn boolean_true() {
    let mut packer = Encoder::new();
    packer.write_bool(true);
    let buffer = packer.into_bytes();
    assert_eq!(buffer.len(), 1);
    let mut unpacker = MsgPackReader::new(buffer.as_slice());
    match unpacker.read() {
        DecodedValue::Boolean(x) => match x {
            true => {}
            _ => panic!("Did not unpack a true value."),
        },
        _ => panic!("Did not unpack a boolean."),
    }
}

#[test]
fn boolean_false() {
    let mut packer = Encoder::new();
    packer.write_bool(false);
    let buffer = packer.into_bytes();
    assert_eq!(buffer.len(), 1);
    let mut unpacker = MsgPackReader::new(buffer.as_slice());
    match unpacker.read() {
        DecodedValue::Boolean(x) => match x {
            false => {}
            _ => panic!("Did not unpack a true value."),
        },
        _ => panic!("Did not unpack a boolean."),
    }
}

#[test]
fn unsigned_fixed() {
    let mut packer = Encoder::new();
    packer.write_uint(64);
    let buffer = packer.into_bytes();
    assert_eq!(buffer.len(), 1);
    let mut unpacker = MsgPackReader::new(buffer.as_slice());
    match unpacker.read() {
        DecodedValue::Unsigned(x) => match x {
            64 => {}
            _ => panic!("Did not unpack 64."),
        },
        _ => panic!("Did not unpack an unsigned."),
    }
}

#[test]
fn unsigned_8bit() {
    let mut packer = Encoder::new();
    packer.write_uint(128);
    let buffer = packer.into_bytes();
    assert_eq!(buffer.len(), 2);
    let mut unpacker = MsgPackReader::new(buffer.as_slice());
    match unpacker.read() {
        DecodedValue::Unsigned(x) => match x {
            128 => {}
            _ => panic!("Did not unpack 128."),
        },
        _ => panic!("Did not unpack an unsigned."),
    }
}

#[test]
fn unsigned_16bit() {
    let mut packer = Encoder::new();
    packer.write_uint(256);
    let buffer = packer.into_bytes();
    assert_eq!(buffer.len(), 3);
    let mut unpacker = MsgPackReader::new(buffer.as_slice());
    match unpacker.read() {
        DecodedValue::Unsigned(x) => match x {
            256 => {}
            _ => panic!("Did not unpack 256."),
        },
        _ => panic!("Did not unpack an unsigned."),
    }
}

#[test]
fn unsigned_32bit() {
    let mut packer = Encoder::new();
    packer.write_uint(65536);
    let buffer = packer.into_bytes();
    assert_eq!(buffer.len(), 5);
    let mut unpacker = MsgPackReader::new(buffer.as_slice());
    match unpacker.read() {
        DecodedValue::Unsigned(x) => match x {
            65536 => {}
            _ => panic!("Did not unpack 65536."),
        },
        _ => panic!("Did not unpack an unsigned."),
    }
}

#[test]
fn unsigned_64bit() {
    let mut packer = Encoder::new();
    packer.write_uint(4294967296);
    let buffer = packer.into_bytes();
    assert_eq!(buffer.len(), 9);
    let mut unpacker = MsgPackReader::new(buffer.as_slice());
    match unpacker.read() {
        DecodedValue::Unsigned(x) => match x {
            4294967296 => {}
            _ => panic!("Did not unpack 4294967296."),
        },
        _ => panic!("Did not unpack an unsigned."),
    }
}

#[test]
fn string_fixed() {
    let fish = "fish".to_string();
    let mut packer = Encoder::new();
    packer.write_str(&fish).unwrap();
    let buffer = packer.into_bytes();
    assert_eq!(buffer.len(), 5);
    let mut unpacker = MsgPackReader::new(buffer.as_slice());
    match unpacker.read() {
        DecodedValue::String(x) => {
            if !x.eq(&fish) {
                panic!("Did not unpack fixed string correctly.")
            }
        }
        _ => panic!("Did not unpack an unsigned."),
    }
}

#[test]
fn string_8bit() {
    let fish = "tomato soup is a long string that needs eight bytes".to_string();
    let mut packer = Encoder::new();
    packer.write_str(&fish).unwrap();
    let buffer = packer.into_bytes();
    assert_eq!(buffer.len(), 53);
    let mut unpacker = MsgPackReader::new(buffer.as_slice());
    match unpacker.read() {
        DecodedValue::String(x) => {
            if !x.eq(&fish) {
                panic!("Did not unpack 8-bit string correctly.")
            }
        }
        _ => panic!("Did not unpack an unsigned."),
    }
}

#[test]
fn bin_8bit() {
    let data: Vec<u8> = vec![0; 64];
    let mut packer = Encoder::new();
    packer.write_bin(data.as_slice()).unwrap();
    let buffer = packer.into_bytes();
    assert_eq!(buffer.len(), 66);
    let mut unpacker = MsgPackReader::new(buffer.as_slice());
    match unpacker.read() {
        DecodedValue::Binary(x) => {
            assert_eq!(x, data);
        }
        _ => panic!("Did not unpack a binary."),
    }
}

#[test]
fn signed_fixed() {
    let mut packer = Encoder::new();
    packer.write_int(-7).unwrap();
    let buffer = packer.into_bytes();
    assert_eq!(buffer.len(), 1);
    let mut unpacker = MsgPackReader::new(buffer.as_slice());
    match unpacker.read() {
        DecodedValue::Signed(x) => match x {
            -7 => {}
            _ => panic!("Expected -7, got {}", x),
        },
        _ => panic!("Did not unpack a signed."),
    }
}

#[test]
fn signed_8bit() {
    let mut packer = Encoder::new();
    packer.write_int(-69).unwrap();
    let buffer = packer.into_bytes();
    assert_eq!(buffer.len(), 2);
    let mut unpacker = MsgPackReader::new(buffer.as_slice());
    match unpacker.read() {
        DecodedValue::Signed(x) => match x {
            -69 => {}
            _ => panic!("Did not unpack -69."),
        },
        _ => panic!("Did not unpack a signed."),
    }
}
