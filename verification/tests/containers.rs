//! Arrays, maps, options and whole value trees: header boundaries,
//! element order on the wire, and deep round trips.

use msgpack::encoder::Encoder;
use msgpack::reader::MsgPackReader;
use msgpack::value::DecodedValue;
use msgpack::wire::DecodeError;

fn decode_one(buffer: &[u8]) -> DecodedValue {
    let mut unpacker = MsgPackReader::new(buffer);
    unpacker.try_read().unwrap()
}

#[test]
fn array_of_uints() {
    let mut packer = Encoder::new();
    packer.write_array(&[1u64, 2, 3]).unwrap();
    let buffer = packer.into_bytes();
    assert_eq!(buffer, vec![0x93, 0x01, 0x02, 0x03]);
    match decode_one(&buffer) {
        DecodedValue::Array(es) => {
            assert_eq!(es.len(), 3);
            for (i, e) in es.iter().enumerate() {
                match e {
                    DecodedValue::Unsigned(x) => assert_eq!(*x, (i as u64) + 1),
                    _ => panic!("expected an unsigned element"),
                }
            }
        }
        _ => panic!("expected an array"),
    }
}

#[test]
fn empty_array() {
    let mut packer = Encoder::new();
    let empty: [u64; 0] = [];
    packer.write_array(&empty).unwrap();
    let buffer = packer.into_bytes();
    assert_eq!(buffer, vec![0x90]);
    match decode_one(&buffer) {
        DecodedValue::Array(es) => assert_eq!(es.len(), 0),
        _ => panic!("expected an array"),
    }
}

#[test]
fn fixarray_top_boundary() {
    // Exactly 15 elements: the last count the 4-bit fixed header holds.
    let elements: Vec<u64> = (0..15u64).collect();
    let mut packer = Encoder::new();
    packer.write_array(elements.as_slice()).unwrap();
    let buffer = packer.into_bytes();
    assert_eq!(buffer[0], 0x9F);
    assert_eq!(buffer.len(), 16);
    match decode_one(&buffer) {
        DecodedValue::Array(es) => assert_eq!(es.len(), 15),
        _ => panic!("expected an array"),
    }
}

#[test]
fn array16_bottom_boundary() {
    // Sixteen elements no longer fit the fixed header.
    let elements: Vec<u64> = (0..16u64).collect();
    let mut packer = Encoder::new();
    packer.write_array(elements.as_slice()).unwrap();
    let buffer = packer.into_bytes();
    assert_eq!(&buffer[0..3], &[0xDC, 0x00, 0x10]);
    assert_eq!(buffer.len(), 3 + 16);
    match decode_one(&buffer) {
        DecodedValue::Array(es) => assert_eq!(es.len(), 16),
        _ => panic!("expected an array"),
    }
}

#[test]
fn array_of_signed() {
    let mut packer = Encoder::new();
    packer.write_array(&[-1i64, -100, 1000]).unwrap();
    let buffer = packer.into_bytes();
    match decode_one(&buffer) {
        DecodedValue::Array(es) => {
            assert_eq!(es.len(), 3);
            match &es[0] {
                DecodedValue::Signed(x) => assert_eq!(*x, -1),
                _ => panic!("expected a signed element"),
            }
            match &es[1] {
                DecodedValue::Signed(x) => assert_eq!(*x, -100),
                _ => panic!("expected a signed element"),
            }
            match &es[2] {
                // Non-negative input through the signed API comes back
                // unsigned.
                DecodedValue::Unsigned(x) => assert_eq!(*x, 1000),
                _ => panic!("expected an unsigned element"),
            }
        }
        _ => panic!("expected an array"),
    }
}

#[test]
fn map_of_uint_to_bool() {
    let mut packer = Encoder::new();
    packer.write_map(&[(1u64, true), (2u64, false)]).unwrap();
    let buffer = packer.into_bytes();
    assert_eq!(buffer, vec![0x82, 0x01, 0xC3, 0x02, 0xC2]);
    match decode_one(&buffer) {
        DecodedValue::Mapping(ps) => {
            assert_eq!(ps.len(), 2);
            match (&ps[0].0, &ps[0].1) {
                (DecodedValue::Unsigned(k), DecodedValue::Boolean(v)) => {
                    assert_eq!(*k, 1);
                    assert_eq!(*v, true);
                }
                _ => panic!("expected a uint key and bool value"),
            }
            match (&ps[1].0, &ps[1].1) {
                (DecodedValue::Unsigned(k), DecodedValue::Boolean(v)) => {
                    assert_eq!(*k, 2);
                    assert_eq!(*v, false);
                }
                _ => panic!("expected a uint key and bool value"),
            }
        }
        _ => panic!("expected a map"),
    }
}

#[test]
fn map16_bottom_boundary() {
    let pairs: Vec<(u64, u64)> = (0..16u64).map(|i| (i, i + 1)).collect();
    let mut packer = Encoder::new();
    packer.write_map(pairs.as_slice()).unwrap();
    let buffer = packer.into_bytes();
    assert_eq!(&buffer[0..3], &[0xDE, 0x00, 0x10]);
    match decode_one(&buffer) {
        DecodedValue::Mapping(ps) => assert_eq!(ps.len(), 16),
        _ => panic!("expected a map"),
    }
}

#[test]
fn map_wire_order_is_input_order() {
    // The format does not require unique keys, and the encoder keeps the
    // input order; the decoder preserves the wire order.
    let mut packer = Encoder::new();
    packer.write_map(&[(9u64, 1u64), (9u64, 2u64)]).unwrap();
    let buffer = packer.into_bytes();
    match decode_one(&buffer) {
        DecodedValue::Mapping(ps) => {
            assert_eq!(ps.len(), 2);
            match &ps[0].1 {
                DecodedValue::Unsigned(v) => assert_eq!(*v, 1),
                _ => panic!("expected an unsigned value"),
            }
            match &ps[1].1 {
                DecodedValue::Unsigned(v) => assert_eq!(*v, 2),
                _ => panic!("expected an unsigned value"),
            }
        }
        _ => panic!("expected a map"),
    }
}

#[test]
fn option_none_is_nil() {
    let mut packer = Encoder::new();
    packer.write_option(&None::<u64>).unwrap();
    let buffer = packer.into_bytes();
    assert_eq!(buffer, vec![0xC0]);
    match decode_one(&buffer) {
        DecodedValue::Nil => {}
        _ => panic!("expected nil"),
    }
}

#[test]
fn option_some_is_value() {
    let mut packer = Encoder::new();
    packer.write_option(&Some(5u64)).unwrap();
    let buffer = packer.into_bytes();
    assert_eq!(buffer, vec![0x05]);
    match decode_one(&buffer) {
        DecodedValue::Unsigned(x) => assert_eq!(x, 5),
        _ => panic!("expected an unsigned"),
    }
}

#[test]
fn write_generic_string() {
    let mut packer = Encoder::new();
    packer.write(&"fish".to_string()).unwrap();
    let buffer = packer.into_bytes();
    assert_eq!(buffer, vec![0xA4, b'f', b'i', b's', b'h']);
}

#[test]
fn write_value_deep_tree() {
    // A nested tree through write_value: an array holding a string, a
    // nested array, a map and a nil.
    let tree = DecodedValue::Array(vec![
        DecodedValue::String("hi".to_string()),
        DecodedValue::Array(vec![
            DecodedValue::Unsigned(1),
            DecodedValue::Signed(-2),
        ]),
        DecodedValue::Mapping(vec![(
            DecodedValue::String("k".to_string()),
            DecodedValue::Boolean(true),
        )]),
        DecodedValue::Nil,
    ]);
    let mut packer = Encoder::new();
    packer.write_value(&tree).unwrap();
    let buffer = packer.into_bytes();
    assert_eq!(
        buffer,
        vec![
            0x94, // fixarray, 4 elements
            0xA2, b'h', b'i', // fixstr "hi"
            0x92, 0x01, 0xFE, // fixarray [1, -2]
            0x81, 0xA1, b'k', 0xC3, // fixmap {"k": true}
            0xC0, // nil
        ]
    );
    match decode_one(&buffer) {
        DecodedValue::Array(es) => {
            assert_eq!(es.len(), 4);
            match &es[0] {
                DecodedValue::String(s) => assert_eq!(s, "hi"),
                _ => panic!("expected a string"),
            }
            match &es[1] {
                DecodedValue::Array(inner) => {
                    assert_eq!(inner.len(), 2);
                    match &inner[1] {
                        DecodedValue::Signed(x) => assert_eq!(*x, -2),
                        _ => panic!("expected a signed"),
                    }
                }
                _ => panic!("expected a nested array"),
            }
            match &es[2] {
                DecodedValue::Mapping(ps) => assert_eq!(ps.len(), 1),
                _ => panic!("expected a map"),
            }
            match &es[3] {
                DecodedValue::Nil => {}
                _ => panic!("expected nil"),
            }
        }
        _ => panic!("expected an array"),
    }
}

#[test]
fn write_value_reencodes_decoded_tree() {
    // Decoding and re-encoding a buffer reproduces it byte for byte.
    let original: Vec<u8> = vec![0x92, 0xA1, b'x', 0x81, 0x01, 0xC2];
    let value = decode_one(&original);
    let mut packer = Encoder::new();
    packer.write_value(&value).unwrap();
    assert_eq!(packer.into_bytes(), original);
}

#[test]
fn two_units_in_sequence() {
    let buffer = [0x01u8, 0xA1, b'z'];
    let mut unpacker = MsgPackReader::new(&buffer);
    match unpacker.try_read().unwrap() {
        DecodedValue::Unsigned(x) => assert_eq!(x, 1),
        _ => panic!("expected an unsigned"),
    }
    match unpacker.try_read().unwrap() {
        DecodedValue::String(s) => assert_eq!(s, "z"),
        _ => panic!("expected a string"),
    }
    assert_eq!(
        unpacker.try_read().unwrap_err(),
        DecodeError::InsufficientData
    );
}
