//! Floats cross the codec as raw IEEE-754 bit patterns, big-endian on the
//! wire; the tests check the exact bytes and a bit-faithful round trip.

use msgpack::encoder::Encoder;
use msgpack::reader::MsgPackReader;
use msgpack::value::DecodedValue;

#[test]
fn float32_exact_bytes() {
    let mut packer = Encoder::new();
    packer.write_f32_bits(1.5f32.to_bits());
    let buffer = packer.into_bytes();
    assert_eq!(buffer, vec![0xCA, 0x3F, 0xC0, 0x00, 0x00]);
    let mut unpacker = MsgPackReader::new(buffer.as_slice());
    match unpacker.try_read().unwrap() {
        DecodedValue::Float32(bits) => assert_eq!(f32::from_bits(bits), 1.5),
        _ => panic!("expected a 32-bit float"),
    }
}

#[test]
fn float64_exact_bytes() {
    let mut packer = Encoder::new();
    packer.write_f64_bits((-2.25f64).to_bits());
    let buffer = packer.into_bytes();
    assert_eq!(
        buffer,
        vec![0xCB, 0xC0, 0x02, 0x00, 0x00, 0x00, 0x00, 0x00, 0x00]
    );
    let mut unpacker = MsgPackReader::new(buffer.as_slice());
    match unpacker.try_read().unwrap() {
        DecodedValue::Float64(bits) => assert_eq!(f64::from_bits(bits), -2.25),
        _ => panic!("expected a 64-bit float"),
    }
}

#[test]
fn float_bits_kept_exactly() {
    // A NaN pattern survives unchanged: the codec never interprets the
    // bits.
    let pattern: u64 = 0x7FF8_0000_DEAD_BEEF;
    let mut packer = Encoder::new();
    packer.write_f64_bits(pattern);
    let buffer = packer.into_bytes();
    let mut unpacker = MsgPackReader::new(buffer.as_slice());
    match unpacker.try_read().unwrap() {
        DecodedValue::Float64(bits) => assert_eq!(bits, pattern),
        _ => panic!("expected a 64-bit float"),
    }
}
