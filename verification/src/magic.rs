//! The type-tag table: the one-byte wire tag of every category that has a
//! concrete tag of its own.  Categories that embed their value or length in
//! the tag byte (positive fixint, negative fixint, fixstr, fixarray, fixmap)
//! have a range of tag bytes instead; those ranges live in the `wire` model.

use vstd::prelude::*;

verus! {

pub const TAG_NIL: u8 = 0xC0;
pub const TAG_FALSE: u8 = 0xC2;
pub const TAG_TRUE: u8 = 0xC3;

pub const TAG_BIN8: u8 = 0xC4;
pub const TAG_BIN16: u8 = 0xC5;
pub const TAG_BIN32: u8 = 0xC6;

pub const TAG_EXT8: u8 = 0xC7;
pub const TAG_EXT16: u8 = 0xC8;
pub const TAG_EXT32: u8 = 0xC9;

pub const TAG_FLOAT32: u8 = 0xCA;
pub const TAG_FLOAT64: u8 = 0xCB;

pub const TAG_UINT8: u8 = 0xCC;
pub const TAG_UINT16: u8 = 0xCD;
pub const TAG_UINT32: u8 = 0xCE;
pub const TAG_UINT64: u8 = 0xCF;

pub const TAG_INT8: u8 = 0xD0;
pub const TAG_INT16: u8 = 0xD1;
pub const TAG_INT32: u8 = 0xD2;
pub const TAG_INT64: u8 = 0xD3;

pub const TAG_FIXEXT1: u8 = 0xD4;
pub const TAG_FIXEXT2: u8 = 0xD5;
pub const TAG_FIXEXT4: u8 = 0xD6;
pub const TAG_FIXEXT8: u8 = 0xD7;
pub const TAG_FIXEXT16: u8 = 0xD8;

pub const TAG_STR8: u8 = 0xD9;
pub const TAG_STR16: u8 = 0xDA;
pub const TAG_STR32: u8 = 0xDB;

pub const TAG_ARRAY16: u8 = 0xDC;
pub const TAG_ARRAY32: u8 = 0xDD;

pub const TAG_MAP16: u8 = 0xDE;
pub const TAG_MAP32: u8 = 0xDF;

} // verus!
