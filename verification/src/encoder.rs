//! The encoder: serializes typed values into the smallest correct wire
//! representation, in one pass, appending to an owned output buffer.
//!
//! Every writer method promises, in its `ensures`, to append exactly the
//! bytes the wire model (`wire`) assigns to its argument.  The low-level
//! writers append one raw form each; the public writers select the minimal
//! form and are specified against `enc_uint`, `enc_int`, `enc_str` and
//! friends directly.

use vstd::prelude::*;
use vstd::slice::slice_index_get;
use vstd::utf8::encode_utf8;

use crate::magic::{
    TAG_ARRAY16, TAG_ARRAY32, TAG_BIN16, TAG_BIN32, TAG_BIN8, TAG_EXT16, TAG_EXT32, TAG_EXT8,
    TAG_FALSE, TAG_FIXEXT1, TAG_FIXEXT16, TAG_FIXEXT2, TAG_FIXEXT4, TAG_FIXEXT8, TAG_FLOAT32,
    TAG_FLOAT64, TAG_INT16, TAG_INT32, TAG_INT64, TAG_INT8, TAG_MAP16, TAG_MAP32, TAG_NIL,
    TAG_STR16, TAG_STR32, TAG_STR8, TAG_TRUE, TAG_UINT16, TAG_UINT32, TAG_UINT64, TAG_UINT8,
};
use crate::value::{
    entries_view, lemma_entries_view_props, lemma_values_view_props, value_view, values_view,
    DecodedValue, Value,
};
use crate::wire::{
    be16, be32, be64, enc_array_header, enc_bin, enc_bool, enc_entries, enc_ext, enc_float32,
    enc_float64, enc_int, enc_map_header, enc_nil, enc_str, enc_uint, enc_value, enc_value_err,
    enc_values, lemma_enc_entries_push, lemma_enc_values_push, lemma_entries_enc_err_at,
    lemma_entries_enc_ok_iff, lemma_values_enc_err_at, lemma_values_enc_ok_iff, EncodeError,
};

verus! {

/// A utility which appends MessagePack-encoded data to an owned byte
/// buffer.  Its view is the sequence of bytes written so far.
pub struct Encoder {
    buf: Vec<u8>,
}

impl View for Encoder {
    type V = Seq<u8>;

    closed spec fn view(&self) -> Seq<u8> {
        self.buf@
    }
}

impl Encoder {
    /// A fresh encoder with an empty output buffer.
    pub fn new() -> (e: Encoder)
        ensures
            e@ == Seq::<u8>::empty(),
    {
        Encoder { buf: Vec::new() }
    }

    /// Hands the encoded bytes to the caller.
    pub fn into_bytes(self) -> (r: Vec<u8>)
        ensures
            r@ == self@,
    {
        self.buf
    }

    /// The encoded bytes, borrowed.
    pub fn bytes(&self) -> (r: &[u8])
        ensures
            r@ == self@,
    {
        self.buf.as_slice()
    }
}

/* The low layer: each method appends one raw wire form, with no size
selection of its own.  Callers pick the right form. */

impl Encoder {
    #[inline]
    fn write_tag(&mut self, tag: u8)
        ensures
            final(self)@ == old(self)@ + seq![tag],
    {
        self.buf.push(tag);
    }

    fn write_be16(&mut self, v: u16)
        ensures
            final(self)@ == old(self)@ + be16(v),
    {
        self.buf.push((v / 0x100) as u8);
        self.buf.push((v % 0x100) as u8);
        assert(self@ =~= old(self)@ + be16(v));
    }

    fn write_be32(&mut self, v: u32)
        ensures
            final(self)@ == old(self)@ + be32(v),
    {
        self.buf.push((v / 0x1000000) as u8);
        self.buf.push(((v / 0x10000) % 0x100) as u8);
        self.buf.push(((v / 0x100) % 0x100) as u8);
        self.buf.push((v % 0x100) as u8);
        assert(self@ =~= old(self)@ + be32(v));
    }

    fn write_be64(&mut self, v: u64)
        ensures
            final(self)@ == old(self)@ + be64(v),
    {
        self.buf.push((v / 0x100000000000000) as u8);
        self.buf.push(((v / 0x1000000000000) % 0x100) as u8);
        self.buf.push(((v / 0x10000000000) % 0x100) as u8);
        self.buf.push(((v / 0x100000000) % 0x100) as u8);
        self.buf.push(((v / 0x1000000) % 0x100) as u8);
        self.buf.push(((v / 0x10000) % 0x100) as u8);
        self.buf.push(((v / 0x100) % 0x100) as u8);
        self.buf.push((v % 0x100) as u8);
        assert(self@ =~= old(self)@ + be64(v));
    }

    fn write_raw(&mut self, data: &[u8])
        ensures
            final(self)@ == old(self)@ + data@,
    {
        self.buf.extend_from_slice(data);
    }

    #[inline]
    fn write_array8(&mut self, element_count: u8)
        requires
            element_count <= 15,
        ensures
            final(self)@ == old(self)@ + seq![(0x90 + element_count) as u8],
    {
        self.buf.push(0x90 + element_count);
    }

    #[inline]
    fn write_array16(&mut self, element_count: u16)
        ensures
            final(self)@ == old(self)@ + seq![TAG_ARRAY16] + be16(element_count),
    {
        self.write_tag(TAG_ARRAY16);
        self.write_be16(element_count);
    }

    #[inline]
    fn write_array32(&mut self, element_count: u32)
        ensures
            final(self)@ == old(self)@ + seq![TAG_ARRAY32] + be32(element_count),
    {
        self.write_tag(TAG_ARRAY32);
        self.write_be32(element_count);
    }

    #[inline]
    fn write_map_fix(&mut self, element_count: u8)
        requires
            element_count <= 15,
        ensures
            final(self)@ == old(self)@ + seq![(0x80 + element_count) as u8],
    {
        self.buf.push(0x80 + element_count);
    }

    #[inline]
    fn write_map16(&mut self, element_count: u16)
        ensures
            final(self)@ == old(self)@ + seq![TAG_MAP16] + be16(element_count),
    {
        self.write_tag(TAG_MAP16);
        self.write_be16(element_count);
    }

    #[inline]
    fn write_map32(&mut self, element_count: u32)
        ensures
            final(self)@ == old(self)@ + seq![TAG_MAP32] + be32(element_count),
    {
        self.write_tag(TAG_MAP32);
        self.write_be32(element_count);
    }

    #[inline]
    fn write_fix_num(&mut self, t: u8)
        requires
            t < 0x80,
        ensures
            final(self)@ == old(self)@ + seq![t],
    {
        self.buf.push(t);
    }

    fn write_fix_neg(&mut self, t: i8)
        requires
            -15 <= t <= -1,
        ensures
            final(self)@ == old(self)@ + seq![(t + 0x100) as u8],
    {
        self.buf.push(((t as i16) + 0x100) as u8);
    }

    fn write_str_fix(&mut self, data: &str)
        requires
            encode_utf8(data@).len() <= 31,
        ensures
            final(self)@ == old(self)@ + enc_str(encode_utf8(data@)),
    {
        let bytes = data.as_bytes();
        self.buf.push(0xA0 + (bytes.len() as u8));
        self.write_raw(bytes);
        assert(self@ =~= old(self)@ + enc_str(encode_utf8(data@)));
    }

    fn write_str8(&mut self, data: &str)
        requires
            encode_utf8(data@).len() <= 0xFF,
        ensures
            final(self)@ == old(self)@ + seq![TAG_STR8, encode_utf8(data@).len() as u8] + encode_utf8(
                data@,
            ),
    {
        let bytes = data.as_bytes();
        self.write_tag(TAG_STR8);
        self.buf.push(bytes.len() as u8);
        self.write_raw(bytes);
        assert(self@ =~= old(self)@ + seq![TAG_STR8, encode_utf8(data@).len() as u8]
            + encode_utf8(data@));
    }

    fn write_str16(&mut self, data: &str)
        requires
            encode_utf8(data@).len() <= 0xFFFF,
        ensures
            final(self)@ == old(self)@ + seq![TAG_STR16] + be16(encode_utf8(data@).len() as u16)
                + encode_utf8(data@),
    {
        let bytes = data.as_bytes();
        self.write_tag(TAG_STR16);
        self.write_be16(bytes.len() as u16);
        self.write_raw(bytes);
        assert(self@ =~= old(self)@ + seq![TAG_STR16] + be16(encode_utf8(data@).len() as u16)
            + encode_utf8(data@));
    }

    fn write_str32(&mut self, data: &str)
        requires
            encode_utf8(data@).len() <= 0xFFFFFFFF,
        ensures
            final(self)@ == old(self)@ + seq![TAG_STR32] + be32(encode_utf8(data@).len() as u32)
                + encode_utf8(data@),
    {
        let bytes = data.as_bytes();
        self.write_tag(TAG_STR32);
        self.write_be32(bytes.len() as u32);
        self.write_raw(bytes);
        assert(self@ =~= old(self)@ + seq![TAG_STR32] + be32(encode_utf8(data@).len() as u32)
            + encode_utf8(data@));
    }

    fn write_bin8(&mut self, data: &[u8])
        requires
            data@.len() <= 0xFF,
        ensures
            final(self)@ == old(self)@ + seq![TAG_BIN8, data@.len() as u8] + data@,
    {
        self.write_tag(TAG_BIN8);
        self.buf.push(data.len() as u8);
        self.write_raw(data);
        assert(self@ =~= old(self)@ + seq![TAG_BIN8, data@.len() as u8] + data@);
    }

    fn write_bin16(&mut self, data: &[u8])
        requires
            data@.len() <= 0xFFFF,
        ensures
            final(self)@ == old(self)@ + seq![TAG_BIN16] + be16(data@.len() as u16) + data@,
    {
        self.write_tag(TAG_BIN16);
        self.write_be16(data.len() as u16);
        self.write_raw(data);
    }

    fn write_bin32(&mut self, data: &[u8])
        requires
            data@.len() <= 0xFFFFFFFF,
        ensures
            final(self)@ == old(self)@ + seq![TAG_BIN32] + be32(data@.len() as u32) + data@,
    {
        self.write_tag(TAG_BIN32);
        self.write_be32(data.len() as u32);
        self.write_raw(data);
    }

    fn write_ext8(&mut self, user_type: i8, data: &[u8])
        requires
            user_type >= 0,
            data@.len() <= 0xFF,
        ensures
            final(self)@ == old(self)@ + seq![TAG_EXT8, data@.len() as u8, user_type as u8] + data@,
    {
        self.write_tag(TAG_EXT8);
        self.buf.push(data.len() as u8);
        self.buf.push(user_type as u8);
        self.write_raw(data);
        assert(self@ =~= old(self)@ + seq![TAG_EXT8, data@.len() as u8, user_type as u8] + data@);
    }

    fn write_ext16(&mut self, user_type: i8, data: &[u8])
        requires
            user_type >= 0,
            data@.len() <= 0xFFFF,
        ensures
            final(self)@ == old(self)@ + seq![TAG_EXT16] + be16(data@.len() as u16) + seq![
                user_type as u8,
            ] + data@,
    {
        self.write_tag(TAG_EXT16);
        self.write_be16(data.len() as u16);
        self.buf.push(user_type as u8);
        self.write_raw(data);
        assert(self@ =~= old(self)@ + seq![TAG_EXT16] + be16(data@.len() as u16) + seq![
            user_type as u8,
        ] + data@);
    }

    fn write_ext32(&mut self, user_type: i8, data: &[u8])
        requires
            user_type >= 0,
            data@.len() <= 0xFFFFFFFF,
        ensures
            final(self)@ == old(self)@ + seq![TAG_EXT32] + be32(data@.len() as u32) + seq![
                user_type as u8,
            ] + data@,
    {
        self.write_tag(TAG_EXT32);
        self.write_be32(data.len() as u32);
        self.buf.push(user_type as u8);
        self.write_raw(data);
        assert(self@ =~= old(self)@ + seq![TAG_EXT32] + be32(data@.len() as u32) + seq![
            user_type as u8,
        ] + data@);
    }

    fn write_fixext1(&mut self, user_type: i8, data: u8)
        requires
            user_type >= 0,
        ensures
            final(self)@ == old(self)@ + seq![TAG_FIXEXT1, user_type as u8, data],
    {
        self.write_tag(TAG_FIXEXT1);
        self.buf.push(user_type as u8);
        self.buf.push(data);
        assert(self@ =~= old(self)@ + seq![TAG_FIXEXT1, user_type as u8, data]);
    }

    fn write_fixext2(&mut self, user_type: i8, data: &[u8])
        requires
            user_type >= 0,
            data@.len() == 2,
        ensures
            final(self)@ == old(self)@ + seq![TAG_FIXEXT2, user_type as u8] + data@,
    {
        self.write_tag(TAG_FIXEXT2);
        self.buf.push(user_type as u8);
        self.write_raw(data);
        assert(self@ =~= old(self)@ + seq![TAG_FIXEXT2, user_type as u8] + data@);
    }

    fn write_fixext4(&mut self, user_type: i8, data: &[u8])
        requires
            user_type >= 0,
            data@.len() == 4,
        ensures
            final(self)@ == old(self)@ + seq![TAG_FIXEXT4, user_type as u8] + data@,
    {
        self.write_tag(TAG_FIXEXT4);
        self.buf.push(user_type as u8);
        self.write_raw(data);
        assert(self@ =~= old(self)@ + seq![TAG_FIXEXT4, user_type as u8] + data@);
    }

    fn write_fixext8(&mut self, user_type: i8, data: &[u8])
        requires
            user_type >= 0,
            data@.len() == 8,
        ensures
            final(self)@ == old(self)@ + seq![TAG_FIXEXT8, user_type as u8] + data@,
    {
        self.write_tag(TAG_FIXEXT8);
        self.buf.push(user_type as u8);
        self.write_raw(data);
        assert(self@ =~= old(self)@ + seq![TAG_FIXEXT8, user_type as u8] + data@);
    }

    fn write_fixext16(&mut self, user_type: i8, data: &[u8])
        requires
            user_type >= 0,
            data@.len() == 16,
        ensures
            final(self)@ == old(self)@ + seq![TAG_FIXEXT16, user_type as u8] + data@,
    {
        self.write_tag(TAG_FIXEXT16);
        self.buf.push(user_type as u8);
        self.write_raw(data);
        assert(self@ =~= old(self)@ + seq![TAG_FIXEXT16, user_type as u8] + data@);
    }
}

/* The middle layer: one method per exactly-typed category. */

impl Encoder {
    #[inline]
    fn write_nil(&mut self)
        ensures
            final(self)@ == old(self)@ + enc_nil(),
    {
        self.write_tag(TAG_NIL);
    }

    #[inline]
    fn write_false(&mut self)
        ensures
            final(self)@ == old(self)@ + seq![TAG_FALSE],
    {
        self.write_tag(TAG_FALSE);
    }

    #[inline]
    fn write_true(&mut self)
        ensures
            final(self)@ == old(self)@ + seq![TAG_TRUE],
    {
        self.write_tag(TAG_TRUE);
    }

    #[inline]
    fn write_i8(&mut self, t: i8)
        ensures
            final(self)@ == old(self)@ + seq![
                TAG_INT8,
                (if t >= 0 {
                    t as u8
                } else {
                    (t + 0x100) as u8
                }),
            ],
    {
        self.write_tag(TAG_INT8);
        if t >= 0 {
            self.buf.push(t as u8);
        } else {
            self.buf.push(((t as i16) + 0x100) as u8);
        }
        assert(self@ =~= old(self)@ + seq![
            TAG_INT8,
            (if t >= 0 {
                t as u8
            } else {
                (t + 0x100) as u8
            }),
        ]);
    }

    #[inline]
    fn write_u8(&mut self, t: u8)
        ensures
            final(self)@ == old(self)@ + seq![TAG_UINT8, t],
    {
        self.write_tag(TAG_UINT8);
        self.buf.push(t);
        assert(self@ =~= old(self)@ + seq![TAG_UINT8, t]);
    }

    #[inline]
    fn write_i16(&mut self, t: i16)
        ensures
            final(self)@ == old(self)@ + seq![TAG_INT16] + be16(
                (if t >= 0 {
                    t as u16
                } else {
                    (t + 0x10000) as u16
                }),
            ),
    {
        self.write_tag(TAG_INT16);
        if t >= 0 {
            self.write_be16(t as u16);
        } else {
            self.write_be16(((t as i32) + 0x10000) as u16);
        }
    }

    #[inline]
    fn write_u16(&mut self, t: u16)
        ensures
            final(self)@ == old(self)@ + seq![TAG_UINT16] + be16(t),
    {
        self.write_tag(TAG_UINT16);
        self.write_be16(t);
    }

    #[inline]
    fn write_i32(&mut self, t: i32)
        ensures
            final(self)@ == old(self)@ + seq![TAG_INT32] + be32(
                (if t >= 0 {
                    t as u32
                } else {
                    (t + 0x100000000) as u32
                }),
            ),
    {
        self.write_tag(TAG_INT32);
        if t >= 0 {
            self.write_be32(t as u32);
        } else {
            self.write_be32(((t as i64) + 0x100000000) as u32);
        }
    }

    #[inline]
    fn write_u32(&mut self, t: u32)
        ensures
            final(self)@ == old(self)@ + seq![TAG_UINT32] + be32(t),
    {
        self.write_tag(TAG_UINT32);
        self.write_be32(t);
    }

    #[inline]
    fn write_i64(&mut self, t: i64)
        ensures
            final(self)@ == old(self)@ + seq![TAG_INT64] + be64(
                (if t >= 0 {
                    t as u64
                } else {
                    (t + 0x10000000000000000) as u64
                }),
            ),
    {
        self.write_tag(TAG_INT64);
        if t >= 0 {
            self.write_be64(t as u64);
        } else {
            self.write_be64(((t as i128) + 0x10000000000000000) as u64);
        }
    }

    #[inline]
    fn write_u64(&mut self, t: u64)
        ensures
            final(self)@ == old(self)@ + seq![TAG_UINT64] + be64(t),
    {
        self.write_tag(TAG_UINT64);
        self.write_be64(t);
    }
}

/* The high layer: minimal-size selection, specified against the wire
model. */

impl Encoder {
    /// Writes an unsigned integer using the least number of bytes possible.
    pub fn write_uint(&mut self, t: u64)
        ensures
            final(self)@ == old(self)@ + enc_uint(t),
    {
        if t < 128 {
            self.write_fix_num(t as u8);
        } else if t < 256 {
            self.write_u8(t as u8);
        } else if t < 65536 {
            self.write_u16(t as u16);
        } else if t < 4294967296 {
            self.write_u32(t as u32);
        } else {
            self.write_u64(t);
        }
        assert(self@ =~= old(self)@ + enc_uint(t));
    }

    /// Writes a signed integer using the least number of bytes possible.
    /// A value of zero or greater is encoded on the wire as an unsigned
    /// number; this asymmetry is part of the format's minimal-size policy,
    /// and round trips as `Unsigned`, not `Signed`.  The one value below
    /// the stated Int64 boundary, `i64::MIN`, is refused with `WontFit`.
    pub fn write_int(&mut self, t: i64) -> (r: Result<(), EncodeError>)
        ensures
            t != i64::MIN ==> r == Ok::<(), EncodeError>(()) && final(self)@ == old(self)@ + enc_int(t),
            t == i64::MIN ==> r == Err::<(), EncodeError>(EncodeError::WontFit) && final(self)@ == old(
                self,
            )@,
    {
        if t >= 0 {
            self.write_uint(t as u64);
            Ok(())
        } else if t >= -15 {
            self.write_fix_neg(t as i8);
            Ok(())
        } else if t >= -127 {
            self.write_i8(t as i8);
            Ok(())
        } else if t >= -32767 {
            self.write_i16(t as i16);
            Ok(())
        } else if t >= -2147483647 {
            self.write_i32(t as i32);
            Ok(())
        } else if t > i64::MIN {
            self.write_i64(t);
            Ok(())
        } else {
            Err(EncodeError::WontFit)
        }
    }

    /// Writes a boolean as the one-byte `true` or `false` tag.
    #[inline]
    pub fn write_bool(&mut self, t: bool)
        ensures
            final(self)@ == old(self)@ + enc_bool(t),
    {
        if t {
            self.write_true();
        } else {
            self.write_false();
        }
    }

    /// Writes a 32-bit float given as its raw IEEE-754 bit pattern:
    /// the Float32 tag, then the four bytes of the pattern, big-endian.
    pub fn write_f32_bits(&mut self, bits: u32)
        ensures
            final(self)@ == old(self)@ + enc_float32(bits),
    {
        self.write_tag(TAG_FLOAT32);
        self.write_be32(bits);
    }

    /// Writes a 64-bit float given as its raw IEEE-754 bit pattern.
    pub fn write_f64_bits(&mut self, bits: u64)
        ensures
            final(self)@ == old(self)@ + enc_float64(bits),
    {
        self.write_tag(TAG_FLOAT64);
        self.write_be64(bits);
    }

    /// Writes a UTF-8 string under the smallest possible string header:
    /// fixstr up to 31 bytes, then Str8, Str16, Str32.  Input longer than
    /// the 32-bit band is refused with `WontFit`.
    pub fn write_str(&mut self, t: &str) -> (r: Result<(), EncodeError>)
        ensures
            encode_utf8(t@).len() <= 0xFFFFFFFF ==> r == Ok::<(), EncodeError>(()) && final(self)@ == old(
                self,
            )@ + enc_str(encode_utf8(t@)),
            encode_utf8(t@).len() > 0xFFFFFFFF ==> r == Err::<(), EncodeError>(
                EncodeError::WontFit,
            ) && final(self)@ == old(self)@,
    {
        let x = t.as_bytes().len();
        if x <= 31 {
            self.write_str_fix(t);
            Ok(())
        } else if x <= 255 {
            self.write_str8(t);
            assert(self@ =~= old(self)@ + enc_str(encode_utf8(t@)));
            Ok(())
        } else if x <= 65535 {
            self.write_str16(t);
            assert(self@ =~= old(self)@ + enc_str(encode_utf8(t@)));
            Ok(())
        } else if x as u64 <= 4294967295 {
            self.write_str32(t);
            assert(self@ =~= old(self)@ + enc_str(encode_utf8(t@)));
            Ok(())
        } else {
            Err(EncodeError::WontFit)
        }
    }

    /// Writes a byte blob under the smallest possible binary header:
    /// Bin8, Bin16 or Bin32 (binary has no tag-embedded fixed form).
    /// Input longer than the 32-bit band is refused with `WontFit`.
    pub fn write_bin(&mut self, t: &[u8]) -> (r: Result<(), EncodeError>)
        ensures
            t@.len() <= 0xFFFFFFFF ==> r == Ok::<(), EncodeError>(()) && final(self)@ == old(self)@
                + enc_bin(t@),
            t@.len() > 0xFFFFFFFF ==> r == Err::<(), EncodeError>(EncodeError::WontFit) && final(self)@
                == old(self)@,
    {
        let x = t.len();
        if x <= 255 {
            self.write_bin8(t);
            assert(self@ =~= old(self)@ + enc_bin(t@));
            Ok(())
        } else if x <= 65535 {
            self.write_bin16(t);
            assert(self@ =~= old(self)@ + enc_bin(t@));
            Ok(())
        } else if x as u64 <= 4294967295 {
            self.write_bin32(t);
            assert(self@ =~= old(self)@ + enc_bin(t@));
            Ok(())
        } else {
            Err(EncodeError::WontFit)
        }
    }

    /// Writes an extension block.  A negative `type_code` is reserved by
    /// the format and refused with `TypeReserved` before anything is
    /// written.  Payloads of exactly 1, 2, 4, 8 or 16 bytes take the
    /// matching Fixext form; other lengths the smallest Ext band; lengths
    /// over the 32-bit band are refused with `WontFit`.
    pub fn write_ext(&mut self, type_code: i8, t: &[u8]) -> (r: Result<(), EncodeError>)
        ensures
            type_code < 0 ==> r == Err::<(), EncodeError>(EncodeError::TypeReserved) && final(self)@
                == old(self)@,
            type_code >= 0 && t@.len() <= 0xFFFFFFFF ==> r == Ok::<(), EncodeError>(()) && final(self)@
                == old(self)@ + enc_ext(type_code, t@),
            type_code >= 0 && t@.len() > 0xFFFFFFFF ==> r == Err::<(), EncodeError>(
                EncodeError::WontFit,
            ) && final(self)@ == old(self)@,
    {
        if type_code < 0 {
            return Err(EncodeError::TypeReserved);
        }
        let x = t.len();
        if x == 1 {
            self.write_fixext1(type_code, *slice_index_get(t, 0));
            assert(self@ =~= old(self)@ + enc_ext(type_code, t@));
            Ok(())
        } else if x == 2 {
            self.write_fixext2(type_code, t);
            Ok(())
        } else if x == 4 {
            self.write_fixext4(type_code, t);
            Ok(())
        } else if x == 8 {
            self.write_fixext8(type_code, t);
            Ok(())
        } else if x == 16 {
            self.write_fixext16(type_code, t);
            Ok(())
        } else if x <= 255 {
            self.write_ext8(type_code, t);
            Ok(())
        } else if x <= 65535 {
            self.write_ext16(type_code, t);
            assert(self@ =~= old(self)@ + enc_ext(type_code, t@));
            Ok(())
        } else if x as u64 <= 4294967295 {
            self.write_ext32(type_code, t);
            assert(self@ =~= old(self)@ + enc_ext(type_code, t@));
            Ok(())
        } else {
            Err(EncodeError::WontFit)
        }
    }
}

/* The capability interface: how application types hand themselves to the
encoder. */

/// A type that knows how to hand itself to an `Encoder`.  The two spec
/// methods say what the type's wire form is and when encoding it succeeds;
/// `encode` promises to append exactly that form.
pub trait Encodable {
    /// The wire bytes this value encodes to, when encoding succeeds.
    spec fn enc(&self) -> Seq<u8>;

    /// Whether encoding this value succeeds.
    spec fn enc_ok(&self) -> bool;

    /// The error reported when encoding this value fails.
    spec fn enc_err(&self) -> EncodeError;

    /// Performs the necessary encoding on the given destination.  On
    /// failure the destination may hold a partial prefix of the form;
    /// callers must not assume stream integrity after a failed encode.
    fn encode(&self, destination: &mut Encoder) -> (r: Result<(), EncodeError>)
        ensures
            r is Ok <==> self.enc_ok(),
            r is Ok ==> final(destination)@ == old(destination)@ + self.enc(),
            r matches Err(e) ==> e == self.enc_err(),
    ;
}

impl Encodable for u64 {
    open spec fn enc(&self) -> Seq<u8> {
        enc_uint(*self)
    }

    open spec fn enc_ok(&self) -> bool {
        true
    }

    open spec fn enc_err(&self) -> EncodeError {
        EncodeError::WontFit
    }

    fn encode(&self, destination: &mut Encoder) -> (r: Result<(), EncodeError>) {
        destination.write_uint(*self);
        Ok(())
    }
}

impl Encodable for i64 {
    open spec fn enc(&self) -> Seq<u8> {
        enc_int(*self)
    }

    open spec fn enc_ok(&self) -> bool {
        *self != i64::MIN
    }

    open spec fn enc_err(&self) -> EncodeError {
        EncodeError::WontFit
    }

    fn encode(&self, destination: &mut Encoder) -> (r: Result<(), EncodeError>) {
        destination.write_int(*self)
    }
}

impl Encodable for bool {
    open spec fn enc(&self) -> Seq<u8> {
        enc_bool(*self)
    }

    open spec fn enc_ok(&self) -> bool {
        true
    }

    open spec fn enc_err(&self) -> EncodeError {
        EncodeError::WontFit
    }

    fn encode(&self, destination: &mut Encoder) -> (r: Result<(), EncodeError>) {
        destination.write_bool(*self);
        Ok(())
    }
}

impl Encodable for String {
    open spec fn enc(&self) -> Seq<u8> {
        enc_str(encode_utf8(self@))
    }

    open spec fn enc_ok(&self) -> bool {
        encode_utf8(self@).len() <= 0xFFFFFFFF
    }

    open spec fn enc_err(&self) -> EncodeError {
        EncodeError::WontFit
    }

    fn encode(&self, destination: &mut Encoder) -> (r: Result<(), EncodeError>) {
        destination.write_str(self.as_str())
    }
}

/// A pair encodes as its two halves in order; a map is a sequence of such
/// pairs.
impl<K: Encodable, V: Encodable> Encodable for (K, V) {
    open spec fn enc(&self) -> Seq<u8> {
        self.0.enc() + self.1.enc()
    }

    open spec fn enc_ok(&self) -> bool {
        self.0.enc_ok() && self.1.enc_ok()
    }

    open spec fn enc_err(&self) -> EncodeError {
        if !self.0.enc_ok() {
            self.0.enc_err()
        } else {
            self.1.enc_err()
        }
    }

    fn encode(&self, destination: &mut Encoder) -> (r: Result<(), EncodeError>) {
        match self.0.encode(destination) {
            Ok(()) => self.1.encode(destination),
            Err(e) => Err(e),
        }
    }
}

/* Wire form of a slice of encodable values. */

/// The concatenated wire forms of the elements.
pub open spec fn seq_enc<T: Encodable>(s: Seq<T>) -> Seq<u8>
    decreases s.len(),
{
    if s.len() == 0 {
        Seq::empty()
    } else {
        s[0].enc() + seq_enc(s.subrange(1, s.len() as int))
    }
}

/// Whether every element encodes.
pub open spec fn seq_enc_ok<T: Encodable>(s: Seq<T>) -> bool {
    forall|i: int| 0 <= i < s.len() ==> (#[trigger] s[i]).enc_ok()
}

/// The error of the first element that does not encode.
pub open spec fn seq_enc_err<T: Encodable>(s: Seq<T>) -> EncodeError
    recommends
        !seq_enc_ok(s),
    decreases s.len(),
{
    if s.len() == 0 {
        EncodeError::WontFit
    } else if !s[0].enc_ok() {
        s[0].enc_err()
    } else {
        seq_enc_err(s.subrange(1, s.len() as int))
    }
}

/// Encoding one more element appends that element's wire form.
pub proof fn lemma_seq_enc_push<T: Encodable>(s: Seq<T>, v: T)
    ensures
        seq_enc(s.push(v)) == seq_enc(s) + v.enc(),
    decreases s.len(),
{
    if s.len() == 0 {
        assert(s.push(v)[0] == v);
        assert(s.push(v).subrange(1, 1) =~= Seq::<T>::empty());
        assert(seq_enc(Seq::<T>::empty()) == Seq::<u8>::empty());
        assert(seq_enc(s.push(v)) == v.enc() + Seq::<u8>::empty());
        assert(seq_enc(s.push(v)) =~= seq_enc(s) + v.enc());
    } else {
        assert(s.push(v)[0] == s[0]);
        assert(s.push(v).subrange(1, s.push(v).len() as int) =~= s.subrange(
            1,
            s.len() as int,
        ).push(v));
        lemma_seq_enc_push(s.subrange(1, s.len() as int), v);
        assert(s[0].enc() + (seq_enc(s.subrange(1, s.len() as int)) + v.enc()) =~= (s[0].enc()
            + seq_enc(s.subrange(1, s.len() as int))) + v.enc());
    }
}

/// When the first `i` elements encode and the `i`-th does not, the slice's
/// reported error is the `i`-th element's.
pub proof fn lemma_seq_enc_err_at<T: Encodable>(s: Seq<T>, i: int)
    requires
        0 <= i < s.len(),
        forall|j: int| 0 <= j < i ==> (#[trigger] s[j]).enc_ok(),
        !s[i].enc_ok(),
    ensures
        !seq_enc_ok(s),
        seq_enc_err(s) == s[i].enc_err(),
    decreases i,
{
    if i > 0 {
        assert(forall|j: int|
            0 <= j < i - 1 ==> #[trigger] s.subrange(1, s.len() as int)[j] == s[j + 1]);
        lemma_seq_enc_err_at(s.subrange(1, s.len() as int), i - 1);
    }
}

impl Encoder {
    /// Writes an `Encodable` value: delegates entirely to the value's own
    /// `encode`.
    #[inline]
    pub fn write<T: Encodable>(&mut self, t: &T) -> (r: Result<(), EncodeError>)
        ensures
            r is Ok <==> t.enc_ok(),
            r is Ok ==> final(self)@ == old(self)@ + t.enc(),
            r matches Err(e) ==> e == t.enc_err(),
    {
        t.encode(self)
    }

    /// Writes an optional value: the one-byte Nil tag when absent, the
    /// value's own encoding otherwise.
    pub fn write_option<T: Encodable>(&mut self, t: &Option<T>) -> (r: Result<(), EncodeError>)
        ensures
            t is None ==> r == Ok::<(), EncodeError>(()) && final(self)@ == old(self)@ + enc_nil(),
            t matches Some(x) ==> {
                &&& r is Ok <==> x.enc_ok()
                &&& r is Ok ==> final(self)@ == old(self)@ + x.enc()
                &&& r matches Err(e) ==> e == x.enc_err()
            },
    {
        match t {
            Option::Some(x) => x.encode(self),
            Option::None => {
                self.write_nil();
                Ok(())
            },
        }
    }

    /// Writes a slice as a MessagePack array: the smallest array header
    /// that holds the element count (fixarray covers 0 to 15), then every
    /// element in order.  A count over the 32-bit band is refused with
    /// `WontFit` before anything is written; a failing element stops the
    /// pass with that element's error, leaving the prefix written.
    pub fn write_array<T: Encodable>(&mut self, t: &[T]) -> (r: Result<(), EncodeError>)
        ensures
            t@.len() > 0xFFFFFFFF ==> r == Err::<(), EncodeError>(EncodeError::WontFit) && final(self)@ == old(self)@,
            t@.len() <= 0xFFFFFFFF && seq_enc_ok(t@) ==> r == Ok::<(), EncodeError>(()) && final(self)@ == old(self)@ + enc_array_header(t@.len() as nat) + seq_enc(t@),
            t@.len() <= 0xFFFFFFFF && !seq_enc_ok(t@) ==> r == Err::<(), EncodeError>(
                seq_enc_err(t@),
            ),
    {
        let x = t.len();
        if x <= 15 {
            self.write_array8(x as u8);
        } else if x <= 65535 {
            self.write_array16(x as u16);
        } else if x as u64 <= 4294967295 {
            self.write_array32(x as u32);
        } else {
            return Err(EncodeError::WontFit);
        }
        assert(self@ =~= old(self)@ + enc_array_header(t@.len() as nat));
        let ghost buf0 = old(self)@ + enc_array_header(t@.len() as nat);
        let mut i: usize = 0;
        while i < t.len()
            invariant
                i <= t@.len(),
                t@.len() <= 0xFFFFFFFF,
                forall|j: int| 0 <= j < i ==> (#[trigger] t@[j]).enc_ok(),
                self@ == buf0 + seq_enc(t@.subrange(0, i as int)),
            decreases t@.len() - i,
        {
            let e = slice_index_get(t, i);
            match e.encode(self) {
                Ok(()) => {},
                Err(err) => {
                    proof {
                        lemma_seq_enc_err_at(t@, i as int);
                    }
                    return Err(err);
                },
            }
            proof {
                lemma_seq_enc_push(t@.subrange(0, i as int), t@[i as int]);
                assert(t@.subrange(0, i + 1 as int) =~= t@.subrange(0, i as int).push(
                    t@[i as int],
                ));
            }
            i += 1;
        }
        assert(t@.subrange(0, t@.len() as int) =~= t@);
        Ok(())
    }

    /// Writes a slice of pairs as a MessagePack map: the smallest map
    /// header that holds the pair count (fixmap covers 0 to 15), then
    /// every key and value in order.  Failure behaves as for arrays.
    pub fn write_map<K: Encodable, V: Encodable>(&mut self, t: &[(K, V)]) -> (r: Result<
        (),
        EncodeError,
    >)
        ensures
            t@.len() > 0xFFFFFFFF ==> r == Err::<(), EncodeError>(EncodeError::WontFit) && final(self)@ == old(self)@,
            t@.len() <= 0xFFFFFFFF && seq_enc_ok(t@) ==> r == Ok::<(), EncodeError>(()) && final(self)@ == old(self)@ + enc_map_header(t@.len() as nat) + seq_enc(t@),
            t@.len() <= 0xFFFFFFFF && !seq_enc_ok(t@) ==> r == Err::<(), EncodeError>(
                seq_enc_err(t@),
            ),
    {
        let x = t.len();
        if x <= 15 {
            self.write_map_fix(x as u8);
        } else if x <= 65535 {
            self.write_map16(x as u16);
        } else if x as u64 <= 4294967295 {
            self.write_map32(x as u32);
        } else {
            return Err(EncodeError::WontFit);
        }
        assert(self@ =~= old(self)@ + enc_map_header(t@.len() as nat));
        let ghost buf0 = old(self)@ + enc_map_header(t@.len() as nat);
        let mut i: usize = 0;
        while i < t.len()
            invariant
                i <= t@.len(),
                t@.len() <= 0xFFFFFFFF,
                forall|j: int| 0 <= j < i ==> (#[trigger] t@[j]).enc_ok(),
                self@ == buf0 + seq_enc(t@.subrange(0, i as int)),
            decreases t@.len() - i,
        {
            let e = slice_index_get(t, i);
            match e.encode(self) {
                Ok(()) => {},
                Err(err) => {
                    proof {
                        lemma_seq_enc_err_at(t@, i as int);
                    }
                    return Err(err);
                },
            }
            proof {
                lemma_seq_enc_push(t@.subrange(0, i as int), t@[i as int]);
                assert(t@.subrange(0, i + 1 as int) =~= t@.subrange(0, i as int).push(
                    t@[i as int],
                ));
            }
            i += 1;
        }
        assert(t@.subrange(0, t@.len() as int) =~= t@);
        Ok(())
    }
}

impl Encoder {
    /// Writes a whole decoded value tree back to the wire, recursively.
    /// Succeeds exactly when every node is encodable (`enc_ok`), appending
    /// exactly the tree's wire form; fails with the first offending node's
    /// error, possibly leaving a partial prefix written.
    #[verifier::loop_isolation(false)]
    #[verifier::rlimit(60)]
    pub fn write_value(&mut self, v: &DecodedValue) -> (r: Result<(), EncodeError>)
        ensures
            r is Ok <==> crate::wire::enc_ok(v@),
            r is Ok ==> final(self)@ == old(self)@ + enc_value(v@),
            r matches Err(e) ==> e == enc_value_err(v@),
        decreases v,
    {
        match v {
            DecodedValue::Nil => {
                self.write_nil();
                Ok(())
            },
            DecodedValue::Boolean(b) => {
                self.write_bool(*b);
                Ok(())
            },
            DecodedValue::Unsigned(u) => {
                self.write_uint(*u);
                Ok(())
            },
            DecodedValue::Signed(i) => self.write_int(*i),
            DecodedValue::Float32(bits) => {
                self.write_f32_bits(*bits);
                Ok(())
            },
            DecodedValue::Float64(bits) => {
                self.write_f64_bits(*bits);
                Ok(())
            },
            DecodedValue::String(s) => self.write_str(s.as_str()),
            DecodedValue::Binary(b) => self.write_bin(b.as_slice()),
            DecodedValue::Extension(code, data) => self.write_ext(*code, data.as_slice()),
            DecodedValue::Array(es) => {
                let n = es.len();
                proof {
                    lemma_values_view_props(es@);
                }
                if n <= 15 {
                    self.write_array8(n as u8);
                } else if n <= 65535 {
                    self.write_array16(n as u16);
                } else if n as u64 <= 4294967295 {
                    self.write_array32(n as u32);
                } else {
                    return Err(EncodeError::WontFit);
                }
                assert(self@ =~= old(self)@ + enc_array_header(es@.len() as nat));
                let ghost buf0 = old(self)@ + enc_array_header(es@.len() as nat);
                let mut i: usize = 0;
                while i < es.len()
                    invariant
                        i <= es@.len(),
                        es@.len() <= 0xFFFFFFFF,
                        forall|j: int|
                            0 <= j < i ==> crate::wire::enc_ok(
                                value_view(#[trigger] es@[j]),
                            ),
                        self@ == buf0 + enc_values(values_view(es@.subrange(0, i as int))),
                    decreases es@.len() - i,
                {
                    let e = &es[i];
                    proof {
                        assert(decreases_to!(*v => v->Array_0));
                        assert(v->Array_0 == *es);
                        assert(decreases_to!(*es => es@));
                        assert(decreases_to!(es@ => es@[i as int]));
                    }
                    match self.write_value(e) {
                        Ok(()) => {},
                        Err(err) => {
                            proof {
                                lemma_values_view_props(es@);
                                assert(v@ == Value::Array(values_view(es@)));
                                assert forall|j: int|
                                    0 <= j < i implies crate::wire::enc_ok(
                                    #[trigger] values_view(es@)[j],
                                ) by {}
                                lemma_values_enc_err_at(values_view(es@), i as int);
                            }
                            return Err(err);
                        },
                    }
                    proof {
                        lemma_values_view_props(es@.subrange(0, i as int));
                        lemma_values_view_props(es@.subrange(0, i + 1 as int));
                        lemma_enc_values_push(
                            values_view(es@.subrange(0, i as int)),
                            value_view(es@[i as int]),
                        );
                        assert(values_view(es@.subrange(0, i + 1 as int)) =~= values_view(
                            es@.subrange(0, i as int),
                        ).push(value_view(es@[i as int])));
                    }
                    i += 1;
                }
                proof {
                    assert(es@.subrange(0, es@.len() as int) =~= es@);
                    lemma_values_view_props(es@);
                    lemma_values_enc_ok_iff(values_view(es@));
                }
                Ok(())
            },
            DecodedValue::Mapping(ps) => {
                let n = ps.len();
                proof {
                    lemma_entries_view_props(ps@);
                }
                if n <= 15 {
                    self.write_map_fix(n as u8);
                } else if n <= 65535 {
                    self.write_map16(n as u16);
                } else if n as u64 <= 4294967295 {
                    self.write_map32(n as u32);
                } else {
                    return Err(EncodeError::WontFit);
                }
                assert(self@ =~= old(self)@ + enc_map_header(ps@.len() as nat));
                let ghost buf0 = old(self)@ + enc_map_header(ps@.len() as nat);
                let mut i: usize = 0;
                while i < ps.len()
                    invariant
                        i <= ps@.len(),
                        ps@.len() <= 0xFFFFFFFF,
                        forall|j: int|
                            0 <= j < i ==> crate::wire::enc_ok(
                                value_view((#[trigger] ps@[j]).0),
                            ) && crate::wire::enc_ok(value_view(ps@[j].1)),
                        self@ == buf0 + enc_entries(entries_view(ps@.subrange(0, i as int))),
                    decreases ps@.len() - i,
                {
                    let p = &ps[i];
                    proof {
                        assert(decreases_to!(*v => v->Mapping_0));
                        assert(v->Mapping_0 == *ps);
                        assert(decreases_to!(*ps => ps@));
                        assert(decreases_to!(ps@ => ps@[i as int]));
                        assert(decreases_to!(ps@[i as int] => ps@[i as int].0));
                        assert(decreases_to!(ps@[i as int] => ps@[i as int].1));
                    }
                    match self.write_value(&p.0) {
                        Ok(()) => {},
                        Err(err) => {
                            proof {
                                lemma_entries_view_props(ps@);
                                assert(v@ == Value::Mapping(entries_view(ps@)));
                                assert forall|j: int|
                                    0 <= j < i implies crate::wire::enc_ok(
                                    (#[trigger] entries_view(ps@)[j]).0,
                                ) && crate::wire::enc_ok(entries_view(ps@)[j].1) by {}
                                lemma_entries_enc_err_at(entries_view(ps@), i as int);
                            }
                            return Err(err);
                        },
                    }
                    match self.write_value(&p.1) {
                        Ok(()) => {},
                        Err(err) => {
                            proof {
                                lemma_entries_view_props(ps@);
                                assert(v@ == Value::Mapping(entries_view(ps@)));
                                assert forall|j: int|
                                    0 <= j < i implies crate::wire::enc_ok(
                                    (#[trigger] entries_view(ps@)[j]).0,
                                ) && crate::wire::enc_ok(entries_view(ps@)[j].1) by {}
                                lemma_entries_enc_err_at(entries_view(ps@), i as int);
                            }
                            return Err(err);
                        },
                    }
                    proof {
                        lemma_entries_view_props(ps@.subrange(0, i as int));
                        lemma_entries_view_props(ps@.subrange(0, i + 1 as int));
                        lemma_enc_entries_push(
                            entries_view(ps@.subrange(0, i as int)),
                            (value_view(ps@[i as int].0), value_view(ps@[i as int].1)),
                        );
                        assert(entries_view(ps@.subrange(0, i + 1 as int)) =~= entries_view(
                            ps@.subrange(0, i as int),
                        ).push((value_view(ps@[i as int].0), value_view(ps@[i as int].1))));
                    }
                    i += 1;
                }
                proof {
                    assert(ps@.subrange(0, ps@.len() as int) =~= ps@);
                    lemma_entries_view_props(ps@);
                    lemma_entries_enc_ok_iff(entries_view(ps@));
                }
                Ok(())
            },
        }
    }
}

/// A decoded value hands itself back to the encoder through `write_value`.
impl Encodable for DecodedValue {
    open spec fn enc(&self) -> Seq<u8> {
        enc_value(self@)
    }

    open spec fn enc_ok(&self) -> bool {
        crate::wire::enc_ok(self@)
    }

    open spec fn enc_err(&self) -> EncodeError {
        enc_value_err(self@)
    }

    fn encode(&self, destination: &mut Encoder) -> (r: Result<(), EncodeError>) {
        destination.write_value(self)
    }
}

} // verus!
