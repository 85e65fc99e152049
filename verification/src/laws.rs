//! The laws that tie the encoder and the decoder together.
//!
//! Round trip: reading back what the encoder wrote yields the original
//! value and consumes exactly its wire form, for every encodable value in
//! decoded shape, in front of any trailing bytes.  In particular the two
//! sides agree on every tag value and every size boundary.
//!
//! Minimality: the wire form of every category has exactly the length of
//! the smallest legal form that can hold the value, band by band.

use vstd::prelude::*;
use vstd::utf8::{encode_utf8, encode_utf8_decode_utf8, encode_utf8_valid_utf8};

use crate::value::Value;
use crate::wire::{
    be16, be32, be64, canonical, dec_entries, dec_value, dec_values, enc_array_header, enc_bin, enc_bool, enc_entries, enc_ext, enc_float32, enc_float64, enc_int, enc_map_header,
    enc_nil, enc_ok, enc_str, enc_uint, enc_value, enc_values, entries_canonical, entries_enc_ok,
    entries_depth, lemma_be16_val_of_be16, lemma_be32_val_of_be32, lemma_be64_val_of_be64,
    lemma_enc_value_nonempty, signed8_val, value_depth, values_canonical, values_depth,
    values_enc_ok, DecodeError,
};

verus! {

// ------------------------------------------------------------------
// Minimality: exact wire lengths, band by band.
// ------------------------------------------------------------------

/// The encoded length of an unsigned integer is the smallest legal wire
/// length for its value: the legal forms are the 7-bit fixed form (one
/// byte, values below 128) and Uint8/16/32/64 (2, 3, 5, 9 bytes), and the
/// encoder takes the first form whose range covers the value.
pub proof fn lemma_uint_minimal(v: u64)
    ensures
        enc_uint(v).len() == if v < 0x80 {
            1int
        } else if v <= 0xFF {
            2int
        } else if v <= 0xFFFF {
            3int
        } else if v <= 0xFFFFFFFF {
            5int
        } else {
            9int
        },
{
}

/// The encoded length of a signed integer is the smallest legal wire
/// length under the encoder's stated bands: non-negative values take the
/// unsigned forms; negative values take the 5-bit fixed form down to -15,
/// then Int8 (to -127), Int16 (to -32767), Int32 (to -2147483647), Int64.
pub proof fn lemma_int_minimal(v: i64)
    requires
        v != i64::MIN,
    ensures
        enc_int(v).len() == if v >= 0 {
            enc_uint(v as u64).len() as int
        } else if v >= -15 {
            1int
        } else if v >= -127 {
            2int
        } else if v >= -32767 {
            3int
        } else if v >= -2147483647 {
            5int
        } else {
            9int
        },
{
}

/// The encoded length of a string of `n` payload bytes is `n` plus the
/// smallest legal header: fixstr (1 byte) up to 31, Str8 (2) up to 255,
/// Str16 (3) up to 65535, Str32 (5).
pub proof fn lemma_str_minimal(bs: Seq<u8>)
    requires
        bs.len() <= 0xFFFFFFFF,
    ensures
        enc_str(bs).len() == bs.len() + if bs.len() <= 31 {
            1int
        } else if bs.len() <= 0xFF {
            2int
        } else if bs.len() <= 0xFFFF {
            3int
        } else {
            5int
        },
{
}

/// The encoded length of a byte blob of `n` bytes is `n` plus the
/// smallest legal header; binary has no fixed form, so Bin8 (2 bytes) is
/// the smallest.
pub proof fn lemma_bin_minimal(bs: Seq<u8>)
    requires
        bs.len() <= 0xFFFFFFFF,
    ensures
        enc_bin(bs).len() == bs.len() + if bs.len() <= 0xFF {
            2int
        } else if bs.len() <= 0xFFFF {
            3int
        } else {
            5int
        },
{
}

/// The encoded length of an extension block: the Fixext forms (2-byte
/// header, payload lengths exactly 1, 2, 4, 8 or 16) beat Ext8 (3-byte
/// header), then Ext16 (4) and Ext32 (6) by band.
pub proof fn lemma_ext_minimal(code: i8, bs: Seq<u8>)
    requires
        code >= 0,
        bs.len() <= 0xFFFFFFFF,
    ensures
        enc_ext(code, bs).len() == bs.len() + if bs.len() == 1 || bs.len() == 2 || bs.len() == 4
            || bs.len() == 8 || bs.len() == 16 {
            2int
        } else if bs.len() <= 0xFF {
            3int
        } else if bs.len() <= 0xFFFF {
            4int
        } else {
            6int
        },
{
}

/// The array header is the smallest legal one: fixarray (1 byte) for
/// counts 0 to 15, Array16 (3 bytes) to 65535, Array32 (5 bytes).
pub proof fn lemma_array_header_minimal(n: nat)
    requires
        n <= 0xFFFFFFFF,
    ensures
        enc_array_header(n).len() == if n <= 15 {
            1int
        } else if n <= 0xFFFF {
            3int
        } else {
            5int
        },
{
}

/// The map header is the smallest legal one: fixmap (1 byte) for counts 0
/// to 15, Map16 (3 bytes) to 65535, Map32 (5 bytes).
pub proof fn lemma_map_header_minimal(n: nat)
    requires
        n <= 0xFFFFFFFF,
    ensures
        enc_map_header(n).len() == if n <= 15 {
            1int
        } else if n <= 0xFFFF {
            3int
        } else {
            5int
        },
{
}

// ------------------------------------------------------------------
// Round trip, category by category.
// ------------------------------------------------------------------

/// Reading back an encoded unsigned integer yields it as `Unsigned` and
/// consumes exactly its wire form.
#[verifier::rlimit(80)]
pub proof fn lemma_round_trip_uint(v: u64, rest: Seq<u8>, d: nat)
    ensures
        dec_value(enc_uint(v) + rest, d) == Ok::<(Value, Seq<u8>), DecodeError>(
            (Value::Unsigned(v), rest),
        ),
{
    let s = enc_uint(v) + rest;
    if v < 0x80 {
        assert(s.subrange(1, s.len() as int) =~= rest);
    } else if v <= 0xFF {
        let r = s.subrange(1, s.len() as int);
        assert(r =~= seq![v as u8] + rest);
        assert(r.subrange(1, r.len() as int) =~= rest);
    } else if v <= 0xFFFF {
        let r = s.subrange(1, s.len() as int);
        assert(r =~= be16(v as u16) + rest);
        assert(r.subrange(0, 2) =~= be16(v as u16));
        lemma_be16_val_of_be16(v as u16);
        assert(r.subrange(2, r.len() as int) =~= rest);
    } else if v <= 0xFFFFFFFF {
        let r = s.subrange(1, s.len() as int);
        assert(r =~= be32(v as u32) + rest);
        assert(r.subrange(0, 4) =~= be32(v as u32));
        lemma_be32_val_of_be32(v as u32);
        assert(r.subrange(4, r.len() as int) =~= rest);
    } else {
        let r = s.subrange(1, s.len() as int);
        assert(r =~= be64(v) + rest);
        assert(r.subrange(0, 8) =~= be64(v));
        lemma_be64_val_of_be64(v);
        assert(r.subrange(8, r.len() as int) =~= rest);
    }
}

/// Reading back an encoded negative integer yields it as `Signed` and
/// consumes exactly its wire form.
#[verifier::rlimit(80)]
pub proof fn lemma_round_trip_int(v: i64, rest: Seq<u8>, d: nat)
    requires
        v < 0,
        v != i64::MIN,
    ensures
        dec_value(enc_int(v) + rest, d) == Ok::<(Value, Seq<u8>), DecodeError>(
            (Value::Signed(v), rest),
        ),
{
    let s = enc_int(v) + rest;
    if v >= -15 {
        assert(s[0] == (v + 0x100) as u8);
        assert(s[0] >= 0xE0);
        assert(s.subrange(1, s.len() as int) =~= rest);
    } else if v >= -127 {
        let r = s.subrange(1, s.len() as int);
        assert(r =~= seq![(v + 0x100) as u8] + rest);
        assert(r.subrange(1, r.len() as int) =~= rest);
    } else if v >= -32767 {
        let r = s.subrange(1, s.len() as int);
        let x = (v + 0x10000) as u16;
        assert(r =~= be16(x) + rest);
        assert(r.subrange(0, 2) =~= be16(x));
        lemma_be16_val_of_be16(x);
        assert(r.subrange(2, r.len() as int) =~= rest);
    } else if v >= -2147483647 {
        let r = s.subrange(1, s.len() as int);
        let x = (v + 0x100000000) as u32;
        assert(r =~= be32(x) + rest);
        assert(r.subrange(0, 4) =~= be32(x));
        lemma_be32_val_of_be32(x);
        assert(r.subrange(4, r.len() as int) =~= rest);
    } else {
        let r = s.subrange(1, s.len() as int);
        let x = (v + 0x10000000000000000) as u64;
        assert(r =~= be64(x) + rest);
        assert(r.subrange(0, 8) =~= be64(x));
        lemma_be64_val_of_be64(x);
        assert(r.subrange(8, r.len() as int) =~= rest);
    }
}

/// Reading back an encoded 32-bit float yields its exact bit pattern.
pub proof fn lemma_round_trip_float32(bits: u32, rest: Seq<u8>, d: nat)
    ensures
        dec_value(enc_float32(bits) + rest, d) == Ok::<(Value, Seq<u8>), DecodeError>(
            (Value::Float32(bits), rest),
        ),
{
    let s = enc_float32(bits) + rest;
    let r = s.subrange(1, s.len() as int);
    assert(r =~= be32(bits) + rest);
    assert(r.subrange(0, 4) =~= be32(bits));
    lemma_be32_val_of_be32(bits);
    assert(r.subrange(4, r.len() as int) =~= rest);
}

/// Reading back an encoded 64-bit float yields its exact bit pattern.
pub proof fn lemma_round_trip_float64(bits: u64, rest: Seq<u8>, d: nat)
    ensures
        dec_value(enc_float64(bits) + rest, d) == Ok::<(Value, Seq<u8>), DecodeError>(
            (Value::Float64(bits), rest),
        ),
{
    let s = enc_float64(bits) + rest;
    let r = s.subrange(1, s.len() as int);
    assert(r =~= be64(bits) + rest);
    assert(r.subrange(0, 8) =~= be64(bits));
    lemma_be64_val_of_be64(bits);
    assert(r.subrange(8, r.len() as int) =~= rest);
}

/// Reading back an encoded string yields its exact characters: the
/// payload is the UTF-8 encoding of the text, which always validates.
#[verifier::rlimit(80)]
pub proof fn lemma_round_trip_str(cs: Seq<char>, rest: Seq<u8>, d: nat)
    requires
        encode_utf8(cs).len() <= 0xFFFFFFFF,
    ensures
        dec_value(enc_str(encode_utf8(cs)) + rest, d) == Ok::<(Value, Seq<u8>), DecodeError>(
            (Value::String(cs), rest),
        ),
{
    let bs = encode_utf8(cs);
    let n = bs.len() as int;
    encode_utf8_valid_utf8(cs);
    encode_utf8_decode_utf8(cs);
    let s = enc_str(bs) + rest;
    if n <= 31 {
        assert(s[0] == (0xA0 + n) as u8);
        let r = s.subrange(1, s.len() as int);
        assert(r =~= bs + rest);
        assert(r.subrange(0, n) =~= bs);
        assert(r.subrange(n, r.len() as int) =~= rest);
    } else if n <= 0xFF {
        let r = s.subrange(1, s.len() as int);
        assert(r =~= seq![n as u8] + bs + rest);
        let q = r.subrange(1, r.len() as int);
        assert(q =~= bs + rest);
        assert(q.subrange(0, n) =~= bs);
        assert(q.subrange(n, q.len() as int) =~= rest);
    } else if n <= 0xFFFF {
        let r = s.subrange(1, s.len() as int);
        assert(r =~= be16(n as u16) + bs + rest);
        assert(r.subrange(0, 2) =~= be16(n as u16));
        lemma_be16_val_of_be16(n as u16);
        let q = r.subrange(2, r.len() as int);
        assert(q =~= bs + rest);
        assert(q.subrange(0, n) =~= bs);
        assert(q.subrange(n, q.len() as int) =~= rest);
    } else {
        let r = s.subrange(1, s.len() as int);
        assert(r =~= be32(n as u32) + bs + rest);
        assert(r.subrange(0, 4) =~= be32(n as u32));
        lemma_be32_val_of_be32(n as u32);
        let q = r.subrange(4, r.len() as int);
        assert(q =~= bs + rest);
        assert(q.subrange(0, n) =~= bs);
        assert(q.subrange(n, q.len() as int) =~= rest);
    }
}

/// Reading back an encoded byte blob yields its exact bytes.
#[verifier::rlimit(80)]
pub proof fn lemma_round_trip_bin(bs: Seq<u8>, rest: Seq<u8>, d: nat)
    requires
        bs.len() <= 0xFFFFFFFF,
    ensures
        dec_value(enc_bin(bs) + rest, d) == Ok::<(Value, Seq<u8>), DecodeError>(
            (Value::Binary(bs), rest),
        ),
{
    let n = bs.len() as int;
    let s = enc_bin(bs) + rest;
    if n <= 0xFF {
        let r = s.subrange(1, s.len() as int);
        assert(r =~= seq![n as u8] + bs + rest);
        let q = r.subrange(1, r.len() as int);
        assert(q =~= bs + rest);
        assert(q.subrange(0, n) =~= bs);
        assert(q.subrange(n, q.len() as int) =~= rest);
    } else if n <= 0xFFFF {
        let r = s.subrange(1, s.len() as int);
        assert(r =~= be16(n as u16) + bs + rest);
        assert(r.subrange(0, 2) =~= be16(n as u16));
        lemma_be16_val_of_be16(n as u16);
        let q = r.subrange(2, r.len() as int);
        assert(q =~= bs + rest);
        assert(q.subrange(0, n) =~= bs);
        assert(q.subrange(n, q.len() as int) =~= rest);
    } else {
        let r = s.subrange(1, s.len() as int);
        assert(r =~= be32(n as u32) + bs + rest);
        assert(r.subrange(0, 4) =~= be32(n as u32));
        lemma_be32_val_of_be32(n as u32);
        let q = r.subrange(4, r.len() as int);
        assert(q =~= bs + rest);
        assert(q.subrange(0, n) =~= bs);
        assert(q.subrange(n, q.len() as int) =~= rest);
    }
}

/// Reading back an encoded extension block yields its exact type code and
/// payload, through whichever Fixext or Ext form the length selected.
#[verifier::rlimit(80)]
pub proof fn lemma_round_trip_ext(code: i8, bs: Seq<u8>, rest: Seq<u8>, d: nat)
    requires
        code >= 0,
        bs.len() <= 0xFFFFFFFF,
    ensures
        dec_value(enc_ext(code, bs) + rest, d) == Ok::<(Value, Seq<u8>), DecodeError>(
            (Value::Extension(code, bs), rest),
        ),
{
    let n = bs.len() as int;
    let s = enc_ext(code, bs) + rest;
    assert(signed8_val(code as u8) == code as i64);
    if n == 1 || n == 2 || n == 4 || n == 8 || n == 16 {
        let r = s.subrange(1, s.len() as int);
        assert(r =~= seq![code as u8] + bs + rest);
        assert(r[0] == code as u8);
        assert(r.subrange(1, n + 1) =~= bs);
        assert(r.subrange(n + 1, r.len() as int) =~= rest);
    } else if n <= 0xFF {
        let r = s.subrange(1, s.len() as int);
        assert(r =~= seq![n as u8, code as u8] + bs + rest);
        let q = r.subrange(1, r.len() as int);
        assert(q =~= seq![code as u8] + bs + rest);
        assert(q[0] == code as u8);
        assert(q.subrange(1, n + 1) =~= bs);
        assert(q.subrange(n + 1, q.len() as int) =~= rest);
    } else if n <= 0xFFFF {
        let r = s.subrange(1, s.len() as int);
        assert(r =~= be16(n as u16) + seq![code as u8] + bs + rest);
        assert(r.subrange(0, 2) =~= be16(n as u16));
        lemma_be16_val_of_be16(n as u16);
        let q = r.subrange(2, r.len() as int);
        assert(q =~= seq![code as u8] + bs + rest);
        assert(q[0] == code as u8);
        assert(q.subrange(1, n + 1) =~= bs);
        assert(q.subrange(n + 1, q.len() as int) =~= rest);
    } else {
        let r = s.subrange(1, s.len() as int);
        assert(r =~= be32(n as u32) + seq![code as u8] + bs + rest);
        assert(r.subrange(0, 4) =~= be32(n as u32));
        lemma_be32_val_of_be32(n as u32);
        let q = r.subrange(4, r.len() as int);
        assert(q =~= seq![code as u8] + bs + rest);
        assert(q[0] == code as u8);
        assert(q.subrange(1, n + 1) =~= bs);
        assert(q.subrange(n + 1, q.len() as int) =~= rest);
    }
}

// ------------------------------------------------------------------
// The round-trip theorem for whole value trees.
// ------------------------------------------------------------------

/// Round trip: reading back the wire form of any encodable value in
/// decoded shape yields exactly that value and consumes exactly its wire
/// form, whatever bytes follow, under any nesting budget that covers the
/// value's depth.  `canonical` asks only what the decoder itself
/// guarantees of its output: non-negative integers are carried as
/// `Unsigned`, so a non-negative `Signed` (which the encoder deliberately
/// writes in unsigned form) is the one shape excluded.
#[verifier::rlimit(80)]
pub proof fn lemma_round_trip_value(v: Value, rest: Seq<u8>, d: nat)
    requires
        enc_ok(v),
        canonical(v),
        value_depth(v) <= d,
    ensures
        dec_value(enc_value(v) + rest, d) == Ok::<(Value, Seq<u8>), DecodeError>((v, rest)),
    decreases v,
{
    match v {
        Value::Nil => {
            assert((enc_nil() + rest).subrange(1, (enc_nil() + rest).len() as int) =~= rest);
        },
        Value::Boolean(b) => {
            assert((enc_bool(b) + rest).subrange(1, (enc_bool(b) + rest).len() as int) =~= rest);
        },
        Value::Unsigned(u) => {
            lemma_round_trip_uint(u, rest, d);
        },
        Value::Signed(i) => {
            lemma_round_trip_int(i, rest, d);
        },
        Value::Float32(bits) => {
            lemma_round_trip_float32(bits, rest, d);
        },
        Value::Float64(bits) => {
            lemma_round_trip_float64(bits, rest, d);
        },
        Value::String(cs) => {
            lemma_round_trip_str(cs, rest, d);
        },
        Value::Binary(bs) => {
            lemma_round_trip_bin(bs, rest, d);
        },
        Value::Extension(code, bs) => {
            lemma_round_trip_ext(code, bs, rest, d);
        },
        Value::Array(es) => {
            let n = es.len() as int;
            let s = enc_value(v) + rest;
            assert(s =~= enc_array_header(es.len()) + (enc_values(es) + rest));
            lemma_round_trip_values(es, rest, (d - 1) as nat);
            if n <= 15 {
                assert(s[0] == (0x90 + n) as u8);
                assert(s.subrange(1, s.len() as int) =~= enc_values(es) + rest);
            } else if n <= 0xFFFF {
                let r = s.subrange(1, s.len() as int);
                assert(r =~= be16(n as u16) + (enc_values(es) + rest));
                assert(r.subrange(0, 2) =~= be16(n as u16));
                lemma_be16_val_of_be16(n as u16);
                assert(r.subrange(2, r.len() as int) =~= enc_values(es) + rest);
            } else {
                let r = s.subrange(1, s.len() as int);
                assert(r =~= be32(n as u32) + (enc_values(es) + rest));
                assert(r.subrange(0, 4) =~= be32(n as u32));
                lemma_be32_val_of_be32(n as u32);
                assert(r.subrange(4, r.len() as int) =~= enc_values(es) + rest);
            }
        },
        Value::Mapping(ps) => {
            let n = ps.len() as int;
            let s = enc_value(v) + rest;
            assert(s =~= enc_map_header(ps.len()) + (enc_entries(ps) + rest));
            lemma_round_trip_entries(ps, rest, (d - 1) as nat);
            if n <= 15 {
                assert(s[0] == (0x80 + n) as u8);
                assert(s.subrange(1, s.len() as int) =~= enc_entries(ps) + rest);
            } else if n <= 0xFFFF {
                let r = s.subrange(1, s.len() as int);
                assert(r =~= be16(n as u16) + (enc_entries(ps) + rest));
                assert(r.subrange(0, 2) =~= be16(n as u16));
                lemma_be16_val_of_be16(n as u16);
                assert(r.subrange(2, r.len() as int) =~= enc_entries(ps) + rest);
            } else {
                let r = s.subrange(1, s.len() as int);
                assert(r =~= be32(n as u32) + (enc_entries(ps) + rest));
                assert(r.subrange(0, 4) =~= be32(n as u32));
                lemma_be32_val_of_be32(n as u32);
                assert(r.subrange(4, r.len() as int) =~= enc_entries(ps) + rest);
            }
        },
    }
}

/// Round trip for a run of units: reading back the concatenated wire
/// forms of a run of values yields exactly that run.
pub proof fn lemma_round_trip_values(es: Seq<Value>, rest: Seq<u8>, d: nat)
    requires
        values_enc_ok(es),
        values_canonical(es),
        values_depth(es) <= d,
    ensures
        dec_values(enc_values(es) + rest, es.len(), d) == Ok::<
            (Seq<Value>, Seq<u8>),
            DecodeError,
        >((es, rest)),
    decreases es,
{
    if es.len() == 0 {
        assert(enc_values(es) + rest =~= rest);
        assert(es =~= Seq::<Value>::empty());
    } else {
        let v0 = es[0];
        let tail = es.subrange(1, es.len() as int);
        let s = enc_values(es) + rest;
        assert(s =~= enc_value(v0) + (enc_values(tail) + rest));
        lemma_round_trip_value(v0, enc_values(tail) + rest, d);
        lemma_enc_value_nonempty(v0);
        lemma_round_trip_values(tail, rest, d);
        assert(seq![v0] + tail =~= es);
    }
}

/// Round trip for a run of key/value pairs.
pub proof fn lemma_round_trip_entries(ps: Seq<(Value, Value)>, rest: Seq<u8>, d: nat)
    requires
        entries_enc_ok(ps),
        entries_canonical(ps),
        entries_depth(ps) <= d,
    ensures
        dec_entries(enc_entries(ps) + rest, ps.len(), d) == Ok::<
            (Seq<(Value, Value)>, Seq<u8>),
            DecodeError,
        >((ps, rest)),
    decreases ps,
{
    if ps.len() == 0 {
        assert(enc_entries(ps) + rest =~= rest);
        assert(ps =~= Seq::<(Value, Value)>::empty());
    } else {
        let k0 = ps[0].0;
        let v0 = ps[0].1;
        let tail = ps.subrange(1, ps.len() as int);
        let s = enc_entries(ps) + rest;
        assert(s =~= enc_value(k0) + (enc_value(v0) + (enc_entries(tail) + rest)));
        lemma_round_trip_value(k0, enc_value(v0) + (enc_entries(tail) + rest), d);
        lemma_enc_value_nonempty(k0);
        lemma_round_trip_value(v0, enc_entries(tail) + rest, d);
        lemma_enc_value_nonempty(v0);
        lemma_round_trip_entries(tail, rest, d);
        assert(seq![(k0, v0)] + tail =~= ps);
    }
}

/// The round trip on a whole buffer: a buffer holding exactly one encoded
/// value decodes to that value with nothing left over, under any nesting
/// budget that covers the value's depth.
pub proof fn lemma_round_trip(v: Value, d: nat)
    requires
        enc_ok(v),
        canonical(v),
        value_depth(v) <= d,
    ensures
        dec_value(enc_value(v), d) == Ok::<(Value, Seq<u8>), DecodeError>(
            (v, Seq::<u8>::empty()),
        ),
{
    lemma_round_trip_value(v, Seq::<u8>::empty(), d);
    assert(enc_value(v) + Seq::<u8>::empty() =~= enc_value(v));
}

} // verus!
