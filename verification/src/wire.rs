//! The mathematical wire model: what every category of value looks like as a
//! byte sequence, and what reading one unit from a byte sequence yields.
//!
//! `enc_value` is the single source of truth for the encoder: every writer
//! method promises to append exactly what the model says.  `dec_value` is the
//! single source of truth for the decoder: `try_read` promises to return
//! exactly the value and error the model says.  The round-trip and
//! minimality laws in `laws` connect the two.

use vstd::prelude::*;
use vstd::utf8::*;

use crate::magic::{
    TAG_ARRAY16, TAG_ARRAY32, TAG_BIN16, TAG_BIN32, TAG_BIN8, TAG_EXT16, TAG_EXT32, TAG_EXT8,
    TAG_FALSE, TAG_FIXEXT1, TAG_FIXEXT16, TAG_FIXEXT2, TAG_FIXEXT4, TAG_FIXEXT8, TAG_FLOAT32,
    TAG_FLOAT64, TAG_INT16, TAG_INT32, TAG_INT64, TAG_INT8, TAG_MAP16, TAG_MAP32, TAG_NIL,
    TAG_STR16, TAG_STR32, TAG_STR8, TAG_TRUE, TAG_UINT16, TAG_UINT32, TAG_UINT64, TAG_UINT8,
};
use crate::value::Value;

verus! {

/// Why an encode call was refused.
#[derive(Clone, Copy, Debug, PartialEq, Eq, Structural)]
pub enum EncodeError {
    /// A negative extension type code; negative codes are reserved by the
    /// format for future built-in extensions.
    TypeReserved,
    /// The value or length exceeds the largest wire form of its category.
    WontFit,
}

/// Why a decode call failed.
#[derive(Clone, Copy, Debug, PartialEq, Eq, Structural)]
pub enum DecodeError {
    /// The leading byte matches no wire-format rule.
    NoData,
    /// The stream ended before a declared length was fully consumed.
    InsufficientData,
    /// A string payload was not valid UTF-8.
    InvalidUtf8,
    /// The stream nests containers deeper than the decoder's bound.  A
    /// defensive refusal against cheaply-claimed deep nesting, not a
    /// statement about the bytes themselves.
    DepthLimit,
}

// ------------------------------------------------------------------
// Big-endian fixed-width integers.
// ------------------------------------------------------------------

/// The two big-endian bytes of a 16-bit value.
pub open spec fn be16(v: u16) -> Seq<u8> {
    seq![(v / 0x100) as u8, (v % 0x100) as u8]
}

/// The four big-endian bytes of a 32-bit value.
pub open spec fn be32(v: u32) -> Seq<u8> {
    seq![
        (v / 0x1000000) as u8,
        ((v / 0x10000) % 0x100) as u8,
        ((v / 0x100) % 0x100) as u8,
        (v % 0x100) as u8,
    ]
}

/// The eight big-endian bytes of a 64-bit value.
pub open spec fn be64(v: u64) -> Seq<u8> {
    seq![
        (v / 0x100000000000000) as u8,
        ((v / 0x1000000000000) % 0x100) as u8,
        ((v / 0x10000000000) % 0x100) as u8,
        ((v / 0x100000000) % 0x100) as u8,
        ((v / 0x1000000) % 0x100) as u8,
        ((v / 0x10000) % 0x100) as u8,
        ((v / 0x100) % 0x100) as u8,
        (v % 0x100) as u8,
    ]
}

/// The 16-bit value held by two big-endian bytes.
pub open spec fn be16_val(b: Seq<u8>) -> u16
    recommends
        b.len() == 2,
{
    (b[0] * 0x100 + b[1]) as u16
}

/// The 32-bit value held by four big-endian bytes.
pub open spec fn be32_val(b: Seq<u8>) -> u32
    recommends
        b.len() == 4,
{
    (b[0] * 0x1000000 + b[1] * 0x10000 + b[2] * 0x100 + b[3]) as u32
}

/// The 64-bit value held by eight big-endian bytes.
pub open spec fn be64_val(b: Seq<u8>) -> u64
    recommends
        b.len() == 8,
{
    (b[0] * 0x100000000000000 + b[1] * 0x1000000000000 + b[2] * 0x10000000000 + b[3]
        * 0x100000000 + b[4] * 0x1000000 + b[5] * 0x10000 + b[6] * 0x100 + b[7]) as u64
}

// ------------------------------------------------------------------
// Two's-complement reinterpretation, written arithmetically.
// ------------------------------------------------------------------

/// The signed value whose two's-complement byte is `v`.
pub open spec fn signed8_val(v: u8) -> i64 {
    if v < 0x80 {
        v as i64
    } else {
        (v - 0x100) as i64
    }
}

/// The signed value whose two's-complement 16-bit pattern is `v`.
pub open spec fn signed16_val(v: u16) -> i64 {
    if v < 0x8000 {
        v as i64
    } else {
        (v - 0x10000) as i64
    }
}

/// The signed value whose two's-complement 32-bit pattern is `v`.
pub open spec fn signed32_val(v: u32) -> i64 {
    if v < 0x80000000 {
        v as i64
    } else {
        (v - 0x100000000) as i64
    }
}

/// The signed value whose two's-complement 64-bit pattern is `v`.
pub open spec fn signed64_val(v: u64) -> i64 {
    if v < 0x8000000000000000 {
        v as i64
    } else {
        (v - 0x10000000000000000) as i64
    }
}

// ------------------------------------------------------------------
// Wire form of each category: minimal-size selection made explicit.
// ------------------------------------------------------------------

pub open spec fn enc_nil() -> Seq<u8> {
    seq![TAG_NIL]
}

pub open spec fn enc_bool(b: bool) -> Seq<u8> {
    if b {
        seq![TAG_TRUE]
    } else {
        seq![TAG_FALSE]
    }
}

/// The smallest wire form that holds an unsigned integer.
pub open spec fn enc_uint(v: u64) -> Seq<u8> {
    if v < 0x80 {
        seq![v as u8]
    } else if v <= 0xFF {
        seq![TAG_UINT8, v as u8]
    } else if v <= 0xFFFF {
        seq![TAG_UINT16] + be16(v as u16)
    } else if v <= 0xFFFFFFFF {
        seq![TAG_UINT32] + be32(v as u32)
    } else {
        seq![TAG_UINT64] + be64(v)
    }
}

/// The wire form of a signed integer.  A non-negative value is always
/// encoded in unsigned form; a negative one takes the smallest signed band
/// whose stated boundary covers it (the bands are asymmetric on purpose:
/// Int8 reaches down to -127, Int16 to -32767, Int32 to -2147483647).
pub open spec fn enc_int(v: i64) -> Seq<u8>
    recommends
        v != i64::MIN,
{
    if v >= 0 {
        enc_uint(v as u64)
    } else if v >= -15 {
        seq![(v + 0x100) as u8]
    } else if v >= -127 {
        seq![TAG_INT8, (v + 0x100) as u8]
    } else if v >= -32767 {
        seq![TAG_INT16] + be16((v + 0x10000) as u16)
    } else if v >= -2147483647 {
        seq![TAG_INT32] + be32((v + 0x100000000) as u32)
    } else {
        seq![TAG_INT64] + be64((v + 0x10000000000000000) as u64)
    }
}

pub open spec fn enc_float32(bits: u32) -> Seq<u8> {
    seq![TAG_FLOAT32] + be32(bits)
}

pub open spec fn enc_float64(bits: u64) -> Seq<u8> {
    seq![TAG_FLOAT64] + be64(bits)
}

/// The smallest wire form that holds a string of `bs.len()` UTF-8 bytes.
pub open spec fn enc_str(bs: Seq<u8>) -> Seq<u8>
    recommends
        bs.len() <= 0xFFFFFFFF,
{
    if bs.len() <= 31 {
        seq![(0xA0 + bs.len()) as u8] + bs
    } else if bs.len() <= 0xFF {
        seq![TAG_STR8, bs.len() as u8] + bs
    } else if bs.len() <= 0xFFFF {
        seq![TAG_STR16] + be16(bs.len() as u16) + bs
    } else {
        seq![TAG_STR32] + be32(bs.len() as u32) + bs
    }
}

/// The smallest wire form that holds a byte blob.  Binary has no fixed
/// (tag-embedded) form; the smallest is Bin8.
pub open spec fn enc_bin(bs: Seq<u8>) -> Seq<u8>
    recommends
        bs.len() <= 0xFFFFFFFF,
{
    if bs.len() <= 0xFF {
        seq![TAG_BIN8, bs.len() as u8] + bs
    } else if bs.len() <= 0xFFFF {
        seq![TAG_BIN16] + be16(bs.len() as u16) + bs
    } else {
        seq![TAG_BIN32] + be32(bs.len() as u32) + bs
    }
}

/// The wire form of an extension block.  Payloads of exactly 1, 2, 4, 8 or
/// 16 bytes take the matching Fixext form (no length field); any other
/// length takes the smallest Ext band.
pub open spec fn enc_ext(code: i8, bs: Seq<u8>) -> Seq<u8>
    recommends
        code >= 0,
        bs.len() <= 0xFFFFFFFF,
{
    if bs.len() == 1 {
        seq![TAG_FIXEXT1, code as u8] + bs
    } else if bs.len() == 2 {
        seq![TAG_FIXEXT2, code as u8] + bs
    } else if bs.len() == 4 {
        seq![TAG_FIXEXT4, code as u8] + bs
    } else if bs.len() == 8 {
        seq![TAG_FIXEXT8, code as u8] + bs
    } else if bs.len() == 16 {
        seq![TAG_FIXEXT16, code as u8] + bs
    } else if bs.len() <= 0xFF {
        seq![TAG_EXT8, bs.len() as u8, code as u8] + bs
    } else if bs.len() <= 0xFFFF {
        seq![TAG_EXT16] + be16(bs.len() as u16) + seq![code as u8] + bs
    } else {
        seq![TAG_EXT32] + be32(bs.len() as u32) + seq![code as u8] + bs
    }
}

/// The smallest array header for `n` elements: the 4-bit fixed form covers
/// counts 0 to 15, then Array16, then Array32.
pub open spec fn enc_array_header(n: nat) -> Seq<u8>
    recommends
        n <= 0xFFFFFFFF,
{
    if n <= 15 {
        seq![(0x90 + n) as u8]
    } else if n <= 0xFFFF {
        seq![TAG_ARRAY16] + be16(n as u16)
    } else {
        seq![TAG_ARRAY32] + be32(n as u32)
    }
}

/// The smallest map header for `n` key/value pairs.
pub open spec fn enc_map_header(n: nat) -> Seq<u8>
    recommends
        n <= 0xFFFFFFFF,
{
    if n <= 15 {
        seq![(0x80 + n) as u8]
    } else if n <= 0xFFFF {
        seq![TAG_MAP16] + be16(n as u16)
    } else {
        seq![TAG_MAP32] + be32(n as u32)
    }
}

// ------------------------------------------------------------------
// Wire form of a whole value tree.
// ------------------------------------------------------------------

/// The full wire form of one value.
pub open spec fn enc_value(v: Value) -> Seq<u8>
    decreases v,
{
    match v {
        Value::Nil => enc_nil(),
        Value::Boolean(b) => enc_bool(b),
        Value::Unsigned(u) => enc_uint(u),
        Value::Signed(i) => enc_int(i),
        Value::Float32(bits) => enc_float32(bits),
        Value::Float64(bits) => enc_float64(bits),
        Value::String(cs) => enc_str(encode_utf8(cs)),
        Value::Binary(bs) => enc_bin(bs),
        Value::Extension(code, bs) => enc_ext(code, bs),
        Value::Array(es) => enc_array_header(es.len()) + enc_values(es),
        Value::Mapping(ps) => enc_map_header(ps.len()) + enc_entries(ps),
    }
}

/// The concatenated wire forms of a sequence of values.
pub open spec fn enc_values(es: Seq<Value>) -> Seq<u8>
    decreases es,
{
    if es.len() == 0 {
        Seq::empty()
    } else {
        enc_value(es[0]) + enc_values(es.subrange(1, es.len() as int))
    }
}

/// The concatenated wire forms of a sequence of key/value pairs.
pub open spec fn enc_entries(ps: Seq<(Value, Value)>) -> Seq<u8>
    decreases ps,
{
    if ps.len() == 0 {
        Seq::empty()
    } else {
        enc_value(ps[0].0) + enc_value(ps[0].1) + enc_entries(ps.subrange(1, ps.len() as int))
    }
}

/// Whether a value can be encoded at all: every length fits its largest
/// wire band, extension codes are non-negative, and `i64::MIN` is out
/// (the stated Int64 boundary stops one short of it).
pub open spec fn enc_ok(v: Value) -> bool
    decreases v,
{
    match v {
        Value::Signed(i) => i != i64::MIN,
        Value::String(cs) => encode_utf8(cs).len() <= 0xFFFFFFFF,
        Value::Binary(bs) => bs.len() <= 0xFFFFFFFF,
        Value::Extension(code, bs) => code >= 0 && bs.len() <= 0xFFFFFFFF,
        Value::Array(es) => es.len() <= 0xFFFFFFFF && values_enc_ok(es),
        Value::Mapping(ps) => ps.len() <= 0xFFFFFFFF && entries_enc_ok(ps),
        _ => true,
    }
}

pub open spec fn values_enc_ok(es: Seq<Value>) -> bool
    decreases es,
{
    es.len() == 0 || (enc_ok(es[0]) && values_enc_ok(es.subrange(1, es.len() as int)))
}

pub open spec fn entries_enc_ok(ps: Seq<(Value, Value)>) -> bool
    decreases ps,
{
    ps.len() == 0 || (enc_ok(ps[0].0) && enc_ok(ps[0].1) && entries_enc_ok(
        ps.subrange(1, ps.len() as int),
    ))
}

/// The error an encode of `v` reports when `enc_ok(v)` does not hold: a
/// reserved (negative) extension code is reported where the offending call
/// checks its code first; everything else is a length or boundary overflow.
/// Inside a container it is the error of the first offending child, in
/// encoding order, after the container's own length check.
pub open spec fn enc_value_err(v: Value) -> EncodeError
    recommends
        !enc_ok(v),
    decreases v,
{
    match v {
        Value::Extension(code, bs) => if code < 0 {
            EncodeError::TypeReserved
        } else {
            EncodeError::WontFit
        },
        Value::Array(es) => if es.len() > 0xFFFFFFFF {
            EncodeError::WontFit
        } else {
            values_enc_err(es)
        },
        Value::Mapping(ps) => if ps.len() > 0xFFFFFFFF {
            EncodeError::WontFit
        } else {
            entries_enc_err(ps)
        },
        _ => EncodeError::WontFit,
    }
}

pub open spec fn values_enc_err(es: Seq<Value>) -> EncodeError
    recommends
        !values_enc_ok(es),
    decreases es,
{
    if es.len() == 0 {
        EncodeError::WontFit
    } else if !enc_ok(es[0]) {
        enc_value_err(es[0])
    } else {
        values_enc_err(es.subrange(1, es.len() as int))
    }
}

pub open spec fn entries_enc_err(ps: Seq<(Value, Value)>) -> EncodeError
    recommends
        !entries_enc_ok(ps),
    decreases ps,
{
    if ps.len() == 0 {
        EncodeError::WontFit
    } else if !enc_ok(ps[0].0) {
        enc_value_err(ps[0].0)
    } else if !enc_ok(ps[0].1) {
        enc_value_err(ps[0].1)
    } else {
        entries_enc_err(ps.subrange(1, ps.len() as int))
    }
}

/// Whether a value has the exact shape the decoder produces: integers
/// carried in `Signed` only when they are negative (the decoder maps every
/// unsigned wire tag to `Unsigned`), recursively through containers.
pub open spec fn canonical(v: Value) -> bool
    decreases v,
{
    match v {
        Value::Signed(i) => i < 0,
        Value::Array(es) => values_canonical(es),
        Value::Mapping(ps) => entries_canonical(ps),
        _ => true,
    }
}

pub open spec fn values_canonical(es: Seq<Value>) -> bool
    decreases es,
{
    es.len() == 0 || (canonical(es[0]) && values_canonical(es.subrange(1, es.len() as int)))
}

pub open spec fn entries_canonical(ps: Seq<(Value, Value)>) -> bool
    decreases ps,
{
    ps.len() == 0 || (canonical(ps[0].0) && canonical(ps[0].1) && entries_canonical(
        ps.subrange(1, ps.len() as int),
    ))
}

/// The container nesting depth of a value: how much nesting budget a
/// decoder needs to reconstruct it.  Scalars need none; a container needs
/// one more than its deepest child.
pub open spec fn value_depth(v: Value) -> nat
    decreases v,
{
    match v {
        Value::Array(es) => 1 + values_depth(es),
        Value::Mapping(ps) => 1 + entries_depth(ps),
        _ => 0,
    }
}

/// The deepest nesting among a run of values.
pub open spec fn values_depth(es: Seq<Value>) -> nat
    decreases es,
{
    if es.len() == 0 {
        0
    } else {
        let h = value_depth(es[0]);
        let t = values_depth(es.subrange(1, es.len() as int));
        if h >= t {
            h
        } else {
            t
        }
    }
}

/// The deepest nesting among a run of key/value pairs.
pub open spec fn entries_depth(ps: Seq<(Value, Value)>) -> nat
    decreases ps,
{
    if ps.len() == 0 {
        0
    } else {
        let k = value_depth(ps[0].0);
        let v = value_depth(ps[0].1);
        let t = entries_depth(ps.subrange(1, ps.len() as int));
        if k >= v && k >= t {
            k
        } else if v >= t {
            v
        } else {
            t
        }
    }
}

// ------------------------------------------------------------------
// Facts about the wire form of element sequences.
// ------------------------------------------------------------------

/// Encoding a concatenation of element sequences concatenates their
/// encodings.
pub proof fn lemma_enc_values_concat(a: Seq<Value>, b: Seq<Value>)
    ensures
        enc_values(a + b) == enc_values(a) + enc_values(b),
    decreases a.len(),
{
    if a.len() == 0 {
        assert(a + b =~= b);
        assert(enc_values(a) + enc_values(b) =~= enc_values(b));
    } else {
        assert((a + b)[0] == a[0]);
        assert((a + b).subrange(1, (a + b).len() as int) =~= a.subrange(1, a.len() as int) + b);
        lemma_enc_values_concat(a.subrange(1, a.len() as int), b);
        assert(enc_value(a[0]) + (enc_values(a.subrange(1, a.len() as int)) + enc_values(b))
            =~= (enc_value(a[0]) + enc_values(a.subrange(1, a.len() as int))) + enc_values(b));
    }
}

/// Encoding one more element appends that element's encoding.
pub proof fn lemma_enc_values_push(a: Seq<Value>, v: Value)
    ensures
        enc_values(a.push(v)) == enc_values(a) + enc_value(v),
{
    lemma_enc_values_concat(a, seq![v]);
    assert(a.push(v) =~= a + seq![v]);
    let s = seq![v];
    assert(s.len() == 1 && s[0] == v);
    assert(s.subrange(1, s.len() as int) =~= Seq::<Value>::empty());
    assert(enc_values(Seq::<Value>::empty()) == Seq::<u8>::empty());
    assert(enc_values(s) == enc_value(v) + Seq::<u8>::empty());
    assert(enc_values(s) =~= enc_value(v));
}

/// Encoding a concatenation of entry sequences concatenates their
/// encodings.
pub proof fn lemma_enc_entries_concat(a: Seq<(Value, Value)>, b: Seq<(Value, Value)>)
    ensures
        enc_entries(a + b) == enc_entries(a) + enc_entries(b),
    decreases a.len(),
{
    if a.len() == 0 {
        assert(a + b =~= b);
        assert(enc_entries(a) + enc_entries(b) =~= enc_entries(b));
    } else {
        assert((a + b)[0] == a[0]);
        assert((a + b).subrange(1, (a + b).len() as int) =~= a.subrange(1, a.len() as int) + b);
        lemma_enc_entries_concat(a.subrange(1, a.len() as int), b);
        assert(enc_value(a[0].0) + enc_value(a[0].1) + (enc_entries(
            a.subrange(1, a.len() as int),
        ) + enc_entries(b)) =~= (enc_value(a[0].0) + enc_value(a[0].1) + enc_entries(
            a.subrange(1, a.len() as int),
        )) + enc_entries(b));
    }
}

/// Encoding one more entry appends that entry's two encodings.
pub proof fn lemma_enc_entries_push(a: Seq<(Value, Value)>, p: (Value, Value))
    ensures
        enc_entries(a.push(p)) == enc_entries(a) + enc_value(p.0) + enc_value(p.1),
{
    lemma_enc_entries_concat(a, seq![p]);
    assert(a.push(p) =~= a + seq![p]);
    let s = seq![p];
    assert(s.len() == 1 && s[0] == p);
    assert(s.subrange(1, s.len() as int) =~= Seq::<(Value, Value)>::empty());
    assert(enc_entries(Seq::<(Value, Value)>::empty()) == Seq::<u8>::empty());
    assert(enc_entries(s) == enc_value(p.0) + enc_value(p.1) + Seq::<u8>::empty());
    assert(enc_entries(s) =~= enc_value(p.0) + enc_value(p.1));
    assert(enc_entries(a) + (enc_value(p.0) + enc_value(p.1) + Seq::<u8>::empty()) =~= enc_entries(
        a,
    ) + enc_value(p.0) + enc_value(p.1));
}

/// Element-wise reading of `values_enc_ok`.
pub proof fn lemma_values_enc_ok_iff(es: Seq<Value>)
    ensures
        values_enc_ok(es) <==> (forall|i: int| 0 <= i < es.len() ==> enc_ok(#[trigger] es[i])),
    decreases es.len(),
{
    if es.len() > 0 {
        lemma_values_enc_ok_iff(es.subrange(1, es.len() as int));
        if enc_ok(es[0]) && values_enc_ok(es.subrange(1, es.len() as int)) {
            assert forall|i: int| 0 <= i < es.len() implies enc_ok(#[trigger] es[i]) by {
                if i > 0 {
                    assert(es.subrange(1, es.len() as int)[i - 1] == es[i]);
                }
            }
        }
    }
}

/// Element-wise reading of `entries_enc_ok`.
pub proof fn lemma_entries_enc_ok_iff(ps: Seq<(Value, Value)>)
    ensures
        entries_enc_ok(ps) <==> (forall|i: int|
            0 <= i < ps.len() ==> enc_ok(#[trigger] ps[i].0) && enc_ok(ps[i].1)),
    decreases ps.len(),
{
    if ps.len() > 0 {
        let tail = ps.subrange(1, ps.len() as int);
        lemma_entries_enc_ok_iff(tail);
        assert(forall|j: int| 0 <= j < tail.len() ==> #[trigger] tail[j] == ps[j + 1]);
        if enc_ok(ps[0].0) && enc_ok(ps[0].1) && entries_enc_ok(tail) {
            assert forall|i: int| 0 <= i < ps.len() implies enc_ok(#[trigger] ps[i].0) && enc_ok(
                ps[i].1,
            ) by {
                if i > 0 {
                    assert(tail[i - 1] == ps[i]);
                }
            }
        }
    }
}

/// When the first `i` elements encode and the `i`-th does not, the
/// sequence's reported error is the `i`-th element's.
pub proof fn lemma_values_enc_err_at(es: Seq<Value>, i: int)
    requires
        0 <= i < es.len(),
        forall|j: int| 0 <= j < i ==> enc_ok(#[trigger] es[j]),
        !enc_ok(es[i]),
    ensures
        !values_enc_ok(es),
        values_enc_err(es) == enc_value_err(es[i]),
    decreases i,
{
    lemma_values_enc_ok_iff(es);
    if i > 0 {
        assert(forall|j: int|
            0 <= j < i - 1 ==> #[trigger] es.subrange(1, es.len() as int)[j] == es[j + 1]);
        lemma_values_enc_err_at(es.subrange(1, es.len() as int), i - 1);
    }
}

/// When the first `i` entries encode and one half of the `i`-th does not,
/// the sequence's reported error is that half's error (keys are tried
/// before values).
pub proof fn lemma_entries_enc_err_at(ps: Seq<(Value, Value)>, i: int)
    requires
        0 <= i < ps.len(),
        forall|j: int| 0 <= j < i ==> enc_ok(#[trigger] ps[j].0) && enc_ok(ps[j].1),
        !(enc_ok(ps[i].0) && enc_ok(ps[i].1)),
    ensures
        !entries_enc_ok(ps),
        entries_enc_err(ps) == if !enc_ok(ps[i].0) {
            enc_value_err(ps[i].0)
        } else {
            enc_value_err(ps[i].1)
        },
    decreases i,
{
    lemma_entries_enc_ok_iff(ps);
    if i > 0 {
        assert(forall|j: int|
            0 <= j < i - 1 ==> #[trigger] ps.subrange(1, ps.len() as int)[j] == ps[j + 1]);
        lemma_entries_enc_err_at(ps.subrange(1, ps.len() as int), i - 1);
    }
}

// ------------------------------------------------------------------
// Reading one unit back from a byte sequence.
// ------------------------------------------------------------------

/// Reading a length-prefixed string payload of `n` bytes.
pub open spec fn dec_str_payload(s: Seq<u8>, n: nat) -> Result<(Value, Seq<u8>), DecodeError> {
    if s.len() < n {
        Err(DecodeError::InsufficientData)
    } else {
        let payload = s.subrange(0, n as int);
        if valid_utf8(payload) {
            Ok((Value::String(decode_utf8(payload)), s.subrange(n as int, s.len() as int)))
        } else {
            Err(DecodeError::InvalidUtf8)
        }
    }
}

/// Reading a length-prefixed binary payload of `n` bytes.
pub open spec fn dec_bin_payload(s: Seq<u8>, n: nat) -> Result<(Value, Seq<u8>), DecodeError> {
    if s.len() < n {
        Err(DecodeError::InsufficientData)
    } else {
        Ok((Value::Binary(s.subrange(0, n as int)), s.subrange(n as int, s.len() as int)))
    }
}

/// Reading an extension body: one signed type-code byte, then `n` payload
/// bytes.
pub open spec fn dec_ext_payload(s: Seq<u8>, n: nat) -> Result<(Value, Seq<u8>), DecodeError> {
    if s.len() < n + 1 {
        Err(DecodeError::InsufficientData)
    } else {
        Ok(
            (
                Value::Extension(signed8_val(s[0]) as i8, s.subrange(1, n + 1 as int)),
                s.subrange(n + 1 as int, s.len() as int),
            ),
        )
    }
}

/// Reading one unit: one tag byte, classified by range, then the number of
/// trailing bytes the tag declares.  A tag byte matching no rule fails with
/// `NoData`; a short payload with `InsufficientData`.  `d` is the nesting
/// budget: each container level spends one, and a container met with an
/// empty budget fails closed with `DepthLimit`.
pub open spec fn dec_value(s: Seq<u8>, d: nat) -> Result<(Value, Seq<u8>), DecodeError>
    decreases s.len(), 0nat, 0nat,
{
    if s.len() == 0 {
        Err(DecodeError::InsufficientData)
    } else {
        let tag = s[0];
        let r = s.subrange(1, s.len() as int);
        if tag < 0x80 {
            Ok((Value::Unsigned(tag as u64), r))
        } else if tag >= 0xE0 {
            Ok((Value::Signed((tag - 0x100) as i64), r))
        } else if 0xA0 <= tag && tag <= 0xBF {
            dec_str_payload(r, (tag - 0xA0) as nat)
        } else if 0x90 <= tag && tag <= 0x9F {
            if d == 0 {
                Err(DecodeError::DepthLimit)
            } else {
                match dec_values(r, (tag - 0x90) as nat, (d - 1) as nat) {
                    Ok((es, r2)) => Ok((Value::Array(es), r2)),
                    Err(e) => Err(e),
                }
            }
        } else if 0x80 <= tag && tag <= 0x8F {
            if d == 0 {
                Err(DecodeError::DepthLimit)
            } else {
                match dec_entries(r, (tag - 0x80) as nat, (d - 1) as nat) {
                    Ok((ps, r2)) => Ok((Value::Mapping(ps), r2)),
                    Err(e) => Err(e),
                }
            }
        } else if tag == TAG_NIL {
            Ok((Value::Nil, r))
        } else if tag == TAG_TRUE {
            Ok((Value::Boolean(true), r))
        } else if tag == TAG_FALSE {
            Ok((Value::Boolean(false), r))
        } else if tag == TAG_UINT8 {
            if r.len() >= 1 {
                Ok((Value::Unsigned(r[0] as u64), r.subrange(1, r.len() as int)))
            } else {
                Err(DecodeError::InsufficientData)
            }
        } else if tag == TAG_UINT16 {
            if r.len() >= 2 {
                Ok(
                    (
                        Value::Unsigned(be16_val(r.subrange(0, 2)) as u64),
                        r.subrange(2, r.len() as int),
                    ),
                )
            } else {
                Err(DecodeError::InsufficientData)
            }
        } else if tag == TAG_UINT32 {
            if r.len() >= 4 {
                Ok(
                    (
                        Value::Unsigned(be32_val(r.subrange(0, 4)) as u64),
                        r.subrange(4, r.len() as int),
                    ),
                )
            } else {
                Err(DecodeError::InsufficientData)
            }
        } else if tag == TAG_UINT64 {
            if r.len() >= 8 {
                Ok(
                    (
                        Value::Unsigned(be64_val(r.subrange(0, 8))),
                        r.subrange(8, r.len() as int),
                    ),
                )
            } else {
                Err(DecodeError::InsufficientData)
            }
        } else if tag == TAG_INT8 {
            if r.len() >= 1 {
                Ok((Value::Signed(signed8_val(r[0])), r.subrange(1, r.len() as int)))
            } else {
                Err(DecodeError::InsufficientData)
            }
        } else if tag == TAG_INT16 {
            if r.len() >= 2 {
                Ok(
                    (
                        Value::Signed(signed16_val(be16_val(r.subrange(0, 2)))),
                        r.subrange(2, r.len() as int),
                    ),
                )
            } else {
                Err(DecodeError::InsufficientData)
            }
        } else if tag == TAG_INT32 {
            if r.len() >= 4 {
                Ok(
                    (
                        Value::Signed(signed32_val(be32_val(r.subrange(0, 4)))),
                        r.subrange(4, r.len() as int),
                    ),
                )
            } else {
                Err(DecodeError::InsufficientData)
            }
        } else if tag == TAG_INT64 {
            if r.len() >= 8 {
                Ok(
                    (
                        Value::Signed(signed64_val(be64_val(r.subrange(0, 8)))),
                        r.subrange(8, r.len() as int),
                    ),
                )
            } else {
                Err(DecodeError::InsufficientData)
            }
        } else if tag == TAG_FLOAT32 {
            if r.len() >= 4 {
                Ok(
                    (
                        Value::Float32(be32_val(r.subrange(0, 4))),
                        r.subrange(4, r.len() as int),
                    ),
                )
            } else {
                Err(DecodeError::InsufficientData)
            }
        } else if tag == TAG_FLOAT64 {
            if r.len() >= 8 {
                Ok(
                    (
                        Value::Float64(be64_val(r.subrange(0, 8))),
                        r.subrange(8, r.len() as int),
                    ),
                )
            } else {
                Err(DecodeError::InsufficientData)
            }
        } else if tag == TAG_STR8 {
            if r.len() >= 1 {
                dec_str_payload(r.subrange(1, r.len() as int), r[0] as nat)
            } else {
                Err(DecodeError::InsufficientData)
            }
        } else if tag == TAG_STR16 {
            if r.len() >= 2 {
                dec_str_payload(r.subrange(2, r.len() as int), be16_val(r.subrange(0, 2)) as nat)
            } else {
                Err(DecodeError::InsufficientData)
            }
        } else if tag == TAG_STR32 {
            if r.len() >= 4 {
                dec_str_payload(r.subrange(4, r.len() as int), be32_val(r.subrange(0, 4)) as nat)
            } else {
                Err(DecodeError::InsufficientData)
            }
        } else if tag == TAG_BIN8 {
            if r.len() >= 1 {
                dec_bin_payload(r.subrange(1, r.len() as int), r[0] as nat)
            } else {
                Err(DecodeError::InsufficientData)
            }
        } else if tag == TAG_BIN16 {
            if r.len() >= 2 {
                dec_bin_payload(r.subrange(2, r.len() as int), be16_val(r.subrange(0, 2)) as nat)
            } else {
                Err(DecodeError::InsufficientData)
            }
        } else if tag == TAG_BIN32 {
            if r.len() >= 4 {
                dec_bin_payload(r.subrange(4, r.len() as int), be32_val(r.subrange(0, 4)) as nat)
            } else {
                Err(DecodeError::InsufficientData)
            }
        } else if tag == TAG_ARRAY16 {
            if d == 0 {
                Err(DecodeError::DepthLimit)
            } else if r.len() >= 2 {
                match dec_values(
                    r.subrange(2, r.len() as int),
                    be16_val(r.subrange(0, 2)) as nat,
                    (d - 1) as nat,
                ) {
                    Ok((es, r2)) => Ok((Value::Array(es), r2)),
                    Err(e) => Err(e),
                }
            } else {
                Err(DecodeError::InsufficientData)
            }
        } else if tag == TAG_ARRAY32 {
            if d == 0 {
                Err(DecodeError::DepthLimit)
            } else if r.len() >= 4 {
                match dec_values(
                    r.subrange(4, r.len() as int),
                    be32_val(r.subrange(0, 4)) as nat,
                    (d - 1) as nat,
                ) {
                    Ok((es, r2)) => Ok((Value::Array(es), r2)),
                    Err(e) => Err(e),
                }
            } else {
                Err(DecodeError::InsufficientData)
            }
        } else if tag == TAG_MAP16 {
            if d == 0 {
                Err(DecodeError::DepthLimit)
            } else if r.len() >= 2 {
                match dec_entries(
                    r.subrange(2, r.len() as int),
                    be16_val(r.subrange(0, 2)) as nat,
                    (d - 1) as nat,
                ) {
                    Ok((ps, r2)) => Ok((Value::Mapping(ps), r2)),
                    Err(e) => Err(e),
                }
            } else {
                Err(DecodeError::InsufficientData)
            }
        } else if tag == TAG_MAP32 {
            if d == 0 {
                Err(DecodeError::DepthLimit)
            } else if r.len() >= 4 {
                match dec_entries(
                    r.subrange(4, r.len() as int),
                    be32_val(r.subrange(0, 4)) as nat,
                    (d - 1) as nat,
                ) {
                    Ok((ps, r2)) => Ok((Value::Mapping(ps), r2)),
                    Err(e) => Err(e),
                }
            } else {
                Err(DecodeError::InsufficientData)
            }
        } else if tag == TAG_EXT8 {
            if r.len() >= 1 {
                dec_ext_payload(r.subrange(1, r.len() as int), r[0] as nat)
            } else {
                Err(DecodeError::InsufficientData)
            }
        } else if tag == TAG_EXT16 {
            if r.len() >= 2 {
                dec_ext_payload(r.subrange(2, r.len() as int), be16_val(r.subrange(0, 2)) as nat)
            } else {
                Err(DecodeError::InsufficientData)
            }
        } else if tag == TAG_EXT32 {
            if r.len() >= 4 {
                dec_ext_payload(r.subrange(4, r.len() as int), be32_val(r.subrange(0, 4)) as nat)
            } else {
                Err(DecodeError::InsufficientData)
            }
        } else if tag == TAG_FIXEXT1 {
            dec_ext_payload(r, 1)
        } else if tag == TAG_FIXEXT2 {
            dec_ext_payload(r, 2)
        } else if tag == TAG_FIXEXT4 {
            dec_ext_payload(r, 4)
        } else if tag == TAG_FIXEXT8 {
            dec_ext_payload(r, 8)
        } else if tag == TAG_FIXEXT16 {
            dec_ext_payload(r, 16)
        } else {
            Err(DecodeError::NoData)
        }
    }
}

/// Reading `n` units in sequence, propagating the first failure.  The
/// inner length guard always holds (one unit consumes at least its tag
/// byte, see `lemma_dec_value_consumes`); it makes termination evident.
pub open spec fn dec_values(s: Seq<u8>, n: nat, d: nat) -> Result<
    (Seq<Value>, Seq<u8>),
    DecodeError,
>
    decreases s.len(), 1nat, n,
{
    if n == 0 {
        Ok((Seq::empty(), s))
    } else {
        match dec_value(s, d) {
            Err(e) => Err(e),
            Ok((v, r)) => if r.len() < s.len() {
                match dec_values(r, (n - 1) as nat, d) {
                    Err(e) => Err(e),
                    Ok((vs, r2)) => Ok((seq![v] + vs, r2)),
                }
            } else {
                Err(DecodeError::InsufficientData)
            },
        }
    }
}

/// Reading `n` key/value pairs in sequence, propagating the first failure.
pub open spec fn dec_entries(s: Seq<u8>, n: nat, d: nat) -> Result<
    (Seq<(Value, Value)>, Seq<u8>),
    DecodeError,
>
    decreases s.len(), 1nat, n,
{
    if n == 0 {
        Ok((Seq::empty(), s))
    } else {
        match dec_value(s, d) {
            Err(e) => Err(e),
            Ok((k, r1)) => if r1.len() < s.len() {
                match dec_value(r1, d) {
                    Err(e) => Err(e),
                    Ok((v, r2)) => if r2.len() < s.len() {
                        match dec_entries(r2, (n - 1) as nat, d) {
                            Err(e) => Err(e),
                            Ok((ps, r3)) => Ok((seq![(k, v)] + ps, r3)),
                        }
                    } else {
                        Err(DecodeError::InsufficientData)
                    },
                }
            } else {
                Err(DecodeError::InsufficientData)
            },
        }
    }
}

/// The big-endian bytes of a 16-bit value hold that value.
pub proof fn lemma_be16_val_of_be16(v: u16)
    ensures
        be16_val(be16(v)) == v,
{
    vstd::arithmetic::div_mod::lemma_fundamental_div_mod(v as int, 0x100);
}

/// The big-endian bytes of a 32-bit value hold that value.
pub proof fn lemma_be32_val_of_be32(v: u32)
    ensures
        be32_val(be32(v)) == v,
{
    vstd::arithmetic::div_mod::lemma_fundamental_div_mod(v as int, 0x100);
    vstd::arithmetic::div_mod::lemma_fundamental_div_mod(v as int / 0x100, 0x100);
    vstd::arithmetic::div_mod::lemma_fundamental_div_mod(v as int / 0x10000, 0x100);
    assert(v as int / 0x100 / 0x100 == v as int / 0x10000) by {
        vstd::arithmetic::div_mod::lemma_div_denominator(v as int, 0x100, 0x100);
    }
    assert(v as int / 0x10000 / 0x100 == v as int / 0x1000000) by {
        vstd::arithmetic::div_mod::lemma_div_denominator(v as int, 0x10000, 0x100);
    }
}

/// The big-endian bytes of a 64-bit value hold that value.
pub proof fn lemma_be64_val_of_be64(v: u64)
    ensures
        be64_val(be64(v)) == v,
{
    vstd::arithmetic::div_mod::lemma_fundamental_div_mod(v as int, 0x100);
    vstd::arithmetic::div_mod::lemma_fundamental_div_mod(v as int / 0x100, 0x100);
    vstd::arithmetic::div_mod::lemma_fundamental_div_mod(v as int / 0x10000, 0x100);
    vstd::arithmetic::div_mod::lemma_fundamental_div_mod(v as int / 0x1000000, 0x100);
    vstd::arithmetic::div_mod::lemma_fundamental_div_mod(v as int / 0x100000000, 0x100);
    vstd::arithmetic::div_mod::lemma_fundamental_div_mod(v as int / 0x10000000000, 0x100);
    vstd::arithmetic::div_mod::lemma_fundamental_div_mod(v as int / 0x1000000000000, 0x100);
    assert(v as int / 0x100 / 0x100 == v as int / 0x10000) by {
        vstd::arithmetic::div_mod::lemma_div_denominator(v as int, 0x100, 0x100);
    }
    assert(v as int / 0x10000 / 0x100 == v as int / 0x1000000) by {
        vstd::arithmetic::div_mod::lemma_div_denominator(v as int, 0x10000, 0x100);
    }
    assert(v as int / 0x1000000 / 0x100 == v as int / 0x100000000) by {
        vstd::arithmetic::div_mod::lemma_div_denominator(v as int, 0x1000000, 0x100);
    }
    assert(v as int / 0x100000000 / 0x100 == v as int / 0x10000000000) by {
        vstd::arithmetic::div_mod::lemma_div_denominator(v as int, 0x100000000, 0x100);
    }
    assert(v as int / 0x10000000000 / 0x100 == v as int / 0x1000000000000) by {
        vstd::arithmetic::div_mod::lemma_div_denominator(v as int, 0x10000000000, 0x100);
    }
    assert(v as int / 0x1000000000000 / 0x100 == v as int / 0x100000000000000) by {
        vstd::arithmetic::div_mod::lemma_div_denominator(v as int, 0x1000000000000, 0x100);
    }
}

/// Every wire form starts with at least a tag byte.
pub proof fn lemma_enc_value_nonempty(v: Value)
    ensures
        enc_value(v).len() >= 1,
{
    match v {
        Value::Nil => {},
        Value::Boolean(_) => {},
        Value::Unsigned(_) => {},
        Value::Signed(_) => {},
        Value::Float32(_) => {},
        Value::Float64(_) => {},
        Value::String(_) => {},
        Value::Binary(_) => {},
        Value::Extension(_, _) => {},
        Value::Array(es) => {
            assert(enc_value(v) == enc_array_header(es.len()) + enc_values(es));
        },
        Value::Mapping(ps) => {
            assert(enc_value(v) == enc_map_header(ps.len()) + enc_entries(ps));
        },
    }
}

/// A successful read consumes at least the tag byte: what remains is
/// strictly shorter.  This is why the length guards inside `dec_values`
/// and `dec_entries` never fire.
pub proof fn lemma_dec_value_consumes(s: Seq<u8>, d: nat)
    ensures
        dec_value(s, d) matches Ok(p) ==> p.1.len() < s.len(),
    decreases s.len(), 0nat, 0nat,
{
    if s.len() > 0 && d > 0 {
        let tag = s[0];
        let r = s.subrange(1, s.len() as int);
        if 0x90 <= tag && tag <= 0x9F {
            lemma_dec_values_consumes(r, (tag - 0x90) as nat, (d - 1) as nat);
        } else if 0x80 <= tag && tag <= 0x8F {
            lemma_dec_entries_consumes(r, (tag - 0x80) as nat, (d - 1) as nat);
        } else if tag == TAG_ARRAY16 {
            if r.len() >= 2 {
                lemma_dec_values_consumes(
                    r.subrange(2, r.len() as int),
                    be16_val(r.subrange(0, 2)) as nat,
                    (d - 1) as nat,
                );
            }
        } else if tag == TAG_ARRAY32 {
            if r.len() >= 4 {
                lemma_dec_values_consumes(
                    r.subrange(4, r.len() as int),
                    be32_val(r.subrange(0, 4)) as nat,
                    (d - 1) as nat,
                );
            }
        } else if tag == TAG_MAP16 {
            if r.len() >= 2 {
                lemma_dec_entries_consumes(
                    r.subrange(2, r.len() as int),
                    be16_val(r.subrange(0, 2)) as nat,
                    (d - 1) as nat,
                );
            }
        } else if tag == TAG_MAP32 {
            if r.len() >= 4 {
                lemma_dec_entries_consumes(
                    r.subrange(4, r.len() as int),
                    be32_val(r.subrange(0, 4)) as nat,
                    (d - 1) as nat,
                );
            }
        }
    }
}

/// Reading a run of units never grows the remainder.
pub proof fn lemma_dec_values_consumes(s: Seq<u8>, n: nat, d: nat)
    ensures
        dec_values(s, n, d) matches Ok(p) ==> p.1.len() <= s.len(),
    decreases s.len(), 1nat, n,
{
    if n > 0 {
        lemma_dec_value_consumes(s, d);
        match dec_value(s, d) {
            Ok((v, r)) => {
                if r.len() < s.len() {
                    lemma_dec_values_consumes(r, (n - 1) as nat, d);
                }
            },
            Err(_) => {},
        }
    }
}

/// Reading a run of pairs never grows the remainder.
pub proof fn lemma_dec_entries_consumes(s: Seq<u8>, n: nat, d: nat)
    ensures
        dec_entries(s, n, d) matches Ok(p) ==> p.1.len() <= s.len(),
    decreases s.len(), 1nat, n,
{
    if n > 0 {
        lemma_dec_value_consumes(s, d);
        match dec_value(s, d) {
            Ok((k, r1)) => {
                if r1.len() < s.len() {
                    lemma_dec_value_consumes(r1, d);
                    match dec_value(r1, d) {
                        Ok((v, r2)) => {
                            if r2.len() < s.len() {
                                lemma_dec_entries_consumes(r2, (n - 1) as nat, d);
                            }
                        },
                        Err(_) => {},
                    }
                }
            },
            Err(_) => {},
        }
    }
}

} // verus!
