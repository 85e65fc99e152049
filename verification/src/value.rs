//! The tagged in-memory representation of one decoded unit, and its
//! mathematical view.
//!
//! `DecodedValue` is what the decoder produces and what the encoder can
//! serialize again.  Exactly one variant is populated per decoded unit.
//! Whether a unit carries `Signed` or `Unsigned` is decided by the wire tag
//! alone, never by the numeric sign of the decoded number: a `Uint8`-tagged
//! 5 decodes as `Unsigned(5)`, never as `Signed(5)`.
//!
//! Floating-point payloads are carried as their raw IEEE-754 bit patterns
//! (`u32` / `u64`); the codec never interprets them, it only moves them
//! across the wire big-endian.

use vstd::prelude::*;

verus! {

/// One decoded MessagePack unit.
#[derive(Debug)]
pub enum DecodedValue {
    /// Produced by the signed-integer tags and the negative fixed form.
    Signed(i64),
    /// Produced by the unsigned-integer tags and the positive fixed form.
    Unsigned(u64),
    /// Owned UTF-8 text; the payload bytes are validated on decode.
    String(String),
    /// An owned byte blob.
    Binary(Vec<u8>),
    /// An ordered sequence of child units; owns its elements.
    Array(Vec<DecodedValue>),
    /// A 32-bit IEEE-754 value, carried as its raw bit pattern.
    Float32(u32),
    /// A 64-bit IEEE-754 value, carried as its raw bit pattern.
    Float64(u64),
    /// An application-defined extension block: type code and payload.
    Extension(i8, Vec<u8>),
    /// An ordered sequence of key/value pairs; owns its entries.
    Mapping(Vec<(DecodedValue, DecodedValue)>),
    Boolean(bool),
    Nil,
}

/// The mathematical shape of a decoded unit: the same tree with every owned
/// container replaced by its sequence abstraction.
pub enum Value {
    Signed(i64),
    Unsigned(u64),
    String(Seq<char>),
    Binary(Seq<u8>),
    Array(Seq<Value>),
    Float32(u32),
    Float64(u64),
    Extension(i8, Seq<u8>),
    Mapping(Seq<(Value, Value)>),
    Boolean(bool),
    Nil,
}

/// The view of a `DecodedValue`, taken recursively through arrays and maps.
pub open spec fn value_view(v: DecodedValue) -> Value
    decreases v,
{
    match v {
        DecodedValue::Signed(i) => Value::Signed(i),
        DecodedValue::Unsigned(u) => Value::Unsigned(u),
        DecodedValue::String(s) => Value::String(s@),
        DecodedValue::Binary(b) => Value::Binary(b@),
        DecodedValue::Array(es) => Value::Array(values_view(es@)),
        DecodedValue::Float32(bits) => Value::Float32(bits),
        DecodedValue::Float64(bits) => Value::Float64(bits),
        DecodedValue::Extension(code, data) => Value::Extension(code, data@),
        DecodedValue::Mapping(ps) => Value::Mapping(entries_view(ps@)),
        DecodedValue::Boolean(b) => Value::Boolean(b),
        DecodedValue::Nil => Value::Nil,
    }
}

/// The views of a sequence of child units, element by element.
pub open spec fn values_view(s: Seq<DecodedValue>) -> Seq<Value>
    decreases s,
{
    if s.len() == 0 {
        Seq::empty()
    } else {
        seq![value_view(s[0])] + values_view(s.subrange(1, s.len() as int))
    }
}

/// The views of a sequence of key/value entries, entry by entry.
pub open spec fn entries_view(s: Seq<(DecodedValue, DecodedValue)>) -> Seq<(Value, Value)>
    decreases s,
{
    if s.len() == 0 {
        Seq::empty()
    } else {
        seq![(value_view(s[0].0), value_view(s[0].1))]
            + entries_view(s.subrange(1, s.len() as int))
    }
}

impl View for DecodedValue {
    type V = Value;

    open spec fn view(&self) -> Value {
        value_view(*self)
    }
}

/// `values_view` maps the sequence element by element.
pub proof fn lemma_values_view_props(s: Seq<DecodedValue>)
    ensures
        values_view(s).len() == s.len(),
        forall|i: int| 0 <= i < s.len() ==> values_view(s)[i] == value_view(s[i]),
    decreases s.len(),
{
    if s.len() > 0 {
        lemma_values_view_props(s.subrange(1, s.len() as int));
    }
}

/// `entries_view` maps the sequence entry by entry.
pub proof fn lemma_entries_view_props(s: Seq<(DecodedValue, DecodedValue)>)
    ensures
        entries_view(s).len() == s.len(),
        forall|i: int| 0 <= i < s.len() ==> entries_view(s)[i] == (
            value_view(s[i].0),
            value_view(s[i].1),
        ),
    decreases s.len(),
{
    if s.len() > 0 {
        lemma_entries_view_props(s.subrange(1, s.len() as int));
    }
}

} // verus!
