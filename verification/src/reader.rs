//! The decoder: reads one encoded unit from a borrowed byte slice,
//! reconstructing a `DecodedValue` or reporting why it cannot.
//!
//! `try_read` is specified against the wire model's `dec_value`: it returns
//! exactly the value the model assigns to the unread bytes, consuming
//! exactly that unit, or exactly the error the model assigns.  On failure
//! the position is not reset; the caller owns any recovery policy.

use vstd::prelude::*;
use vstd::slice::{slice_index_get, slice_subrange, slice_to_vec};
use vstd::utf8::{decode_utf8, valid_utf8};

use crate::magic::{
    TAG_ARRAY16, TAG_ARRAY32, TAG_BIN16, TAG_BIN32, TAG_BIN8, TAG_EXT16, TAG_EXT32, TAG_EXT8,
    TAG_FALSE, TAG_FIXEXT1, TAG_FIXEXT16, TAG_FIXEXT2, TAG_FIXEXT4, TAG_FIXEXT8, TAG_FLOAT32,
    TAG_FLOAT64, TAG_INT16, TAG_INT32, TAG_INT64, TAG_INT8, TAG_MAP16, TAG_MAP32, TAG_NIL,
    TAG_STR16, TAG_STR32, TAG_STR8, TAG_TRUE, TAG_UINT16, TAG_UINT32, TAG_UINT64, TAG_UINT8,
};
use crate::value::{
    entries_view, lemma_entries_view_props, lemma_values_view_props, values_view, DecodedValue,
    Value,
};
use crate::wire::{
    be16_val, be32_val, be64_val, dec_bin_payload, dec_entries, dec_ext_payload, dec_str_payload,
    dec_value, dec_values, lemma_dec_value_consumes, signed8_val, DecodeError,
};

verus! {

/// How many container levels the decoder will enter.  A crafted stream can
/// claim deep nesting cheaply, so the recursion fails closed with
/// `DecodeError::DepthLimit` rather than exhaust the call stack.
pub const MAX_NESTING_DEPTH: usize = 128;

/// Reads MessagePack-encoded data from a borrowed byte slice, one unit per
/// call, keeping its position between calls.
pub struct MsgPackReader<'a> {
    data: &'a [u8],
    pos: usize,
}

impl<'a> MsgPackReader<'a> {
    /// The reader never points past the end of its slice.
    pub closed spec fn wf(&self) -> bool {
        self.pos <= self.data@.len()
    }

    /// The bytes not yet consumed.
    pub closed spec fn remaining(&self) -> Seq<u8> {
        self.data@.subrange(self.pos as int, self.data@.len() as int)
    }

    /// A reader positioned at the start of the given bytes.
    pub fn new(data: &'a [u8]) -> (r: MsgPackReader<'a>)
        ensures
            r.wf(),
            r.remaining() == data@,
    {
        let r = MsgPackReader { data, pos: 0 };
        assert(r.remaining() =~= data@);
        r
    }

    /// Takes the next byte, or reports that the stream ended.
    fn read_byte(&mut self) -> (r: Result<u8, DecodeError>)
        requires
            old(self).wf(),
        ensures
            final(self).wf(),
            old(self).remaining().len() == 0 ==> r == Err::<u8, DecodeError>(
                DecodeError::InsufficientData,
            ) && final(self).remaining() == old(self).remaining(),
            old(self).remaining().len() > 0 ==> r == Ok::<u8, DecodeError>(
                old(self).remaining()[0],
            ) && final(self).remaining() == old(self).remaining().subrange(
                1,
                old(self).remaining().len() as int,
            ),
    {
        if self.pos < self.data.len() {
            let b = *slice_index_get(self.data, self.pos);
            self.pos = self.pos + 1;
            assert(self.remaining() =~= old(self).remaining().subrange(
                1,
                old(self).remaining().len() as int,
            ));
            Ok(b)
        } else {
            Err(DecodeError::InsufficientData)
        }
    }

    /// Takes the next `n` bytes as an owned vector, or reports a short
    /// stream without consuming anything.
    fn read_exact(&mut self, n: usize) -> (r: Result<Vec<u8>, DecodeError>)
        requires
            old(self).wf(),
        ensures
            final(self).wf(),
            old(self).remaining().len() < n ==> r == Err::<Vec<u8>, DecodeError>(
                DecodeError::InsufficientData,
            ) && final(self).remaining() == old(self).remaining(),
            old(self).remaining().len() >= n ==> ({
                &&& r matches Ok(v)
                &&& v@ == old(self).remaining().subrange(0, n as int)
                &&& final(self).remaining() == old(self).remaining().subrange(
                    n as int,
                    old(self).remaining().len() as int,
                )
            }),
    {
        if n <= self.data.len() - self.pos {
            let s = slice_subrange(self.data, self.pos, self.pos + n);
            let v = slice_to_vec(s);
            self.pos = self.pos + n;
            assert(v@ =~= old(self).remaining().subrange(0, n as int));
            assert(self.remaining() =~= old(self).remaining().subrange(
                n as int,
                old(self).remaining().len() as int,
            ));
            Ok(v)
        } else {
            Err(DecodeError::InsufficientData)
        }
    }

    /// Takes the next two bytes as a big-endian 16-bit value.
    fn read_be16(&mut self) -> (r: Result<u16, DecodeError>)
        requires
            old(self).wf(),
        ensures
            final(self).wf(),
            old(self).remaining().len() < 2 ==> r == Err::<u16, DecodeError>(
                DecodeError::InsufficientData,
            ) && final(self).remaining() == old(self).remaining(),
            old(self).remaining().len() >= 2 ==> r == Ok::<u16, DecodeError>(
                be16_val(old(self).remaining().subrange(0, 2)),
            ) && final(self).remaining() == old(self).remaining().subrange(
                2,
                old(self).remaining().len() as int,
            ),
    {
        if 2 <= self.data.len() - self.pos {
            let b0 = *slice_index_get(self.data, self.pos);
            let b1 = *slice_index_get(self.data, self.pos + 1);
            self.pos = self.pos + 2;
            let v = (b0 as u16) * 0x100 + (b1 as u16);
            assert(old(self).remaining().subrange(0, 2)[0] == b0);
            assert(old(self).remaining().subrange(0, 2)[1] == b1);
            assert(self.remaining() =~= old(self).remaining().subrange(
                2,
                old(self).remaining().len() as int,
            ));
            Ok(v)
        } else {
            Err(DecodeError::InsufficientData)
        }
    }

    /// Takes the next four bytes as a big-endian 32-bit value.
    fn read_be32(&mut self) -> (r: Result<u32, DecodeError>)
        requires
            old(self).wf(),
        ensures
            final(self).wf(),
            old(self).remaining().len() < 4 ==> r == Err::<u32, DecodeError>(
                DecodeError::InsufficientData,
            ) && final(self).remaining() == old(self).remaining(),
            old(self).remaining().len() >= 4 ==> r == Ok::<u32, DecodeError>(
                be32_val(old(self).remaining().subrange(0, 4)),
            ) && final(self).remaining() == old(self).remaining().subrange(
                4,
                old(self).remaining().len() as int,
            ),
    {
        if 4 <= self.data.len() - self.pos {
            let b0 = *slice_index_get(self.data, self.pos);
            let b1 = *slice_index_get(self.data, self.pos + 1);
            let b2 = *slice_index_get(self.data, self.pos + 2);
            let b3 = *slice_index_get(self.data, self.pos + 3);
            self.pos = self.pos + 4;
            let v = (b0 as u32) * 0x1000000 + (b1 as u32) * 0x10000 + (b2 as u32) * 0x100 + (
            b3 as u32);
            assert(old(self).remaining().subrange(0, 4)[0] == b0);
            assert(old(self).remaining().subrange(0, 4)[1] == b1);
            assert(old(self).remaining().subrange(0, 4)[2] == b2);
            assert(old(self).remaining().subrange(0, 4)[3] == b3);
            assert(self.remaining() =~= old(self).remaining().subrange(
                4,
                old(self).remaining().len() as int,
            ));
            Ok(v)
        } else {
            Err(DecodeError::InsufficientData)
        }
    }

    /// Takes the next eight bytes as a big-endian 64-bit value.
    fn read_be64(&mut self) -> (r: Result<u64, DecodeError>)
        requires
            old(self).wf(),
        ensures
            final(self).wf(),
            old(self).remaining().len() < 8 ==> r == Err::<u64, DecodeError>(
                DecodeError::InsufficientData,
            ) && final(self).remaining() == old(self).remaining(),
            old(self).remaining().len() >= 8 ==> r == Ok::<u64, DecodeError>(
                be64_val(old(self).remaining().subrange(0, 8)),
            ) && final(self).remaining() == old(self).remaining().subrange(
                8,
                old(self).remaining().len() as int,
            ),
    {
        if 8 <= self.data.len() - self.pos {
            let b0 = *slice_index_get(self.data, self.pos);
            let b1 = *slice_index_get(self.data, self.pos + 1);
            let b2 = *slice_index_get(self.data, self.pos + 2);
            let b3 = *slice_index_get(self.data, self.pos + 3);
            let b4 = *slice_index_get(self.data, self.pos + 4);
            let b5 = *slice_index_get(self.data, self.pos + 5);
            let b6 = *slice_index_get(self.data, self.pos + 6);
            let b7 = *slice_index_get(self.data, self.pos + 7);
            self.pos = self.pos + 8;
            let v = (b0 as u64) * 0x100000000000000 + (b1 as u64) * 0x1000000000000 + (b2 as u64)
                * 0x10000000000 + (b3 as u64) * 0x100000000 + (b4 as u64) * 0x1000000 + (b5 as u64)
                * 0x10000 + (b6 as u64) * 0x100 + (b7 as u64);
            assert(old(self).remaining().subrange(0, 8)[0] == b0);
            assert(old(self).remaining().subrange(0, 8)[1] == b1);
            assert(old(self).remaining().subrange(0, 8)[2] == b2);
            assert(old(self).remaining().subrange(0, 8)[3] == b3);
            assert(old(self).remaining().subrange(0, 8)[4] == b4);
            assert(old(self).remaining().subrange(0, 8)[5] == b5);
            assert(old(self).remaining().subrange(0, 8)[6] == b6);
            assert(old(self).remaining().subrange(0, 8)[7] == b7);
            assert(self.remaining() =~= old(self).remaining().subrange(
                8,
                old(self).remaining().len() as int,
            ));
            Ok(v)
        } else {
            Err(DecodeError::InsufficientData)
        }
    }
}

/// Relies on `String::from_utf8`: it succeeds exactly when the bytes are
/// valid UTF-8, and the resulting string wraps exactly the given bytes,
/// so its characters are their UTF-8 decoding.
#[verifier::external_body]
fn string_from_utf8(bytes: Vec<u8>) -> (r: Option<String>)
    ensures
        r is Some <==> valid_utf8(bytes@),
        r matches Some(s) ==> s@ == decode_utf8(bytes@),
{
    match String::from_utf8(bytes) {
        Ok(s) => Some(s),
        Err(_) => None,
    }
}

impl<'a> MsgPackReader<'a> {
    /// Reads a string payload of `len` bytes and validates it as UTF-8.
    fn read_str(&mut self, len: usize) -> (r: Result<DecodedValue, DecodeError>)
        requires
            old(self).wf(),
        ensures
            final(self).wf(),
            dec_str_payload(old(self).remaining(), len as nat) matches Ok(p) ==> ({
                &&& r matches Ok(dv)
                &&& dv@ == p.0
                &&& final(self).remaining() == p.1
            }),
            dec_str_payload(old(self).remaining(), len as nat) matches Err(e) ==> r
                == Err::<DecodedValue, DecodeError>(e),
    {
        let data = match self.read_exact(len) {
            Ok(d) => d,
            Err(e) => {
                return Err(e);
            },
        };
        match string_from_utf8(data) {
            Option::Some(s) => Ok(DecodedValue::String(s)),
            Option::None => Err(DecodeError::InvalidUtf8),
        }
    }

    /// Reads a binary payload of `len` bytes.
    fn read_bin(&mut self, len: usize) -> (r: Result<DecodedValue, DecodeError>)
        requires
            old(self).wf(),
        ensures
            final(self).wf(),
            dec_bin_payload(old(self).remaining(), len as nat) matches Ok(p) ==> ({
                &&& r matches Ok(dv)
                &&& dv@ == p.0
                &&& final(self).remaining() == p.1
            }),
            dec_bin_payload(old(self).remaining(), len as nat) matches Err(e) ==> r
                == Err::<DecodedValue, DecodeError>(e),
    {
        match self.read_exact(len) {
            Ok(d) => Ok(DecodedValue::Binary(d)),
            Err(e) => Err(e),
        }
    }

    /// Reads an extension body: the signed type-code byte, then `len`
    /// payload bytes.
    fn read_ext(&mut self, len: usize) -> (r: Result<DecodedValue, DecodeError>)
        requires
            old(self).wf(),
        ensures
            final(self).wf(),
            dec_ext_payload(old(self).remaining(), len as nat) matches Ok(p) ==> ({
                &&& r matches Ok(dv)
                &&& dv@ == p.0
                &&& final(self).remaining() == p.1
            }),
            dec_ext_payload(old(self).remaining(), len as nat) matches Err(e) ==> r
                == Err::<DecodedValue, DecodeError>(e),
    {
        let code_byte = match self.read_byte() {
            Ok(b) => b,
            Err(e) => {
                return Err(e);
            },
        };
        let code: i8 = if code_byte < 0x80 {
            code_byte as i8
        } else {
            ((code_byte as i16) - 0x100) as i8
        };
        assert(code == signed8_val(code_byte) as i8);
        match self.read_exact(len) {
            Ok(d) => {
                assert(dec_ext_payload(old(self).remaining(), len as nat) matches Ok(p) ==> d@
                    == old(self).remaining().subrange(1, len + 1 as int));
                Ok(DecodedValue::Extension(code, d))
            },
            Err(e) => Err(e),
        }
    }
}

/// A run of already-decoded values, prepended to the outcome of decoding
/// the rest of a run.
spec fn prepend_values(
    pre: Seq<Value>,
    r: Result<(Seq<Value>, Seq<u8>), DecodeError>,
) -> Result<(Seq<Value>, Seq<u8>), DecodeError> {
    match r {
        Ok(p) => Ok((pre + p.0, p.1)),
        Err(e) => Err(e),
    }
}

/// A run of already-decoded pairs, prepended to the outcome of decoding
/// the rest of a run.
spec fn prepend_entries(
    pre: Seq<(Value, Value)>,
    r: Result<(Seq<(Value, Value)>, Seq<u8>), DecodeError>,
) -> Result<(Seq<(Value, Value)>, Seq<u8>), DecodeError> {
    match r {
        Ok(p) => Ok((pre + p.0, p.1)),
        Err(e) => Err(e),
    }
}

impl<'a> MsgPackReader<'a> {
    /// Decodes `elements` units in sequence into one `Array` value,
    /// short-circuiting on the first inner failure.  `depth` is the
    /// nesting budget left for the elements.
    #[verifier::loop_isolation(false)]
    fn read_array(&mut self, elements: usize, depth: usize) -> (r: Result<
        DecodedValue,
        DecodeError,
    >)
        requires
            old(self).wf(),
        ensures
            final(self).wf(),
            dec_values(old(self).remaining(), elements as nat, depth as nat) matches Ok(p) ==> ({
                &&& r matches Ok(dv)
                &&& dv@ == Value::Array(p.0)
                &&& final(self).remaining() == p.1
            }),
            dec_values(old(self).remaining(), elements as nat, depth as nat) matches Err(e) ==> r
                == Err::<DecodedValue, DecodeError>(e),
        decreases old(self).remaining().len(), 1nat,
    {
        let ghost s0 = old(self).remaining();
        let mut accum: Vec<DecodedValue> = Vec::new();
        let mut current: usize = 0;
        assert(values_view(accum@) =~= Seq::<Value>::empty());
        while current < elements
            invariant
                current <= elements,
                self.wf(),
                self.remaining().len() <= s0.len(),
                accum@.len() == current,
                dec_values(s0, elements as nat, depth as nat) == prepend_values(
                    values_view(accum@),
                    dec_values(self.remaining(), (elements - current) as nat, depth as nat),
                ),
            decreases elements - current,
        {
            let ghost cur = self.remaining();
            let ghost pre = values_view(accum@);
            proof {
                lemma_dec_value_consumes(cur, depth as nat);
            }
            let next = match self.try_read_at(depth) {
                Ok(v) => v,
                Err(e) => {
                    return Err(e);
                },
            };
            proof {
                let v = dec_value(cur, depth as nat)->Ok_0.0;
                let rest = dec_value(cur, depth as nat)->Ok_0.1;
                lemma_values_view_props(accum@);
                lemma_values_view_props(accum@.push(next));
                assert(values_view(accum@.push(next)) =~= pre.push(next@));
                assert(pre.push(next@) =~= pre + seq![next@]);
                match dec_values(rest, (elements - current - 1) as nat, depth as nat) {
                    Ok(p) => {
                        assert(pre + (seq![v] + p.0) =~= (pre + seq![v]) + p.0);
                    },
                    Err(_) => {},
                }
            }
            accum.push(next);
            current = current + 1;
        }
        proof {
            assert(dec_values(self.remaining(), 0nat, depth as nat) == Ok::<
                (Seq<Value>, Seq<u8>),
                DecodeError,
            >((Seq::<Value>::empty(), self.remaining())));
            assert(values_view(accum@) + Seq::<Value>::empty() =~= values_view(accum@));
        }
        Ok(DecodedValue::Array(accum))
    }

    /// Decodes `pairs` key/value unit pairs in sequence into one `Mapping`
    /// value, short-circuiting on the first inner failure.  `depth` is the
    /// nesting budget left for the keys and values.
    #[verifier::loop_isolation(false)]
    fn read_map(&mut self, pairs: usize, depth: usize) -> (r: Result<DecodedValue, DecodeError>)
        requires
            old(self).wf(),
        ensures
            final(self).wf(),
            dec_entries(old(self).remaining(), pairs as nat, depth as nat) matches Ok(p) ==> ({
                &&& r matches Ok(dv)
                &&& dv@ == Value::Mapping(p.0)
                &&& final(self).remaining() == p.1
            }),
            dec_entries(old(self).remaining(), pairs as nat, depth as nat) matches Err(e) ==> r
                == Err::<DecodedValue, DecodeError>(e),
        decreases old(self).remaining().len(), 1nat,
    {
        let ghost s0 = old(self).remaining();
        let mut accum: Vec<(DecodedValue, DecodedValue)> = Vec::new();
        let mut current: usize = 0;
        assert(entries_view(accum@) =~= Seq::<(Value, Value)>::empty());
        while current < pairs
            invariant
                current <= pairs,
                self.wf(),
                self.remaining().len() <= s0.len(),
                accum@.len() == current,
                dec_entries(s0, pairs as nat, depth as nat) == prepend_entries(
                    entries_view(accum@),
                    dec_entries(self.remaining(), (pairs - current) as nat, depth as nat),
                ),
            decreases pairs - current,
        {
            let ghost cur = self.remaining();
            let ghost pre = entries_view(accum@);
            proof {
                lemma_dec_value_consumes(cur, depth as nat);
            }
            let key = match self.try_read_at(depth) {
                Ok(v) => v,
                Err(e) => {
                    return Err(e);
                },
            };
            let ghost cur2 = self.remaining();
            proof {
                lemma_dec_value_consumes(cur2, depth as nat);
            }
            let val = match self.try_read_at(depth) {
                Ok(v) => v,
                Err(e) => {
                    return Err(e);
                },
            };
            proof {
                let k = dec_value(cur, depth as nat)->Ok_0.0;
                let v = dec_value(cur2, depth as nat)->Ok_0.0;
                let rest = dec_value(cur2, depth as nat)->Ok_0.1;
                lemma_entries_view_props(accum@);
                lemma_entries_view_props(accum@.push((key, val)));
                assert(entries_view(accum@.push((key, val))) =~= pre.push((key@, val@)));
                assert(pre.push((k, v)) =~= pre + seq![(k, v)]);
                match dec_entries(rest, (pairs - current - 1) as nat, depth as nat) {
                    Ok(p) => {
                        assert(pre + (seq![(k, v)] + p.0) =~= (pre + seq![(k, v)]) + p.0);
                    },
                    Err(_) => {},
                }
            }
            accum.push((key, val));
            current = current + 1;
        }
        proof {
            assert(dec_entries(self.remaining(), 0nat, depth as nat) == Ok::<
                (Seq<(Value, Value)>, Seq<u8>),
                DecodeError,
            >((Seq::<(Value, Value)>::empty(), self.remaining())));
            assert(entries_view(accum@) + Seq::<(Value, Value)>::empty() =~= entries_view(accum@));
        }
        Ok(DecodedValue::Mapping(accum))
    }

    /// Reads the body of a unit whose tag byte, already consumed, is one
    /// of the exact (non-range) tag values.
    #[verifier::rlimit(100)]
    #[verifier::spinoff_prover]
    fn read_tagged(&mut self, tag: u8, depth: usize) -> (r: Result<DecodedValue, DecodeError>)
        requires
            old(self).wf(),
            0xC0 <= tag <= 0xDF,
        ensures
            final(self).wf(),
            dec_value(seq![tag] + old(self).remaining(), depth as nat) matches Ok(p) ==> ({
                &&& r matches Ok(dv)
                &&& dv@ == p.0
                &&& final(self).remaining() == p.1
            }),
            dec_value(seq![tag] + old(self).remaining(), depth as nat) matches Err(e) ==> r
                == Err::<DecodedValue, DecodeError>(e),
        decreases old(self).remaining().len(), 1nat,
    {
        proof {
            assert((seq![tag] + old(self).remaining()).subrange(
                1,
                (seq![tag] + old(self).remaining()).len() as int,
            ) =~= old(self).remaining());
        }
        if tag == TAG_NIL {
            Ok(DecodedValue::Nil)
        } else if tag == TAG_TRUE {
            Ok(DecodedValue::Boolean(true))
        } else if tag == TAG_FALSE {
            Ok(DecodedValue::Boolean(false))
        } else if tag == TAG_UINT8 {
            match self.read_byte() {
                Ok(b) => Ok(DecodedValue::Unsigned(b as u64)),
                Err(e) => Err(e),
            }
        } else if tag == TAG_UINT16 {
            match self.read_be16() {
                Ok(v) => Ok(DecodedValue::Unsigned(v as u64)),
                Err(e) => Err(e),
            }
        } else if tag == TAG_UINT32 {
            match self.read_be32() {
                Ok(v) => Ok(DecodedValue::Unsigned(v as u64)),
                Err(e) => Err(e),
            }
        } else if tag == TAG_UINT64 {
            match self.read_be64() {
                Ok(v) => Ok(DecodedValue::Unsigned(v)),
                Err(e) => Err(e),
            }
        } else if tag == TAG_INT8 {
            match self.read_byte() {
                Ok(b) => {
                    let sv: i64 = if b < 0x80 {
                        b as i64
                    } else {
                        (b as i64) - 0x100
                    };
                    Ok(DecodedValue::Signed(sv))
                },
                Err(e) => Err(e),
            }
        } else if tag == TAG_INT16 {
            match self.read_be16() {
                Ok(v) => {
                    let sv: i64 = if v < 0x8000 {
                        v as i64
                    } else {
                        (v as i64) - 0x10000
                    };
                    Ok(DecodedValue::Signed(sv))
                },
                Err(e) => Err(e),
            }
        } else if tag == TAG_INT32 {
            match self.read_be32() {
                Ok(v) => {
                    let sv: i64 = if v < 0x80000000 {
                        v as i64
                    } else {
                        (v as i64) - 0x100000000
                    };
                    Ok(DecodedValue::Signed(sv))
                },
                Err(e) => Err(e),
            }
        } else if tag == TAG_INT64 {
            match self.read_be64() {
                Ok(v) => {
                    let sv: i64 = if v < 0x8000000000000000 {
                        v as i64
                    } else {
                        (((v as i128) - 0x10000000000000000) as i64)
                    };
                    Ok(DecodedValue::Signed(sv))
                },
                Err(e) => Err(e),
            }
        } else if tag == TAG_FLOAT32 {
            match self.read_be32() {
                Ok(bits) => Ok(DecodedValue::Float32(bits)),
                Err(e) => Err(e),
            }
        } else if tag == TAG_FLOAT64 {
            match self.read_be64() {
                Ok(bits) => Ok(DecodedValue::Float64(bits)),
                Err(e) => Err(e),
            }
        } else if tag == TAG_STR8 {
            match self.read_byte() {
                Ok(len) => self.read_str(len as usize),
                Err(e) => Err(e),
            }
        } else if tag == TAG_STR16 {
            match self.read_be16() {
                Ok(len) => self.read_str(len as usize),
                Err(e) => Err(e),
            }
        } else if tag == TAG_STR32 {
            match self.read_be32() {
                Ok(len) => self.read_str(len as usize),
                Err(e) => Err(e),
            }
        } else if tag == TAG_BIN8 {
            match self.read_byte() {
                Ok(len) => self.read_bin(len as usize),
                Err(e) => Err(e),
            }
        } else if tag == TAG_BIN16 {
            match self.read_be16() {
                Ok(len) => self.read_bin(len as usize),
                Err(e) => Err(e),
            }
        } else if tag == TAG_BIN32 {
            match self.read_be32() {
                Ok(len) => self.read_bin(len as usize),
                Err(e) => Err(e),
            }
        } else if tag == TAG_ARRAY16 {
            if depth == 0 {
                return Err(DecodeError::DepthLimit);
            }
            match self.read_be16() {
                Ok(len) => self.read_array(len as usize, depth - 1),
                Err(e) => Err(e),
            }
        } else if tag == TAG_ARRAY32 {
            if depth == 0 {
                return Err(DecodeError::DepthLimit);
            }
            match self.read_be32() {
                Ok(len) => self.read_array(len as usize, depth - 1),
                Err(e) => Err(e),
            }
        } else if tag == TAG_MAP16 {
            if depth == 0 {
                return Err(DecodeError::DepthLimit);
            }
            match self.read_be16() {
                Ok(len) => self.read_map(len as usize, depth - 1),
                Err(e) => Err(e),
            }
        } else if tag == TAG_MAP32 {
            if depth == 0 {
                return Err(DecodeError::DepthLimit);
            }
            match self.read_be32() {
                Ok(len) => self.read_map(len as usize, depth - 1),
                Err(e) => Err(e),
            }
        } else if tag == TAG_EXT8 {
            match self.read_byte() {
                Ok(len) => self.read_ext(len as usize),
                Err(e) => Err(e),
            }
        } else if tag == TAG_EXT16 {
            match self.read_be16() {
                Ok(len) => self.read_ext(len as usize),
                Err(e) => Err(e),
            }
        } else if tag == TAG_EXT32 {
            match self.read_be32() {
                Ok(len) => self.read_ext(len as usize),
                Err(e) => Err(e),
            }
        } else if tag == TAG_FIXEXT1 {
            self.read_ext(1)
        } else if tag == TAG_FIXEXT2 {
            self.read_ext(2)
        } else if tag == TAG_FIXEXT4 {
            self.read_ext(4)
        } else if tag == TAG_FIXEXT8 {
            self.read_ext(8)
        } else if tag == TAG_FIXEXT16 {
            self.read_ext(16)
        } else {
            Err(DecodeError::NoData)
        }
    }

    /// Reads one unit with `depth` levels of container nesting still
    /// allowed below this one.
    #[verifier::rlimit(100)]
    #[verifier::spinoff_prover]
    fn try_read_at(&mut self, depth: usize) -> (r: Result<DecodedValue, DecodeError>)
        requires
            old(self).wf(),
        ensures
            final(self).wf(),
            dec_value(old(self).remaining(), depth as nat) matches Ok(p) ==> ({
                &&& r matches Ok(dv)
                &&& dv@ == p.0
                &&& final(self).remaining() == p.1
            }),
            dec_value(old(self).remaining(), depth as nat) matches Err(e) ==> r == Err::<
                DecodedValue,
                DecodeError,
            >(e),
        decreases old(self).remaining().len(), 0nat,
    {
        let tag = match self.read_byte() {
            Ok(t) => t,
            Err(e) => {
                return Err(e);
            },
        };
        if tag < 0x80 {
            // fixed positive numbers (7-bit)
            Ok(DecodedValue::Unsigned(tag as u64))
        } else if tag >= 0xE0 {
            // fixed negative values (5-bit)
            Ok(DecodedValue::Signed((tag as i64) - 0x100))
        } else if 0xA0 <= tag && tag <= 0xBF {
            // fixed string (5-bit length, up to 31 bytes)
            self.read_str((tag - 0xA0) as usize)
        } else if 0x90 <= tag && tag <= 0x9F {
            // fixed array (4-bit count, up to 15 elements)
            if depth == 0 {
                Err(DecodeError::DepthLimit)
            } else {
                self.read_array((tag - 0x90) as usize, depth - 1)
            }
        } else if 0x80 <= tag && tag <= 0x8F {
            // fixed map (4-bit count, up to 15 pairs)
            if depth == 0 {
                Err(DecodeError::DepthLimit)
            } else {
                self.read_map((tag - 0x80) as usize, depth - 1)
            }
        } else {
            // every remaining tag value lies in 0xC0..=0xDF
            proof {
                assert(seq![tag] + self.remaining() =~= old(self).remaining());
            }
            self.read_tagged(tag, depth)
        }
    }

    /// Reads exactly one encoded unit beginning at the current position:    /// Reads exactly one encoded unit beginning at the current position:
    /// one tag byte, classified by range, then the trailing bytes the tag
    /// declares.  Returns exactly what the wire model assigns to the
    /// unread bytes under the nesting bound: the reconstructed value and
    /// how much was consumed, or the specific failure (`NoData` for an
    /// unknown tag, `InsufficientData` for a short payload, `InvalidUtf8`
    /// for a bad string, `DepthLimit` past `MAX_NESTING_DEPTH` container
    /// levels).  On failure the position is not reset.
    pub fn try_read(&mut self) -> (r: Result<DecodedValue, DecodeError>)
        requires
            old(self).wf(),
        ensures
            final(self).wf(),
            dec_value(old(self).remaining(), MAX_NESTING_DEPTH as nat) matches Ok(p) ==> ({
                &&& r matches Ok(dv)
                &&& dv@ == p.0
                &&& final(self).remaining() == p.1
            }),
            dec_value(old(self).remaining(), MAX_NESTING_DEPTH as nat) matches Err(e) ==> r
                == Err::<DecodedValue, DecodeError>(e),
    {
        self.try_read_at(MAX_NESTING_DEPTH)
    }

    /// The convenience entry point for callers that accept no-recovery
    /// semantics: the input is required to decode, so no failure can
    /// occur at run time.
    pub fn read(&mut self) -> (r: DecodedValue)
        requires
            old(self).wf(),
            dec_value(old(self).remaining(), MAX_NESTING_DEPTH as nat) is Ok,
        ensures
            final(self).wf(),
            dec_value(old(self).remaining(), MAX_NESTING_DEPTH as nat) matches Ok(p) ==> r@ == p.0
                && final(self).remaining() == p.1,
    {
        match self.try_read() {
            Ok(v) => v,
            Err(_) => vstd::pervasive::unreached(),
        }
    }
}

} // verus!
