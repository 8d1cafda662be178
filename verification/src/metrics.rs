//! The recorded value: one unit that is encoded into bytes and decoded from them whole.

use vstd::prelude::*;
use vstd::bytes::{lemma_auto_spec_u32_to_from_le_bytes, spec_u32_from_le_bytes,
    spec_u32_to_le_bytes, u32_from_le_bytes, u32_to_le_bytes};
use vstd::slice::slice_subrange;
use vstd::string::StringSliceAdditionalSpecFns;
use vstd::utf8::{decode_utf8, decode_utf8_encode_utf8, encode_utf8, encode_utf8_decode_utf8,
    encode_utf8_valid_utf8, valid_utf8};
use crate::keys::append_bytes;
use crate::store::copy_bytes;

verus! {

/// First byte of an encoded boolean.
pub const TAG_BOOLEAN: u8 = 0;

/// First byte of an encoded counter.
pub const TAG_COUNTER: u8 = 1;

/// First byte of an encoded string.
pub const TAG_STRING: u8 = 2;

/// First byte of an encoded identifier.
pub const TAG_UUID: u8 = 3;

/// A recorded value of one concrete kind.
#[derive(Clone, Debug, PartialEq, Eq)]
pub enum Metric {
    Boolean(bool),
    Counter(i32),
    String(String),
    Uuid(String),
}

/// What a recorded value holds, as a mathematical value.
pub enum MetricValue {
    Boolean(bool),
    Counter(i32),
    String(Seq<char>),
    Uuid(Seq<char>),
}

impl View for Metric {
    type V = MetricValue;

    open spec fn view(&self) -> MetricValue {
        match self {
            Metric::Boolean(b) => MetricValue::Boolean(*b),
            Metric::Counter(c) => MetricValue::Counter(*c),
            Metric::String(s) => MetricValue::String(s@),
            Metric::Uuid(s) => MetricValue::Uuid(s@),
        }
    }
}

/// The value of an optional metric.
pub open spec fn optional_value(m: Option<Metric>) -> Option<MetricValue> {
    match m {
        Some(m) => Some(m@),
        None => None,
    }
}

/// The bytes that stand for a value in the store: a tag byte, then the payload.
/// A boolean is one byte, 0 or 1; a counter its four bytes, lowest first, in two's
/// complement; a string or identifier its UTF-8 bytes.
pub open spec fn encode_value(v: MetricValue) -> Seq<u8> {
    match v {
        MetricValue::Boolean(b) => seq![TAG_BOOLEAN, if b { 1u8 } else { 0u8 }],
        MetricValue::Counter(c) => seq![TAG_COUNTER] + spec_u32_to_le_bytes(c as u32),
        MetricValue::String(s) => seq![TAG_STRING] + encode_utf8(s),
        MetricValue::Uuid(s) => seq![TAG_UUID] + encode_utf8(s),
    }
}

/// The value that stored bytes stand for, or `None` where they stand for none.
pub open spec fn decode_value(bytes: Seq<u8>) -> Option<MetricValue> {
    if bytes.len() == 0 {
        None
    } else if bytes[0] == TAG_BOOLEAN {
        if bytes.len() == 2 && bytes[1] <= 1 {
            Some(MetricValue::Boolean(bytes[1] == 1))
        } else {
            None
        }
    } else if bytes[0] == TAG_COUNTER {
        if bytes.len() == 5 {
            Some(MetricValue::Counter(spec_u32_from_le_bytes(bytes.skip(1)) as i32))
        } else {
            None
        }
    } else if bytes[0] == TAG_STRING {
        if valid_utf8(bytes.skip(1)) {
            Some(MetricValue::String(decode_utf8(bytes.skip(1))))
        } else {
            None
        }
    } else if bytes[0] == TAG_UUID {
        if valid_utf8(bytes.skip(1)) {
            Some(MetricValue::Uuid(decode_utf8(bytes.skip(1))))
        } else {
            None
        }
    } else {
        None
    }
}

/// A counter survives the passage through its unsigned bit pattern.
pub proof fn lemma_counter_bits(c: i32, u: u32)
    ensures
        ((c as u32) as i32) == c,
        ((u as i32) as u32) == u,
{
    assert(((c as u32) as i32) == c) by (bit_vector);
    assert(((u as i32) as u32) == u) by (bit_vector);
}

/// Decoding the encoding of a value gives the value back.
pub proof fn lemma_decode_encode(v: MetricValue)
    ensures
        decode_value(encode_value(v)) == Some(v),
{
    let bytes = encode_value(v);
    lemma_auto_spec_u32_to_from_le_bytes();
    match v {
        MetricValue::Boolean(b) => {},
        MetricValue::Counter(c) => {
            lemma_counter_bits(c, 0);
            assert(bytes.skip(1) =~= spec_u32_to_le_bytes(c as u32));
        },
        MetricValue::String(s) => {
            assert(bytes.skip(1) =~= encode_utf8(s));
            encode_utf8_valid_utf8(s);
            encode_utf8_decode_utf8(s);
        },
        MetricValue::Uuid(s) => {
            assert(bytes.skip(1) =~= encode_utf8(s));
            encode_utf8_valid_utf8(s);
            encode_utf8_decode_utf8(s);
        },
    }
}

/// Bytes that decode to a value are the encoding of that value: each value has one
/// encoding only.
pub proof fn lemma_encode_decode(bytes: Seq<u8>)
    requires
        decode_value(bytes) is Some,
    ensures
        encode_value(decode_value(bytes).unwrap()) == bytes,
{
    lemma_auto_spec_u32_to_from_le_bytes();
    let rest = bytes.skip(1);
    assert(bytes =~= seq![bytes[0]] + rest);
    if bytes[0] == TAG_BOOLEAN {
        assert(bytes =~= seq![TAG_BOOLEAN, bytes[1]]);
    } else if bytes[0] == TAG_COUNTER {
        lemma_counter_bits(0, spec_u32_from_le_bytes(rest));
    } else {
        decode_utf8_encode_utf8(rest);
    }
}

/// Turns bytes into a string where they are valid UTF-8.
///
/// Trusted: states of `String::from_utf8` that it succeeds exactly on valid UTF-8 and
/// that the string it returns consists of the bytes given.
#[verifier::external_body]
fn string_from_utf8(bytes: Vec<u8>) -> (r: Option<String>)
    ensures
        r.is_some() == valid_utf8(bytes@),
        r matches Some(s) ==> encode_utf8(s@) == bytes@,
{
    match String::from_utf8(bytes) {
        Ok(s) => Some(s),
        Err(_) => None,
    }
}

impl Metric {
    /// Encodes the value for storage.
    pub fn encode(&self) -> (out: Vec<u8>)
        ensures
            out@ == encode_value(self@),
    {
        let mut out: Vec<u8> = Vec::new();
        match self {
            Metric::Boolean(b) => {
                out.push(TAG_BOOLEAN);
                out.push(if *b { 1u8 } else { 0u8 });
                assert(out@ =~= encode_value(self@));
            },
            Metric::Counter(c) => {
                out.push(TAG_COUNTER);
                let bits: u32 = *c as u32;
                let payload = u32_to_le_bytes(bits);
                append_bytes(&mut out, payload.as_slice());
                assert(out@ =~= encode_value(self@));
            },
            Metric::String(s) => {
                out.push(TAG_STRING);
                append_bytes(&mut out, s.as_str().as_bytes());
                assert(out@ =~= encode_value(self@));
            },
            Metric::Uuid(s) => {
                out.push(TAG_UUID);
                append_bytes(&mut out, s.as_str().as_bytes());
                assert(out@ =~= encode_value(self@));
            },
        }
        out
    }

    /// Decodes stored bytes. Bytes that stand for no value give `None`.
    pub fn decode(bytes: &[u8]) -> (r: Option<Metric>)
        ensures
            optional_value(r) == decode_value(bytes@),
    {
        if bytes.len() == 0 {
            return None;
        }
        let tag: u8 = bytes[0];
        let rest = slice_subrange(bytes, 1, bytes.len());
        assert(rest@ =~= bytes@.skip(1));
        if tag == TAG_BOOLEAN {
            if bytes.len() == 2 && bytes[1] <= 1 {
                Some(Metric::Boolean(bytes[1] == 1))
            } else {
                None
            }
        } else if tag == TAG_COUNTER {
            if bytes.len() == 5 {
                let bits: u32 = u32_from_le_bytes(rest);
                Some(Metric::Counter(bits as i32))
            } else {
                None
            }
        } else if tag == TAG_STRING {
            match string_from_utf8(copy_bytes(rest)) {
                Some(s) => {
                    proof {
                        encode_utf8_decode_utf8(s@);
                    }
                    Some(Metric::String(s))
                },
                None => None,
            }
        } else if tag == TAG_UUID {
            match string_from_utf8(copy_bytes(rest)) {
                Some(s) => {
                    proof {
                        encode_utf8_decode_utf8(s@);
                    }
                    Some(Metric::Uuid(s))
                },
                None => None,
            }
        } else {
            None
        }
    }
}

} // verus!
