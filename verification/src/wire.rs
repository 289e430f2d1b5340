//! The wire format, stated mathematically.
//!
//! Everything here is specification: the byte sequences that each value kind
//! puts on the wire, and the result of reading each kind back. The executable
//! `Serializer` and `Deserializer` are verified against these functions.

use vstd::prelude::*;
use vstd::utf8::{decode_utf8, encode_scalar, encode_utf8, valid_utf8};

use crate::error::Error;
use crate::value::{boxed, Shape, SpecValue, VariantShape};

verus! {

/// The largest length a 4-byte count can carry.
pub const MAX_LEN: u64 = 0xffffffff;

/// Marker byte for boolean `true`.
pub const MARK_TRUE: u8 = 0xf5;

/// Marker byte for boolean `false`.
pub const MARK_FALSE: u8 = 0xf4;

/// Marker byte for an absent optional.
pub const MARK_NONE: u8 = 0xf6;

/// Marker byte for a present optional.
pub const MARK_SOME: u8 = 0xf7;

/// The two big-endian bytes of a 16-bit value, most significant first.
pub open spec fn u16_be_bytes(x: u16) -> Seq<u8> {
    seq![(x >> 8) as u8, x as u8]
}

/// The four big-endian bytes of a 32-bit value, most significant first.
pub open spec fn u32_be_bytes(x: u32) -> Seq<u8> {
    seq![(x >> 24) as u8, (x >> 16) as u8, (x >> 8) as u8, x as u8]
}

/// The eight big-endian bytes of a 64-bit value, most significant first.
pub open spec fn u64_be_bytes(x: u64) -> Seq<u8> {
    seq![
        (x >> 56) as u8,
        (x >> 48) as u8,
        (x >> 40) as u8,
        (x >> 32) as u8,
        (x >> 24) as u8,
        (x >> 16) as u8,
        (x >> 8) as u8,
        x as u8,
    ]
}

/// The 16-bit value read from two big-endian bytes.
pub open spec fn u16_of_be(b0: u8, b1: u8) -> u16 {
    ((b0 as u16) << 8) | (b1 as u16)
}

/// The 32-bit value read from four big-endian bytes.
pub open spec fn u32_of_be(b0: u8, b1: u8, b2: u8, b3: u8) -> u32 {
    ((b0 as u32) << 24) | ((b1 as u32) << 16) | ((b2 as u32) << 8) | (b3 as u32)
}

/// The 64-bit value read from eight big-endian bytes.
pub open spec fn u64_of_be(
    b0: u8,
    b1: u8,
    b2: u8,
    b3: u8,
    b4: u8,
    b5: u8,
    b6: u8,
    b7: u8,
) -> u64 {
    ((b0 as u64) << 56) | ((b1 as u64) << 48) | ((b2 as u64) << 40) | ((b3 as u64) << 32) | (
    (b4 as u64) << 24) | ((b5 as u64) << 16) | ((b6 as u64) << 8) | (b7 as u64)
}

/// Reading back the two big-endian bytes of a 16-bit value gives the value.
pub proof fn lemma_u16_be_round_trip(x: u16)
    ensures
        u16_of_be(u16_be_bytes(x)[0], u16_be_bytes(x)[1]) == x,
{
    assert((((x >> 8) as u8 as u16) << 8) | (x as u8 as u16) == x) by (bit_vector);
}

/// Reading back the four big-endian bytes of a 32-bit value gives the value.
pub proof fn lemma_u32_be_round_trip(x: u32)
    ensures
        u32_of_be(
            u32_be_bytes(x)[0],
            u32_be_bytes(x)[1],
            u32_be_bytes(x)[2],
            u32_be_bytes(x)[3],
        ) == x,
{
    assert((((x >> 24) as u8 as u32) << 24) | (((x >> 16) as u8 as u32) << 16) | (((x
        >> 8) as u8 as u32) << 8) | (x as u8 as u32) == x) by (bit_vector);
}

/// Reading back the eight big-endian bytes of a 64-bit value gives the value.
pub proof fn lemma_u64_be_round_trip(x: u64)
    ensures
        u64_of_be(
            u64_be_bytes(x)[0],
            u64_be_bytes(x)[1],
            u64_be_bytes(x)[2],
            u64_be_bytes(x)[3],
            u64_be_bytes(x)[4],
            u64_be_bytes(x)[5],
            u64_be_bytes(x)[6],
            u64_be_bytes(x)[7],
        ) == x,
{
    assert((((x >> 56) as u8 as u64) << 56) | (((x >> 48) as u8 as u64) << 48) | (((x
        >> 40) as u8 as u64) << 40) | (((x >> 32) as u8 as u64) << 32) | (((x
        >> 24) as u8 as u64) << 24) | (((x >> 16) as u8 as u64) << 16) | (((x
        >> 8) as u8 as u64) << 8) | (x as u8 as u64) == x) by (bit_vector);
}

/// Casting a signed value to unsigned of the same width and back gives the value.
pub proof fn lemma_i8_cast_round_trip(x: i8)
    ensures
        ((x as u8) as i8) == x,
{
    assert(((x as u8) as i8) == x) by (bit_vector);
}

/// Casting a signed value to unsigned of the same width and back gives the value.
pub proof fn lemma_i16_cast_round_trip(x: i16)
    ensures
        ((x as u16) as i16) == x,
{
    assert(((x as u16) as i16) == x) by (bit_vector);
}

/// Casting a signed value to unsigned of the same width and back gives the value.
pub proof fn lemma_i32_cast_round_trip(x: i32)
    ensures
        ((x as u32) as i32) == x,
{
    assert(((x as u32) as i32) == x) by (bit_vector);
}

/// Casting a signed value to unsigned of the same width and back gives the value.
pub proof fn lemma_i64_cast_round_trip(x: i64)
    ensures
        ((x as u64) as i64) == x,
{
    assert(((x as u64) as i64) == x) by (bit_vector);
}

/// Whether a value can be encoded at all: every string, byte blob, sequence
/// and map inside it is short enough for its 4-byte length prefix.
pub open spec fn encodable(v: SpecValue) -> bool
    decreases v, 0int,
{
    match v {
        SpecValue::Text(s) => encode_utf8(s).len() <= MAX_LEN,
        SpecValue::Bytes(b) => b.len() <= MAX_LEN,
        SpecValue::Present(inner) => encodable(*inner),
        SpecValue::Sequence(elems) => elems.len() <= MAX_LEN && all_encodable(elems),
        SpecValue::Mapping(pairs) => pairs.len() <= MAX_LEN && pairs_encodable(pairs),
        SpecValue::Tuple(elems) => all_encodable(elems),
        SpecValue::Record(elems) => all_encodable(elems),
        SpecValue::NewtypeVariant(_, inner) => encodable(*inner),
        SpecValue::TupleVariant(_, elems) => all_encodable(elems),
        SpecValue::StructVariant(_, elems) => all_encodable(elems),
        _ => true,
    }
}

/// Whether every element of a sequence is encodable.
pub open spec fn all_encodable(vs: Seq<SpecValue>) -> bool
    decreases vs, 1int,
{
    forall|i: int| 0 <= i < vs.len() ==> encodable(#[trigger] vs[i])
}

/// Whether every key and value of a map is encodable.
pub open spec fn pairs_encodable(ps: Seq<(SpecValue, SpecValue)>) -> bool
    decreases ps, 1int,
{
    forall|i: int| 0 <= i < ps.len() ==> encodable(#[trigger] ps[i].0) && encodable(ps[i].1)
}

/// The bytes a value puts on the wire. Meaningful whenever the value is
/// [`encodable`]; each composite is its parts in depth-first order.
pub open spec fn spec_encode(v: SpecValue) -> Seq<u8>
    decreases v, 0int,
{
    match v {
        SpecValue::Bool(b) => seq![if b { MARK_TRUE } else { MARK_FALSE }],
        SpecValue::I8(x) => seq![x as u8],
        SpecValue::I16(x) => u16_be_bytes(x as u16),
        SpecValue::I32(x) => u32_be_bytes(x as u32),
        SpecValue::I64(x) => u64_be_bytes(x as u64),
        SpecValue::U8(x) => seq![x],
        SpecValue::U16(x) => u16_be_bytes(x),
        SpecValue::U32(x) => u32_be_bytes(x),
        SpecValue::U64(x) => u64_be_bytes(x),
        SpecValue::F32Bits(x) => u32_be_bytes(x),
        SpecValue::F64Bits(x) => u64_be_bytes(x),
        SpecValue::Char(c) => seq![encode_scalar(c as u32).len() as u8] + encode_scalar(c as u32),
        SpecValue::Text(s) => u32_be_bytes(encode_utf8(s).len() as u32) + encode_utf8(s),
        SpecValue::Bytes(b) => u32_be_bytes(b.len() as u32) + b,
        SpecValue::Unit => seq![],
        SpecValue::Absent => seq![MARK_NONE],
        SpecValue::Present(inner) => seq![MARK_SOME] + spec_encode(*inner),
        SpecValue::Sequence(elems) => u32_be_bytes(elems.len() as u32) + spec_encode_list(elems),
        SpecValue::Mapping(pairs) => u32_be_bytes(pairs.len() as u32) + spec_encode_pairs(pairs),
        SpecValue::Tuple(elems) => spec_encode_list(elems),
        SpecValue::Record(elems) => spec_encode_list(elems),
        SpecValue::UnitVariant(idx) => u32_be_bytes(idx),
        SpecValue::NewtypeVariant(idx, inner) => u32_be_bytes(idx) + spec_encode(*inner),
        SpecValue::TupleVariant(idx, elems) => u32_be_bytes(idx) + spec_encode_list(elems),
        SpecValue::StructVariant(idx, elems) => u32_be_bytes(idx) + spec_encode_list(elems),
    }
}

/// The concatenated encodings of a row of values.
pub open spec fn spec_encode_list(vs: Seq<SpecValue>) -> Seq<u8>
    decreases vs, 1int,
{
    if vs.len() == 0 {
        seq![]
    } else {
        spec_encode(vs[0]) + spec_encode_list(vs.drop_first())
    }
}

/// The concatenated encodings of a row of pairs, key before value.
pub open spec fn spec_encode_pairs(ps: Seq<(SpecValue, SpecValue)>) -> Seq<u8>
    decreases ps, 1int,
{
    if ps.len() == 0 {
        seq![]
    } else {
        spec_encode(ps[0].0) + spec_encode(ps[0].1) + spec_encode_pairs(ps.drop_first())
    }
}

/// Reading one boolean: a single marker byte.
pub open spec fn take_bool(bytes: Seq<u8>) -> Result<(bool, int), Error> {
    if bytes.len() < 1 {
        Err(Error::ReadFailed)
    } else if bytes[0] == MARK_TRUE {
        Ok((true, 1))
    } else if bytes[0] == MARK_FALSE {
        Ok((false, 1))
    } else {
        Err(Error::InvalidBool)
    }
}

/// Reading one optional marker; the payload, if any, follows.
pub open spec fn take_opt_marker(bytes: Seq<u8>) -> Result<(bool, int), Error> {
    if bytes.len() < 1 {
        Err(Error::ReadFailed)
    } else if bytes[0] == MARK_NONE {
        Ok((false, 1))
    } else if bytes[0] == MARK_SOME {
        Ok((true, 1))
    } else {
        Err(Error::InvalidOption)
    }
}

/// Reading one byte.
pub open spec fn take_u8(bytes: Seq<u8>) -> Result<(u8, int), Error> {
    if bytes.len() < 1 {
        Err(Error::ReadFailed)
    } else {
        Ok((bytes[0], 1))
    }
}

/// Reading a 16-bit value from two big-endian bytes.
pub open spec fn take_u16(bytes: Seq<u8>) -> Result<(u16, int), Error> {
    if bytes.len() < 2 {
        Err(Error::ReadFailed)
    } else {
        Ok((u16_of_be(bytes[0], bytes[1]), 2))
    }
}

/// Reading a 32-bit value from four big-endian bytes.
pub open spec fn take_u32(bytes: Seq<u8>) -> Result<(u32, int), Error> {
    if bytes.len() < 4 {
        Err(Error::ReadFailed)
    } else {
        Ok((u32_of_be(bytes[0], bytes[1], bytes[2], bytes[3]), 4))
    }
}

/// Reading a 64-bit value from eight big-endian bytes.
pub open spec fn take_u64(bytes: Seq<u8>) -> Result<(u64, int), Error> {
    if bytes.len() < 8 {
        Err(Error::ReadFailed)
    } else {
        Ok(
            (
                u64_of_be(
                    bytes[0],
                    bytes[1],
                    bytes[2],
                    bytes[3],
                    bytes[4],
                    bytes[5],
                    bytes[6],
                    bytes[7],
                ),
                8,
            ),
        )
    }
}

/// Reading one character: a 1-byte length, then that many UTF-8 bytes; the
/// character is the first code point of the payload.
pub open spec fn take_char(bytes: Seq<u8>) -> Result<(char, int), Error> {
    match take_u8(bytes) {
        Err(e) => Err(e),
        Ok((len, _)) => {
            let n = len as int;
            if bytes.len() < 1 + n {
                Err(Error::ReadFailed)
            } else {
                let payload = bytes.subrange(1, 1 + n);
                if !valid_utf8(payload) {
                    Err(Error::InvalidUtf8)
                } else if n == 0 {
                    Err(Error::EmptyChar)
                } else {
                    Ok((decode_utf8(payload)[0], 1 + n))
                }
            }
        },
    }
}

/// Reading one string: a 4-byte length, then that many UTF-8 bytes.
pub open spec fn take_text(bytes: Seq<u8>) -> Result<(Seq<char>, int), Error> {
    match take_u32(bytes) {
        Err(e) => Err(e),
        Ok((len, _)) => {
            let n = len as int;
            if bytes.len() < 4 + n {
                Err(Error::ReadFailed)
            } else {
                let payload = bytes.subrange(4, 4 + n);
                if !valid_utf8(payload) {
                    Err(Error::InvalidUtf8)
                } else {
                    Ok((decode_utf8(payload), 4 + n))
                }
            }
        },
    }
}

/// Reading one byte blob: a 4-byte length, then that many raw bytes.
pub open spec fn take_blob(bytes: Seq<u8>) -> Result<(Seq<u8>, int), Error> {
    match take_u32(bytes) {
        Err(e) => Err(e),
        Ok((len, _)) => {
            let n = len as int;
            if bytes.len() < 4 + n {
                Err(Error::ReadFailed)
            } else {
                Ok((bytes.subrange(4, 4 + n), 4 + n))
            }
        },
    }
}

/// The result of reading one value of the requested shape from the front of
/// the stream: the value and how many bytes it took, or the first failure.
pub open spec fn spec_decode(bytes: Seq<u8>, shape: Shape) -> Result<(SpecValue, int), Error>
    decreases shape, 1int, 0int,
{
    match shape {
        Shape::Bool => match take_bool(bytes) {
            Ok((b, n)) => Ok((SpecValue::Bool(b), n)),
            Err(e) => Err(e),
        },
        Shape::I8 => match take_u8(bytes) {
            Ok((x, n)) => Ok((SpecValue::I8(x as i8), n)),
            Err(e) => Err(e),
        },
        Shape::I16 => match take_u16(bytes) {
            Ok((x, n)) => Ok((SpecValue::I16(x as i16), n)),
            Err(e) => Err(e),
        },
        Shape::I32 => match take_u32(bytes) {
            Ok((x, n)) => Ok((SpecValue::I32(x as i32), n)),
            Err(e) => Err(e),
        },
        Shape::I64 => match take_u64(bytes) {
            Ok((x, n)) => Ok((SpecValue::I64(x as i64), n)),
            Err(e) => Err(e),
        },
        Shape::U8 => match take_u8(bytes) {
            Ok((x, n)) => Ok((SpecValue::U8(x), n)),
            Err(e) => Err(e),
        },
        Shape::U16 => match take_u16(bytes) {
            Ok((x, n)) => Ok((SpecValue::U16(x), n)),
            Err(e) => Err(e),
        },
        Shape::U32 => match take_u32(bytes) {
            Ok((x, n)) => Ok((SpecValue::U32(x), n)),
            Err(e) => Err(e),
        },
        Shape::U64 => match take_u64(bytes) {
            Ok((x, n)) => Ok((SpecValue::U64(x), n)),
            Err(e) => Err(e),
        },
        Shape::F32 => match take_u32(bytes) {
            Ok((x, n)) => Ok((SpecValue::F32Bits(x), n)),
            Err(e) => Err(e),
        },
        Shape::F64 => match take_u64(bytes) {
            Ok((x, n)) => Ok((SpecValue::F64Bits(x), n)),
            Err(e) => Err(e),
        },
        Shape::Char => match take_char(bytes) {
            Ok((c, n)) => Ok((SpecValue::Char(c), n)),
            Err(e) => Err(e),
        },
        Shape::Text => match take_text(bytes) {
            Ok((s, n)) => Ok((SpecValue::Text(s), n)),
            Err(e) => Err(e),
        },
        Shape::Bytes => match take_blob(bytes) {
            Ok((b, n)) => Ok((SpecValue::Bytes(b), n)),
            Err(e) => Err(e),
        },
        Shape::Unit => Ok((SpecValue::Unit, 0)),
        Shape::Optional(t) => match take_opt_marker(bytes) {
            Err(e) => Err(e),
            Ok((present, n)) => if !present {
                Ok((SpecValue::Absent, n))
            } else {
                match spec_decode(bytes.skip(n), *t) {
                    Ok((sv, m)) => Ok((SpecValue::Present(boxed(sv)), n + m)),
                    Err(e) => Err(e),
                }
            },
        },
        Shape::Sequence(t) => match take_u32(bytes) {
            Err(e) => Err(e),
            Ok((count, n)) => match spec_decode_list(bytes.skip(n), *t, count as int) {
                Ok((svs, m)) => Ok((SpecValue::Sequence(svs), n + m)),
                Err(e) => Err(e),
            },
        },
        Shape::Mapping(_, _) => match take_u32(bytes) {
            Err(e) => Err(e),
            Ok((count, n)) => match spec_decode_pairs(bytes.skip(n), shape, count as int) {
                Ok((ps, m)) => Ok((SpecValue::Mapping(ps), n + m)),
                Err(e) => Err(e),
            },
        },
        Shape::Tuple(ts) => match spec_decode_fields(bytes, ts@) {
            Ok((svs, m)) => Ok((SpecValue::Tuple(svs), m)),
            Err(e) => Err(e),
        },
        Shape::Record(ts) => match spec_decode_fields(bytes, ts@) {
            Ok((svs, m)) => Ok((SpecValue::Record(svs), m)),
            Err(e) => Err(e),
        },
        Shape::Enum(variants) => match take_u32(bytes) {
            Err(e) => Err(e),
            Ok((idx, n)) => if idx >= variants@.len() {
                Err(Error::InvalidVariant)
            } else {
                match variants@[idx as int] {
                    VariantShape::Unit => Ok((SpecValue::UnitVariant(idx), n)),
                    VariantShape::Newtype(t) => match spec_decode(bytes.skip(n), *t) {
                        Ok((sv, m)) => Ok((SpecValue::NewtypeVariant(idx, boxed(sv)), n + m)),
                        Err(e) => Err(e),
                    },
                    VariantShape::Tuple(ts) => match spec_decode_fields(bytes.skip(n), ts@) {
                        Ok((svs, m)) => Ok((SpecValue::TupleVariant(idx, svs), n + m)),
                        Err(e) => Err(e),
                    },
                    VariantShape::Struct(ts) => match spec_decode_fields(bytes.skip(n), ts@) {
                        Ok((svs, m)) => Ok((SpecValue::StructVariant(idx, svs), n + m)),
                        Err(e) => Err(e),
                    },
                }
            },
        },
    }
}

/// Reading a counted row of values of one shape, front to back.
pub open spec fn spec_decode_list(bytes: Seq<u8>, elem: Shape, count: int) -> Result<
    (Seq<SpecValue>, int),
    Error,
>
    decreases elem, 2int, count,
{
    if count <= 0 {
        Ok((seq![], 0))
    } else {
        match spec_decode(bytes, elem) {
            Err(e) => Err(e),
            Ok((sv, n)) => match spec_decode_list(bytes.skip(n), elem, count - 1) {
                Err(e) => Err(e),
                Ok((svs, m)) => Ok((seq![sv] + svs, n + m)),
            },
        }
    }
}

/// Reading a counted row of key/value pairs, key before value. The shape
/// argument is the whole map shape, so that the recursion is seen to bottom
/// out; a non-map shape is refused outright.
pub open spec fn spec_decode_pairs(bytes: Seq<u8>, pair_shape: Shape, count: int) -> Result<
    (Seq<(SpecValue, SpecValue)>, int),
    Error,
>
    recommends
        pair_shape is Mapping,
    decreases pair_shape, 0int, count,
{
    if count <= 0 {
        Ok((seq![], 0))
    } else if !(pair_shape matches Shape::Mapping(_, _)) {
        Err(Error::NotImplemented)
    } else {
        let kt = pair_shape->Mapping_0;
        let vt = pair_shape->Mapping_1;
        match spec_decode(bytes, *kt) {
            Err(e) => Err(e),
            Ok((k, n)) => match spec_decode(bytes.skip(n), *vt) {
                Err(e) => Err(e),
                Ok((v, m)) => match spec_decode_pairs(bytes.skip(n + m), pair_shape, count - 1) {
                    Err(e) => Err(e),
                    Ok((ps, r)) => Ok((seq![(k, v)] + ps, n + m + r)),
                },
            },
        }
    }
}

/// Reading a fixed row of values, one per shape, front to back. No count is
/// read: the arity is known to both sides out of band.
pub open spec fn spec_decode_fields(bytes: Seq<u8>, ts: Seq<Shape>) -> Result<
    (Seq<SpecValue>, int),
    Error,
>
    decreases ts, 2int, 0int,
{
    if ts.len() == 0 {
        Ok((seq![], 0))
    } else {
        match spec_decode(bytes, ts[0]) {
            Err(e) => Err(e),
            Ok((sv, n)) => match spec_decode_fields(bytes.skip(n), ts.drop_first()) {
                Err(e) => Err(e),
                Ok((svs, m)) => Ok((seq![sv] + svs, n + m)),
            },
        }
    }
}

} // verus!
