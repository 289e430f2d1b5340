//! The laws of the wire format: decoding inverts encoding, decoding is
//! count-driven, and malformed discriminants are rejected.

use vstd::prelude::*;
use vstd::utf8::{
    decode_utf8, encode_scalar, encode_utf8, encode_utf8_decode_utf8, encode_utf8_valid_utf8,
};

use crate::error::Error;
use crate::value::{
    all_have_shape, all_pairs_have_shape, boxed, fields_have_shape, has_shape, lemma_boxed,
    Shape, SpecValue, VariantShape,
};
use crate::wire::{
    all_encodable, encodable, lemma_u16_be_round_trip, lemma_u32_be_round_trip,
    lemma_u64_be_round_trip, lemma_i16_cast_round_trip, lemma_i32_cast_round_trip,
    lemma_i64_cast_round_trip, lemma_i8_cast_round_trip, pairs_encodable, spec_decode,
    spec_decode_fields, spec_decode_list, spec_decode_pairs, spec_encode, spec_encode_list,
    spec_encode_pairs, take_u16, take_u32, take_u64, take_u8, u16_be_bytes, u32_be_bytes,
    u64_be_bytes, MARK_FALSE, MARK_NONE, MARK_SOME, MARK_TRUE, MAX_LEN,
};

verus! {

/// Reading one byte from a stream that starts with that byte.
proof fn lemma_take_u8_concat(x: u8, tail: Seq<u8>)
    ensures
        take_u8(seq![x] + tail) == Ok::<(u8, int), Error>((x, 1)),
{
    assert((seq![x] + tail)[0] == x);
}

/// Reading a 16-bit value from a stream that starts with its two bytes.
proof fn lemma_take_u16_concat(x: u16, tail: Seq<u8>)
    ensures
        take_u16(u16_be_bytes(x) + tail) == Ok::<(u16, int), Error>((x, 2)),
{
    let b = u16_be_bytes(x);
    assert((b + tail)[0] == b[0]);
    assert((b + tail)[1] == b[1]);
    lemma_u16_be_round_trip(x);
}

/// Reading a 32-bit value from a stream that starts with its four bytes.
proof fn lemma_take_u32_concat(x: u32, tail: Seq<u8>)
    ensures
        take_u32(u32_be_bytes(x) + tail) == Ok::<(u32, int), Error>((x, 4)),
{
    let b = u32_be_bytes(x);
    assert((b + tail)[0] == b[0]);
    assert((b + tail)[1] == b[1]);
    assert((b + tail)[2] == b[2]);
    assert((b + tail)[3] == b[3]);
    lemma_u32_be_round_trip(x);
}

/// Reading a 64-bit value from a stream that starts with its eight bytes.
proof fn lemma_take_u64_concat(x: u64, tail: Seq<u8>)
    ensures
        take_u64(u64_be_bytes(x) + tail) == Ok::<(u64, int), Error>((x, 8)),
{
    let b = u64_be_bytes(x);
    assert((b + tail)[0] == b[0]);
    assert((b + tail)[1] == b[1]);
    assert((b + tail)[2] == b[2]);
    assert((b + tail)[3] == b[3]);
    assert((b + tail)[4] == b[4]);
    assert((b + tail)[5] == b[5]);
    assert((b + tail)[6] == b[6]);
    assert((b + tail)[7] == b[7]);
    lemma_u64_be_round_trip(x);
}

/// **Round-trip**: decoding a stream that starts with the encoding of any
/// encodable value, using the shape that value fits, yields exactly that
/// value and consumes exactly its encoding, whatever follows on the stream.
#[verifier::rlimit(100)]
#[verifier::spinoff_prover]
pub proof fn lemma_round_trip(v: SpecValue, s: Shape, rest: Seq<u8>)
    requires
        has_shape(v, s),
        encodable(v),
    ensures
        spec_decode(spec_encode(v) + rest, s) == Ok::<(SpecValue, int), Error>(
            (v, spec_encode(v).len() as int),
        ),
    decreases v, 0int,
{
    let enc = spec_encode(v);
    let bytes = enc + rest;
    match v {
        SpecValue::Bool(b) => {
            if b {
                assert(bytes[0] == MARK_TRUE);
            } else {
                assert(bytes[0] == MARK_FALSE);
            }
        },
        SpecValue::I8(x) => {
            lemma_take_u8_concat(x as u8, rest);
            lemma_i8_cast_round_trip(x);
        },
        SpecValue::I16(x) => {
            lemma_take_u16_concat(x as u16, rest);
            lemma_i16_cast_round_trip(x);
        },
        SpecValue::I32(x) => {
            lemma_take_u32_concat(x as u32, rest);
            lemma_i32_cast_round_trip(x);
        },
        SpecValue::I64(x) => {
            lemma_take_u64_concat(x as u64, rest);
            lemma_i64_cast_round_trip(x);
        },
        SpecValue::U8(x) => {
            lemma_take_u8_concat(x, rest);
        },
        SpecValue::U16(x) => {
            lemma_take_u16_concat(x, rest);
        },
        SpecValue::U32(x) => {
            lemma_take_u32_concat(x, rest);
        },
        SpecValue::U64(x) => {
            lemma_take_u64_concat(x, rest);
        },
        SpecValue::F32Bits(x) => {
            lemma_take_u32_concat(x, rest);
        },
        SpecValue::F64Bits(x) => {
            lemma_take_u64_concat(x, rest);
        },
        SpecValue::Char(c) => {
            vstd::utf8::char_is_scalar(c);
            let payload = encode_scalar(c as u32);
            let len = payload.len() as int;
            assert(1 <= len <= 4);
            assert(enc == seq![payload.len() as u8] + payload);
            lemma_take_u8_concat(payload.len() as u8, payload + rest);
            assert(bytes =~= seq![payload.len() as u8] + (payload + rest));
            assert(bytes.subrange(1, 1 + len) =~= payload);
            assert(encode_utf8(seq![c]) =~= payload) by {
                assert(seq![c][0] == c);
                assert(seq![c].drop_first() =~= Seq::<char>::empty());
                assert(encode_utf8(Seq::<char>::empty()) == Seq::<u8>::empty());
                assert(encode_scalar(c as u32) + Seq::<u8>::empty() =~= encode_scalar(c as u32));
            }
            encode_utf8_valid_utf8(seq![c]);
            encode_utf8_decode_utf8(seq![c]);
            assert(decode_utf8(bytes.subrange(1, 1 + len))[0] == c);
        },
        SpecValue::Text(cs) => {
            let payload = encode_utf8(cs);
            let n = payload.len() as int;
            assert(enc == u32_be_bytes(n as u32) + payload);
            lemma_take_u32_concat(n as u32, payload + rest);
            assert(bytes =~= u32_be_bytes(n as u32) + (payload + rest));
            assert(bytes.subrange(4, 4 + n) =~= payload);
            encode_utf8_valid_utf8(cs);
            encode_utf8_decode_utf8(cs);
        },
        SpecValue::Bytes(bs) => {
            let n = bs.len() as int;
            assert(enc == u32_be_bytes(n as u32) + bs);
            lemma_take_u32_concat(n as u32, bs + rest);
            assert(bytes =~= u32_be_bytes(n as u32) + (bs + rest));
            assert(bytes.subrange(4, 4 + n) =~= bs);
        },
        SpecValue::Unit => {
        },
        SpecValue::Absent => {
            assert(bytes[0] == MARK_NONE);
        },
        SpecValue::Present(inner) => {
            let ie = spec_encode(*inner);
            assert(enc == seq![MARK_SOME] + ie);
            assert(bytes[0] == MARK_SOME);
            assert(bytes.skip(1) =~= ie + rest);
            let t = s->Optional_0;
            lemma_round_trip(*inner, *t, rest);
            lemma_boxed(*inner);
            assert(boxed(*inner) == inner);
        },
        SpecValue::Sequence(elems) => {
            let body = spec_encode_list(elems);
            let n = elems.len() as int;
            assert(enc == u32_be_bytes(n as u32) + body);
            lemma_take_u32_concat(n as u32, body + rest);
            assert(bytes =~= u32_be_bytes(n as u32) + (body + rest));
            assert(bytes.skip(4) =~= body + rest);
            let t = s->Sequence_0;
            lemma_round_trip_list(elems, *t, rest);
        },
        SpecValue::Mapping(pairs) => {
            let body = spec_encode_pairs(pairs);
            let n = pairs.len() as int;
            assert(enc == u32_be_bytes(n as u32) + body);
            lemma_take_u32_concat(n as u32, body + rest);
            assert(bytes =~= u32_be_bytes(n as u32) + (body + rest));
            assert(bytes.skip(4) =~= body + rest);
            lemma_round_trip_pairs(pairs, s, rest);
        },
        SpecValue::Tuple(elems) => {
            let ts = s->Tuple_0;
            lemma_round_trip_fields(elems, ts@, rest);
        },
        SpecValue::Record(elems) => {
            let ts = s->Record_0;
            lemma_round_trip_fields(elems, ts@, rest);
        },
        SpecValue::UnitVariant(idx) => {
            lemma_take_u32_concat(idx, rest);
        },
        SpecValue::NewtypeVariant(idx, inner) => {
            let ie = spec_encode(*inner);
            assert(enc == u32_be_bytes(idx) + ie);
            lemma_take_u32_concat(idx, ie + rest);
            assert(bytes =~= u32_be_bytes(idx) + (ie + rest));
            assert(bytes.skip(4) =~= ie + rest);
            let variants = s->Enum_0;
            let t = variants@[idx as int]->Newtype_0;
            lemma_round_trip(*inner, *t, rest);
            lemma_boxed(*inner);
            assert(boxed(*inner) == inner);
        },
        SpecValue::TupleVariant(idx, elems) => {
            let body = spec_encode_list(elems);
            assert(enc == u32_be_bytes(idx) + body);
            lemma_take_u32_concat(idx, body + rest);
            assert(bytes =~= u32_be_bytes(idx) + (body + rest));
            assert(bytes.skip(4) =~= body + rest);
            let variants = s->Enum_0;
            let ts = variants@[idx as int]->Tuple_0;
            lemma_round_trip_fields(elems, ts@, rest);
        },
        SpecValue::StructVariant(idx, elems) => {
            let body = spec_encode_list(elems);
            assert(enc == u32_be_bytes(idx) + body);
            lemma_take_u32_concat(idx, body + rest);
            assert(bytes =~= u32_be_bytes(idx) + (body + rest));
            assert(bytes.skip(4) =~= body + rest);
            let variants = s->Enum_0;
            let ts = variants@[idx as int]->Struct_0;
            lemma_round_trip_fields(elems, ts@, rest);
        },
    }
}

/// Round-trip for a counted row of same-shaped elements.
proof fn lemma_round_trip_list(vs: Seq<SpecValue>, t: Shape, rest: Seq<u8>)
    requires
        all_have_shape(vs, t),
        all_encodable(vs),
    ensures
        spec_decode_list(spec_encode_list(vs) + rest, t, vs.len() as int) == Ok::<
            (Seq<SpecValue>, int),
            Error,
        >((vs, spec_encode_list(vs).len() as int)),
    decreases vs, 1int,
{
    if vs.len() == 0 {
        assert(spec_encode_list(vs) + rest =~= rest);
        assert(seq![] + Seq::<SpecValue>::empty() =~= Seq::<SpecValue>::empty());
        assert(vs =~= Seq::<SpecValue>::empty());
    } else {
        let head = spec_encode(vs[0]);
        let tail_enc = spec_encode_list(vs.drop_first());
        assert(spec_encode_list(vs) == head + tail_enc);
        let bytes = spec_encode_list(vs) + rest;
        assert(bytes =~= head + (tail_enc + rest));
        assert(all_have_shape(vs.drop_first(), t)) by {
            assert(forall|i: int|
                0 <= i < vs.drop_first().len() ==> #[trigger] vs.drop_first()[i] == vs[i + 1]);
        }
        assert(all_encodable(vs.drop_first())) by {
            assert(forall|i: int|
                0 <= i < vs.drop_first().len() ==> #[trigger] vs.drop_first()[i] == vs[i + 1]);
        }
        lemma_round_trip(vs[0], t, tail_enc + rest);
        assert(bytes.skip(head.len() as int) =~= tail_enc + rest);
        lemma_round_trip_list(vs.drop_first(), t, rest);
        assert(seq![vs[0]] + vs.drop_first() =~= vs);
    }
}

/// Round-trip for a counted row of key/value pairs.
proof fn lemma_round_trip_pairs(ps: Seq<(SpecValue, SpecValue)>, s: Shape, rest: Seq<u8>)
    requires
        s is Mapping,
        all_pairs_have_shape(ps, *s->Mapping_0, *s->Mapping_1),
        pairs_encodable(ps),
    ensures
        spec_decode_pairs(spec_encode_pairs(ps) + rest, s, ps.len() as int) == Ok::<
            (Seq<(SpecValue, SpecValue)>, int),
            Error,
        >((ps, spec_encode_pairs(ps).len() as int)),
    decreases ps, 1int,
{
    let kt = *s->Mapping_0;
    let vt = *s->Mapping_1;
    if ps.len() == 0 {
        assert(spec_encode_pairs(ps) + rest =~= rest);
        assert(seq![] + Seq::<(SpecValue, SpecValue)>::empty() =~= Seq::<
            (SpecValue, SpecValue),
        >::empty());
        assert(ps =~= Seq::<(SpecValue, SpecValue)>::empty());
    } else {
        let ke = spec_encode(ps[0].0);
        let ve = spec_encode(ps[0].1);
        let tail_enc = spec_encode_pairs(ps.drop_first());
        assert(spec_encode_pairs(ps) == ke + ve + tail_enc);
        let bytes = spec_encode_pairs(ps) + rest;
        assert(bytes =~= ke + (ve + (tail_enc + rest)));
        assert(all_pairs_have_shape(ps.drop_first(), kt, vt)) by {
            assert(forall|i: int|
                0 <= i < ps.drop_first().len() ==> #[trigger] ps.drop_first()[i] == ps[i + 1]);
        }
        assert(pairs_encodable(ps.drop_first())) by {
            assert(forall|i: int|
                0 <= i < ps.drop_first().len() ==> #[trigger] ps.drop_first()[i] == ps[i + 1]);
        }
        lemma_round_trip(ps[0].0, kt, ve + (tail_enc + rest));
        assert(bytes.skip(ke.len() as int) =~= ve + (tail_enc + rest));
        lemma_round_trip(ps[0].1, vt, tail_enc + rest);
        assert((ve + (tail_enc + rest)).skip(ve.len() as int) =~= tail_enc + rest);
        assert(bytes.skip((ke.len() + ve.len()) as int) =~= tail_enc + rest);
        lemma_round_trip_pairs(ps.drop_first(), s, rest);
        assert(seq![ps[0]] + ps.drop_first() =~= ps);
    }
}

/// Round-trip for a fixed row of values, one per shape, with no count.
proof fn lemma_round_trip_fields(vs: Seq<SpecValue>, ts: Seq<Shape>, rest: Seq<u8>)
    requires
        fields_have_shape(vs, ts),
        all_encodable(vs),
    ensures
        spec_decode_fields(spec_encode_list(vs) + rest, ts) == Ok::<(Seq<SpecValue>, int), Error>(
            (vs, spec_encode_list(vs).len() as int),
        ),
    decreases vs, 1int,
{
    if vs.len() == 0 {
        assert(spec_encode_list(vs) + rest =~= rest);
        assert(seq![] + Seq::<SpecValue>::empty() =~= Seq::<SpecValue>::empty());
        assert(vs =~= Seq::<SpecValue>::empty());
    } else {
        let head = spec_encode(vs[0]);
        let tail_enc = spec_encode_list(vs.drop_first());
        assert(spec_encode_list(vs) == head + tail_enc);
        let bytes = spec_encode_list(vs) + rest;
        assert(bytes =~= head + (tail_enc + rest));
        assert(fields_have_shape(vs.drop_first(), ts.drop_first())) by {
            assert(forall|i: int|
                0 <= i < vs.drop_first().len() ==> #[trigger] vs.drop_first()[i] == vs[i + 1]);
            assert(forall|i: int|
                0 <= i < ts.drop_first().len() ==> #[trigger] ts.drop_first()[i] == ts[i + 1]);
        }
        assert(all_encodable(vs.drop_first())) by {
            assert(forall|i: int|
                0 <= i < vs.drop_first().len() ==> #[trigger] vs.drop_first()[i] == vs[i + 1]);
        }
        lemma_round_trip(vs[0], ts[0], tail_enc + rest);
        assert(bytes.skip(head.len() as int) =~= tail_enc + rest);
        lemma_round_trip_fields(vs.drop_first(), ts.drop_first(), rest);
        assert(seq![vs[0]] + vs.drop_first() =~= vs);
    }
}

/// **Length-prefix exactness**, first half: the first four bytes of an
/// encoded sequence are exactly its element count, big-endian.
pub proof fn lemma_sequence_length_prefix(elems: Seq<SpecValue>)
    requires
        elems.len() <= MAX_LEN,
    ensures
        spec_encode(SpecValue::Sequence(elems)).take(4) =~= u32_be_bytes(elems.len() as u32),
{
}

/// A row's encoding splits at any element boundary.
proof fn lemma_encode_list_split(vs: Seq<SpecValue>, k: int)
    requires
        0 <= k <= vs.len(),
    ensures
        spec_encode_list(vs) =~= spec_encode_list(vs.take(k)) + spec_encode_list(vs.skip(k)),
    decreases k,
{
    if k == 0 {
        assert(vs.take(0) =~= Seq::<SpecValue>::empty());
        assert(vs.skip(0) =~= vs);
    } else {
        assert(vs.take(k)[0] == vs[0]);
        assert(vs.take(k).drop_first() =~= vs.drop_first().take(k - 1));
        assert(vs.skip(k) =~= vs.drop_first().skip(k - 1));
        lemma_encode_list_split(vs.drop_first(), k - 1);
        assert(spec_encode_list(vs) == spec_encode(vs[0]) + spec_encode_list(vs.drop_first()));
        assert(spec_encode_list(vs.take(k)) == spec_encode(vs[0]) + spec_encode_list(
            vs.take(k).drop_first(),
        ));
    }
}

/// **Length-prefix exactness**, second half: decoding a row with a smaller
/// externally-supplied count stops after exactly that many elements, leaving
/// the rest of the stream unconsumed. Decoding is purely count-driven.
pub proof fn lemma_decode_is_count_driven(vs: Seq<SpecValue>, t: Shape, k: int, rest: Seq<u8>)
    requires
        all_have_shape(vs, t),
        all_encodable(vs),
        0 <= k <= vs.len(),
    ensures
        spec_decode_list(spec_encode_list(vs) + rest, t, k) == Ok::<(Seq<SpecValue>, int), Error>(
            (vs.take(k), spec_encode_list(vs.take(k)).len() as int),
        ),
{
    lemma_encode_list_split(vs, k);
    assert(spec_encode_list(vs) + rest =~= spec_encode_list(vs.take(k)) + (spec_encode_list(
        vs.skip(k),
    ) + rest));
    assert(all_have_shape(vs.take(k), t)) by {
        assert(forall|i: int| 0 <= i < k ==> #[trigger] vs.take(k)[i] == vs[i]);
    }
    assert(all_encodable(vs.take(k))) by {
        assert(forall|i: int| 0 <= i < k ==> #[trigger] vs.take(k)[i] == vs[i]);
    }
    assert(vs.take(k).len() == k);
    lemma_round_trip_list(vs.take(k), t, spec_encode_list(vs.skip(k)) + rest);
}

/// **Discriminant rejection**: a boolean decode fails with the
/// invalid-boolean error on any first byte other than the two markers.
pub proof fn lemma_bool_marker_rejected(bytes: Seq<u8>)
    requires
        bytes.len() >= 1,
        bytes[0] != MARK_TRUE,
        bytes[0] != MARK_FALSE,
    ensures
        spec_decode(bytes, Shape::Bool) == Err::<(SpecValue, int), Error>(Error::InvalidBool),
{
}

/// **Discriminant rejection**: an optional decode fails with the
/// invalid-optional error on any first byte other than the two markers.
pub proof fn lemma_option_marker_rejected(bytes: Seq<u8>, t: Shape)
    requires
        bytes.len() >= 1,
        bytes[0] != MARK_NONE,
        bytes[0] != MARK_SOME,
    ensures
        spec_decode(bytes, Shape::Optional(boxed(t))) == Err::<(SpecValue, int), Error>(
            Error::InvalidOption,
        ),
{
}

} // verus!

