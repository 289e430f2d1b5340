//! The encode engine: a depth-first walk that appends the prescribed bytes.

use vstd::prelude::*;
use vstd::utf8::{char_is_scalar, encode_scalar, encode_utf8};

use crate::error::Error;
use crate::value::{boxed, lemma_boxed, spec_pairs_of, spec_value_of, spec_values_of, SpecValue, Value};
use crate::wire::{
    all_encodable, encodable, pairs_encodable, spec_encode, spec_encode_list, spec_encode_pairs,
    u16_be_bytes, u32_be_bytes, u64_be_bytes, MARK_FALSE, MARK_NONE, MARK_SOME, MARK_TRUE, MAX_LEN,
};

verus! {

/// The encode side of the protocol: owns the growing output buffer and
/// appends the wire bytes of each value kind it is handed.
pub struct Serializer {
    buffer: Vec<u8>,
}

impl View for Serializer {
    type V = Seq<u8>;

    closed spec fn view(&self) -> Seq<u8> {
        self.buffer@
    }
}

impl Serializer {
    /// A serializer with an empty output buffer.
    pub fn new() -> (s: Self)
        ensures
            s@ == Seq::<u8>::empty(),
    {
        Serializer { buffer: Vec::new() }
    }

    /// Hands the finished byte stream to the caller.
    pub fn into_inner(self) -> (r: Vec<u8>)
        ensures
            r@ == self@,
    {
        self.buffer
    }

    /// Appends one raw byte.
    fn push_byte(&mut self, b: u8)
        ensures
            final(self)@ == old(self)@ + seq![b],
    {
        self.buffer.push(b);
        proof {
            assert(final(self)@ =~= old(self)@ + seq![b]);
        }
    }

    /// Appends the two big-endian bytes of a 16-bit value.
    fn push_u16_be(&mut self, x: u16)
        ensures
            final(self)@ == old(self)@ + u16_be_bytes(x),
    {
        self.buffer.push((x >> 8) as u8);
        self.buffer.push(x as u8);
        proof {
            assert(final(self)@ =~= old(self)@ + u16_be_bytes(x));
        }
    }

    /// Appends the four big-endian bytes of a 32-bit value.
    fn push_u32_be(&mut self, x: u32)
        ensures
            final(self)@ == old(self)@ + u32_be_bytes(x),
    {
        self.buffer.push((x >> 24) as u8);
        self.buffer.push((x >> 16) as u8);
        self.buffer.push((x >> 8) as u8);
        self.buffer.push(x as u8);
        proof {
            assert(final(self)@ =~= old(self)@ + u32_be_bytes(x));
        }
    }

    /// Appends the eight big-endian bytes of a 64-bit value.
    fn push_u64_be(&mut self, x: u64)
        ensures
            final(self)@ == old(self)@ + u64_be_bytes(x),
    {
        self.buffer.push((x >> 56) as u8);
        self.buffer.push((x >> 48) as u8);
        self.buffer.push((x >> 40) as u8);
        self.buffer.push((x >> 32) as u8);
        self.buffer.push((x >> 24) as u8);
        self.buffer.push((x >> 16) as u8);
        self.buffer.push((x >> 8) as u8);
        self.buffer.push(x as u8);
        proof {
            assert(final(self)@ =~= old(self)@ + u64_be_bytes(x));
        }
    }

    /// One marker byte: `0xf5` for true, `0xf4` for false.
    pub fn serialize_bool(&mut self, v: bool) -> (r: Result<(), Error>)
        ensures
            r is Ok,
            final(self)@ == old(self)@ + spec_encode(SpecValue::Bool(v)),
    {
        self.push_byte(if v { MARK_TRUE } else { MARK_FALSE });
        Ok(())
    }

    /// One byte holding the two's-complement bits.
    pub fn serialize_i8(&mut self, v: i8) -> (r: Result<(), Error>)
        ensures
            r is Ok,
            final(self)@ == old(self)@ + spec_encode(SpecValue::I8(v)),
    {
        self.push_byte(v as u8);
        Ok(())
    }

    /// Two big-endian bytes holding the two's-complement bits.
    pub fn serialize_i16(&mut self, v: i16) -> (r: Result<(), Error>)
        ensures
            r is Ok,
            final(self)@ == old(self)@ + spec_encode(SpecValue::I16(v)),
    {
        self.push_u16_be(v as u16);
        Ok(())
    }

    /// Four big-endian bytes holding the two's-complement bits.
    pub fn serialize_i32(&mut self, v: i32) -> (r: Result<(), Error>)
        ensures
            r is Ok,
            final(self)@ == old(self)@ + spec_encode(SpecValue::I32(v)),
    {
        self.push_u32_be(v as u32);
        Ok(())
    }

    /// Eight big-endian bytes holding the two's-complement bits.
    pub fn serialize_i64(&mut self, v: i64) -> (r: Result<(), Error>)
        ensures
            r is Ok,
            final(self)@ == old(self)@ + spec_encode(SpecValue::I64(v)),
    {
        self.push_u64_be(v as u64);
        Ok(())
    }

    /// One byte.
    pub fn serialize_u8(&mut self, v: u8) -> (r: Result<(), Error>)
        ensures
            r is Ok,
            final(self)@ == old(self)@ + spec_encode(SpecValue::U8(v)),
    {
        self.push_byte(v);
        Ok(())
    }

    /// Two big-endian bytes.
    pub fn serialize_u16(&mut self, v: u16) -> (r: Result<(), Error>)
        ensures
            r is Ok,
            final(self)@ == old(self)@ + spec_encode(SpecValue::U16(v)),
    {
        self.push_u16_be(v);
        Ok(())
    }

    /// Four big-endian bytes.
    pub fn serialize_u32(&mut self, v: u32) -> (r: Result<(), Error>)
        ensures
            r is Ok,
            final(self)@ == old(self)@ + spec_encode(SpecValue::U32(v)),
    {
        self.push_u32_be(v);
        Ok(())
    }

    /// Eight big-endian bytes.
    pub fn serialize_u64(&mut self, v: u64) -> (r: Result<(), Error>)
        ensures
            r is Ok,
            final(self)@ == old(self)@ + spec_encode(SpecValue::U64(v)),
    {
        self.push_u64_be(v);
        Ok(())
    }

    /// Four big-endian bytes of an IEEE-754 single-precision bit pattern.
    pub fn serialize_f32_bits(&mut self, bits: u32) -> (r: Result<(), Error>)
        ensures
            r is Ok,
            final(self)@ == old(self)@ + spec_encode(SpecValue::F32Bits(bits)),
    {
        self.push_u32_be(bits);
        Ok(())
    }

    /// Eight big-endian bytes of an IEEE-754 double-precision bit pattern.
    pub fn serialize_f64_bits(&mut self, bits: u64) -> (r: Result<(), Error>)
        ensures
            r is Ok,
            final(self)@ == old(self)@ + spec_encode(SpecValue::F64Bits(bits)),
    {
        self.push_u64_be(bits);
        Ok(())
    }

    /// A 1-byte length, then the UTF-8 bytes of the one code point.
    pub fn serialize_char(&mut self, v: char) -> (r: Result<(), Error>)
        ensures
            r is Ok,
            final(self)@ == old(self)@ + spec_encode(SpecValue::Char(v)),
    {
        let bytes = char_utf8_bytes(v);
        self.push_byte(bytes.len() as u8);
        self.buffer.extend_from_slice(bytes.as_slice());
        proof {
            assert(final(self)@ =~= old(self)@ + spec_encode(SpecValue::Char(v)));
        }
        Ok(())
    }

    /// A 4-byte length, then the UTF-8 bytes; fails if the byte length does
    /// not fit the 4-byte count.
    pub fn serialize_str(&mut self, v: &str) -> (r: Result<(), Error>)
        ensures
            encode_utf8(v@).len() <= MAX_LEN ==> r is Ok && final(self)@ == old(self)@
                + spec_encode(SpecValue::Text(v@)),
            encode_utf8(v@).len() > MAX_LEN ==> r == Err::<(), Error>(Error::LengthOverflow)
                && final(self)@ == old(self)@,
    {
        let bytes = v.as_bytes();
        if bytes.len() as u64 > MAX_LEN {
            return Err(Error::LengthOverflow);
        }
        self.push_u32_be(bytes.len() as u32);
        self.buffer.extend_from_slice(bytes);
        proof {
            assert(final(self)@ =~= old(self)@ + spec_encode(SpecValue::Text(v@)));
        }
        Ok(())
    }

    /// A 4-byte length, then the raw bytes; fails if the length does not fit
    /// the 4-byte count.
    pub fn serialize_bytes(&mut self, v: &[u8]) -> (r: Result<(), Error>)
        ensures
            v@.len() <= MAX_LEN ==> r is Ok && final(self)@ == old(self)@ + spec_encode(
                SpecValue::Bytes(v@),
            ),
            v@.len() > MAX_LEN ==> r == Err::<(), Error>(Error::LengthOverflow) && final(self)@
                == old(self)@,
    {
        if v.len() as u64 > MAX_LEN {
            return Err(Error::LengthOverflow);
        }
        self.push_u32_be(v.len() as u32);
        self.buffer.extend_from_slice(v);
        proof {
            assert(final(self)@ =~= old(self)@ + spec_encode(SpecValue::Bytes(v@)));
        }
        Ok(())
    }

    /// The absent-optional marker byte.
    pub fn serialize_none(&mut self) -> (r: Result<(), Error>)
        ensures
            r is Ok,
            final(self)@ == old(self)@ + spec_encode(SpecValue::Absent),
    {
        self.push_byte(MARK_NONE);
        Ok(())
    }

    /// Nothing at all: the unit value has no bytes on the wire.
    pub fn serialize_unit(&mut self) -> (r: Result<(), Error>)
        ensures
            r is Ok,
            final(self)@ == old(self)@,
    {
        Ok(())
    }

    /// Nothing at all: a unit struct has no bytes on the wire.
    pub fn serialize_unit_struct(&mut self) -> (r: Result<(), Error>)
        ensures
            r is Ok,
            final(self)@ == old(self)@,
    {
        Ok(())
    }

    /// The 4-byte big-endian variant index; a unit variant has no payload.
    pub fn serialize_unit_variant(&mut self, variant_index: u32) -> (r: Result<(), Error>)
        ensures
            r is Ok,
            final(self)@ == old(self)@ + spec_encode(SpecValue::UnitVariant(variant_index)),
    {
        self.push_u32_be(variant_index);
        Ok(())
    }

    /// The element-count prefix of a dynamic sequence: fails when no length
    /// is known up front, or when it does not fit the 4-byte count; otherwise
    /// writes the count, and the caller then appends the elements.
    pub fn serialize_seq(&mut self, len: Option<usize>) -> (r: Result<(), Error>)
        ensures
            len is None ==> r == Err::<(), Error>(Error::LengthUnknown) && final(self)@ == old(
                self,
            )@,
            len matches Some(n) ==> ((n > MAX_LEN ==> r == Err::<(), Error>(
                Error::LengthOverflow,
            ) && final(self)@ == old(self)@) && (n <= MAX_LEN ==> r is Ok && final(self)@ == old(
                self,
            )@ + u32_be_bytes(n as u32))),
    {
        match len {
            None => Err(Error::LengthUnknown),
            Some(n) => {
                if n as u64 > MAX_LEN {
                    return Err(Error::LengthOverflow);
                }
                self.push_u32_be(n as u32);
                Ok(())
            },
        }
    }

    /// The pair-count prefix of a dynamic map, with the same failures as a
    /// sequence; the caller then appends each key and value adjacently.
    pub fn serialize_map(&mut self, len: Option<usize>) -> (r: Result<(), Error>)
        ensures
            len is None ==> r == Err::<(), Error>(Error::LengthUnknown) && final(self)@ == old(
                self,
            )@,
            len matches Some(n) ==> ((n > MAX_LEN ==> r == Err::<(), Error>(
                Error::LengthOverflow,
            ) && final(self)@ == old(self)@) && (n <= MAX_LEN ==> r is Ok && final(self)@ == old(
                self,
            )@ + u32_be_bytes(n as u32))),
    {
        match len {
            None => Err(Error::LengthUnknown),
            Some(n) => {
                if n as u64 > MAX_LEN {
                    return Err(Error::LengthOverflow);
                }
                self.push_u32_be(n as u32);
                Ok(())
            },
        }
    }

    /// Nothing: a fixed-arity tuple carries no count.
    pub fn serialize_tuple(&mut self, _len: usize) -> (r: Result<(), Error>)
        ensures
            r is Ok,
            final(self)@ == old(self)@,
    {
        Ok(())
    }

    /// Nothing: a tuple struct carries no count.
    pub fn serialize_tuple_struct(&mut self, _len: usize) -> (r: Result<(), Error>)
        ensures
            r is Ok,
            final(self)@ == old(self)@,
    {
        Ok(())
    }

    /// The 4-byte variant index; the caller then appends the positional
    /// values, with no count.
    pub fn serialize_tuple_variant(&mut self, variant_index: u32, _len: usize) -> (r: Result<
        (),
        Error,
    >)
        ensures
            r is Ok,
            final(self)@ == old(self)@ + u32_be_bytes(variant_index),
    {
        self.push_u32_be(variant_index);
        Ok(())
    }

    /// Nothing: a record carries no count and no field names.
    pub fn serialize_struct(&mut self, _len: usize) -> (r: Result<(), Error>)
        ensures
            r is Ok,
            final(self)@ == old(self)@,
    {
        Ok(())
    }

    /// The 4-byte variant index; the caller then appends the field values in
    /// declared order, with no count.
    pub fn serialize_struct_variant(&mut self, variant_index: u32, _len: usize) -> (r: Result<
        (),
        Error,
    >)
        ensures
            r is Ok,
            final(self)@ == old(self)@ + u32_be_bytes(variant_index),
    {
        self.push_u32_be(variant_index);
        Ok(())
    }

    /// The present-optional marker, then the inner value's encoding.
    pub fn serialize_some(&mut self, value: &Value) -> (r: Result<(), Error>)
        ensures
            encodable(value@) ==> r is Ok && final(self)@ == old(self)@ + spec_encode(
                SpecValue::Present(boxed(value@)),
            ),
            !encodable(value@) ==> r == Err::<(), Error>(Error::LengthOverflow),
            old(self)@.is_prefix_of(final(self)@),
    {
        proof {
            lemma_boxed(value@);
        }
        self.push_byte(MARK_SOME);
        match self.encode_value(value) {
            Ok(()) => {
                proof {
                    assert(old(self)@ + (seq![MARK_SOME] + spec_encode(value@)) =~= (old(self)@
                        + seq![MARK_SOME]) + spec_encode(value@));
                    assert(old(self)@.is_prefix_of(final(self)@)) by {
                        assert(old(self)@ =~= final(self)@.subrange(0, old(self)@.len() as int));
                    }
                }
                Ok(())
            },
            Err(e) => {
                proof {
                    assert(old(self)@.is_prefix_of(final(self)@)) by {
                        assert(old(self)@ =~= final(self)@.subrange(0, old(self)@.len() as int));
                    }
                }
                Err(e)
            },
        }
    }

    /// Transparent: a newtype struct is just its inner value's encoding.
    pub fn serialize_newtype_struct(&mut self, value: &Value) -> (r: Result<(), Error>)
        ensures
            r is Ok <==> encodable(value@),
            r is Ok ==> final(self)@ == old(self)@ + spec_encode(value@),
            r is Err ==> r == Err::<(), Error>(Error::LengthOverflow),
            old(self)@.is_prefix_of(final(self)@),
    {
        self.encode_value(value)
    }

    /// The 4-byte variant index, then the inner value's encoding.
    pub fn serialize_newtype_variant(&mut self, variant_index: u32, value: &Value) -> (r: Result<
        (),
        Error,
    >)
        ensures
            encodable(value@) ==> r is Ok && final(self)@ == old(self)@ + spec_encode(
                SpecValue::NewtypeVariant(variant_index, boxed(value@)),
            ),
            !encodable(value@) ==> r == Err::<(), Error>(Error::LengthOverflow),
            old(self)@.is_prefix_of(final(self)@),
    {
        proof {
            lemma_boxed(value@);
        }
        self.push_u32_be(variant_index);
        match self.encode_value(value) {
            Ok(()) => {
                proof {
                    assert(old(self)@ + (u32_be_bytes(variant_index) + spec_encode(value@)) =~= (
                    old(self)@ + u32_be_bytes(variant_index)) + spec_encode(value@));
                    assert(old(self)@.is_prefix_of(final(self)@)) by {
                        assert(old(self)@ =~= final(self)@.subrange(0, old(self)@.len() as int));
                    }
                }
                Ok(())
            },
            Err(e) => {
                proof {
                    assert(old(self)@.is_prefix_of(final(self)@)) by {
                        assert(old(self)@ =~= final(self)@.subrange(0, old(self)@.len() as int));
                    }
                }
                Err(e)
            },
        }
    }

    /// One element, field, key or value of a composite in progress: its full
    /// encoding, appended.
    pub fn serialize_element(&mut self, value: &Value) -> (r: Result<(), Error>)
        ensures
            r is Ok <==> encodable(value@),
            r is Ok ==> final(self)@ == old(self)@ + spec_encode(value@),
            r is Err ==> r == Err::<(), Error>(Error::LengthOverflow),
            old(self)@.is_prefix_of(final(self)@),
    {
        self.encode_value(value)
    }

    /// Appends the full encoding of one value, walking it depth-first.
    ///
    /// Succeeds exactly when the value is [`encodable`]; on failure the
    /// buffer may have grown by a partial encoding, but never shrinks.
    #[verifier::rlimit(50)]
    #[verifier::spinoff_prover]
    pub fn encode_value(&mut self, v: &Value) -> (r: Result<(), Error>)
        ensures
            r is Ok <==> encodable(v@),
            r is Ok ==> final(self)@ == old(self)@ + spec_encode(v@),
            r is Err ==> r == Err::<(), Error>(Error::LengthOverflow),
            old(self)@.is_prefix_of(final(self)@),
        decreases v, 0int,
    {
        proof {
            lemma_prefix_refl(old(self)@);
        }
        match v {
            Value::Bool(b) => {
                let r = self.serialize_bool(*b);
                proof {
                    lemma_prefix_append(old(self)@, spec_encode(v@));
                }
                r
            },
            Value::I8(x) => {
                let r = self.serialize_i8(*x);
                proof {
                    lemma_prefix_append(old(self)@, spec_encode(v@));
                }
                r
            },
            Value::I16(x) => {
                let r = self.serialize_i16(*x);
                proof {
                    lemma_prefix_append(old(self)@, spec_encode(v@));
                }
                r
            },
            Value::I32(x) => {
                let r = self.serialize_i32(*x);
                proof {
                    lemma_prefix_append(old(self)@, spec_encode(v@));
                }
                r
            },
            Value::I64(x) => {
                let r = self.serialize_i64(*x);
                proof {
                    lemma_prefix_append(old(self)@, spec_encode(v@));
                }
                r
            },
            Value::U8(x) => {
                let r = self.serialize_u8(*x);
                proof {
                    lemma_prefix_append(old(self)@, spec_encode(v@));
                }
                r
            },
            Value::U16(x) => {
                let r = self.serialize_u16(*x);
                proof {
                    lemma_prefix_append(old(self)@, spec_encode(v@));
                }
                r
            },
            Value::U32(x) => {
                let r = self.serialize_u32(*x);
                proof {
                    lemma_prefix_append(old(self)@, spec_encode(v@));
                }
                r
            },
            Value::U64(x) => {
                let r = self.serialize_u64(*x);
                proof {
                    lemma_prefix_append(old(self)@, spec_encode(v@));
                }
                r
            },
            Value::F32Bits(x) => {
                let r = self.serialize_f32_bits(*x);
                proof {
                    lemma_prefix_append(old(self)@, spec_encode(v@));
                }
                r
            },
            Value::F64Bits(x) => {
                let r = self.serialize_f64_bits(*x);
                proof {
                    lemma_prefix_append(old(self)@, spec_encode(v@));
                }
                r
            },
            Value::Char(c) => {
                let r = self.serialize_char(*c);
                proof {
                    lemma_prefix_append(old(self)@, spec_encode(v@));
                }
                r
            },
            Value::Text(s) => {
                let r = self.serialize_str(s.as_str());
                proof {
                    if encodable(v@) {
                        lemma_prefix_append(old(self)@, spec_encode(v@));
                    }
                }
                r
            },
            Value::Bytes(b) => {
                let r = self.serialize_bytes(b.as_slice());
                proof {
                    if encodable(v@) {
                        lemma_prefix_append(old(self)@, spec_encode(v@));
                    }
                }
                r
            },
            Value::Unit => {
                proof {
                    assert(old(self)@ + spec_encode(v@) =~= old(self)@);
                }
                Ok(())
            },
            Value::Absent => {
                let r = self.serialize_none();
                proof {
                    lemma_prefix_append(old(self)@, spec_encode(v@));
                }
                r
            },
            Value::Present(inner) => {
                proof {
                    lemma_boxed((**inner)@);
                }
                self.push_byte(MARK_SOME);
                let r = self.encode_value(&**inner);
                proof {
                    lemma_prefix_append(old(self)@, seq![MARK_SOME]);
                    lemma_prefix_trans(old(self)@, old(self)@ + seq![MARK_SOME], final(self)@);
                    if r is Ok {
                        assert((old(self)@ + seq![MARK_SOME]) + spec_encode((**inner)@) =~= old(
                            self,
                        )@ + spec_encode(v@));
                    }
                }
                r
            },
            Value::Sequence(elems) => {
                if elems.len() as u64 > MAX_LEN {
                    proof {
                        assert(spec_values_of(elems@).len() == elems@.len());
                        assert(!encodable(v@));
                    }
                    return Err(Error::LengthOverflow);
                }
                self.push_u32_be(elems.len() as u32);
                let r = self.encode_elems(elems);
                proof {
                    lemma_prefix_append(old(self)@, u32_be_bytes(elems@.len() as u32));
                    lemma_prefix_trans(
                        old(self)@,
                        old(self)@ + u32_be_bytes(elems@.len() as u32),
                        final(self)@,
                    );
                    if r is Ok {
                        assert((old(self)@ + u32_be_bytes(elems@.len() as u32)) + spec_encode_list(
                            spec_values_of(elems@),
                        ) =~= old(self)@ + spec_encode(v@));
                    }
                }
                r
            },
            Value::Mapping(pairs) => {
                if pairs.len() as u64 > MAX_LEN {
                    proof {
                        assert(spec_pairs_of(pairs@).len() == pairs@.len());
                        assert(!encodable(v@));
                    }
                    return Err(Error::LengthOverflow);
                }
                self.push_u32_be(pairs.len() as u32);
                let r = self.encode_pair_elems(pairs);
                proof {
                    lemma_prefix_append(old(self)@, u32_be_bytes(pairs@.len() as u32));
                    lemma_prefix_trans(
                        old(self)@,
                        old(self)@ + u32_be_bytes(pairs@.len() as u32),
                        final(self)@,
                    );
                    if r is Ok {
                        assert((old(self)@ + u32_be_bytes(pairs@.len() as u32)) + spec_encode_pairs(
                            spec_pairs_of(pairs@),
                        ) =~= old(self)@ + spec_encode(v@));
                    }
                }
                r
            },
            Value::Tuple(elems) => self.encode_elems(elems),
            Value::Record(elems) => self.encode_elems(elems),
            Value::UnitVariant(idx) => {
                let r = self.serialize_unit_variant(*idx);
                proof {
                    lemma_prefix_append(old(self)@, spec_encode(v@));
                }
                r
            },
            Value::NewtypeVariant(idx, inner) => {
                proof {
                    lemma_boxed((**inner)@);
                }
                self.push_u32_be(*idx);
                let r = self.encode_value(&**inner);
                proof {
                    lemma_prefix_append(old(self)@, u32_be_bytes(*idx));
                    lemma_prefix_trans(old(self)@, old(self)@ + u32_be_bytes(*idx), final(self)@);
                    if r is Ok {
                        assert((old(self)@ + u32_be_bytes(*idx)) + spec_encode((**inner)@) =~= old(
                            self,
                        )@ + spec_encode(v@));
                    }
                }
                r
            },
            Value::TupleVariant(idx, elems) => {
                self.push_u32_be(*idx);
                let r = self.encode_elems(elems);
                proof {
                    lemma_prefix_append(old(self)@, u32_be_bytes(*idx));
                    lemma_prefix_trans(old(self)@, old(self)@ + u32_be_bytes(*idx), final(self)@);
                    if r is Ok {
                        assert((old(self)@ + u32_be_bytes(*idx)) + spec_encode_list(
                            spec_values_of(elems@),
                        ) =~= old(self)@ + spec_encode(v@));
                    }
                }
                r
            },
            Value::StructVariant(idx, elems) => {
                self.push_u32_be(*idx);
                let r = self.encode_elems(elems);
                proof {
                    lemma_prefix_append(old(self)@, u32_be_bytes(*idx));
                    lemma_prefix_trans(old(self)@, old(self)@ + u32_be_bytes(*idx), final(self)@);
                    if r is Ok {
                        assert((old(self)@ + u32_be_bytes(*idx)) + spec_encode_list(
                            spec_values_of(elems@),
                        ) =~= old(self)@ + spec_encode(v@));
                    }
                }
                r
            },
        }
    }

    /// Appends the concatenated encodings of a row of values.
    fn encode_elems(&mut self, elems: &Vec<Value>) -> (r: Result<(), Error>)
        ensures
            r is Ok <==> all_encodable(spec_values_of(elems@)),
            r is Ok ==> final(self)@ == old(self)@ + spec_encode_list(spec_values_of(elems@)),
            r is Err ==> r == Err::<(), Error>(Error::LengthOverflow),
            old(self)@.is_prefix_of(final(self)@),
        decreases elems, 1int,
    {
        let ghost svs = spec_values_of(elems@);
        proof {
            lemma_prefix_refl(old(self)@);
            assert(svs.skip(0) =~= svs);
        }
        let mut i: usize = 0;
        while i < elems.len()
            invariant
                i <= elems@.len(),
                svs == spec_values_of(elems@),
                self@ + spec_encode_list(svs.skip(i as int)) == old(self)@ + spec_encode_list(svs),
                forall|j: int| 0 <= j < i ==> encodable(#[trigger] svs[j]),
                old(self)@.is_prefix_of(self@),
            decreases elems@.len() - i,
        {
            let ghost pre = self@;
            proof {
                assert(decreases_to!(*elems => elems@));
                assert(decreases_to!(elems@ => elems@[i as int]));
            }
            match self.encode_value(&elems[i]) {
                Ok(()) => {},
                Err(e) => {
                    proof {
                        assert(!encodable(svs[i as int]));
                        lemma_prefix_trans(old(self)@, pre, final(self)@);
                    }
                    return Err(e);
                },
            }
            proof {
                assert(svs.skip(i as int).drop_first() =~= svs.skip(i as int + 1));
                assert(svs.skip(i as int)[0] == svs[i as int]);
                assert((pre + spec_encode(svs[i as int])) + spec_encode_list(
                    svs.skip(i as int + 1),
                ) =~= pre + (spec_encode(svs[i as int]) + spec_encode_list(svs.skip(i as int + 1))));
                lemma_prefix_append(pre, spec_encode(svs[i as int]));
                lemma_prefix_trans(old(self)@, pre, self@);
            }
            i += 1;
        }
        proof {
            assert(svs.skip(i as int) =~= Seq::<SpecValue>::empty());
            assert(self@ + spec_encode_list(svs.skip(i as int)) =~= self@);
        }
        Ok(())
    }

    /// Appends the concatenated encodings of a row of pairs, key before value.
    fn encode_pair_elems(&mut self, pairs: &Vec<(Value, Value)>) -> (r: Result<(), Error>)
        ensures
            r is Ok <==> pairs_encodable(spec_pairs_of(pairs@)),
            r is Ok ==> final(self)@ == old(self)@ + spec_encode_pairs(spec_pairs_of(pairs@)),
            r is Err ==> r == Err::<(), Error>(Error::LengthOverflow),
            old(self)@.is_prefix_of(final(self)@),
        decreases pairs, 1int,
    {
        let ghost ps = spec_pairs_of(pairs@);
        proof {
            lemma_prefix_refl(old(self)@);
            assert(ps.skip(0) =~= ps);
        }
        let mut i: usize = 0;
        while i < pairs.len()
            invariant
                i <= pairs@.len(),
                ps == spec_pairs_of(pairs@),
                self@ + spec_encode_pairs(ps.skip(i as int)) == old(self)@ + spec_encode_pairs(ps),
                forall|j: int|
                    0 <= j < i ==> encodable(#[trigger] ps[j].0) && encodable(ps[j].1),
                old(self)@.is_prefix_of(self@),
            decreases pairs@.len() - i,
        {
            let ghost pre = self@;
            proof {
                assert(decreases_to!(*pairs => pairs@));
                assert(decreases_to!(pairs@ => pairs@[i as int]));
                assert(decreases_to!(pairs@[i as int] => pairs@[i as int].0));
                assert(decreases_to!(pairs@[i as int] => pairs@[i as int].1));
            }
            match self.encode_value(&pairs[i].0) {
                Ok(()) => {},
                Err(e) => {
                    proof {
                        assert(!encodable(ps[i as int].0));
                        lemma_prefix_trans(old(self)@, pre, final(self)@);
                    }
                    return Err(e);
                },
            }
            let ghost mid = self@;
            match self.encode_value(&pairs[i].1) {
                Ok(()) => {},
                Err(e) => {
                    proof {
                        assert(!encodable(ps[i as int].1));
                        lemma_prefix_trans(old(self)@, pre, mid);
                        lemma_prefix_trans(old(self)@, mid, final(self)@);
                    }
                    return Err(e);
                },
            }
            proof {
                assert(ps.skip(i as int).drop_first() =~= ps.skip(i as int + 1));
                assert(ps.skip(i as int)[0] == ps[i as int]);
                assert(ps[i as int].0 == spec_value_of(pairs@[i as int].0));
                assert(ps[i as int].1 == spec_value_of(pairs@[i as int].1));
                let ek = spec_encode(ps[i as int].0);
                let ev = spec_encode(ps[i as int].1);
                let tail = spec_encode_pairs(ps.skip(i as int + 1));
                assert(spec_encode_pairs(ps.skip(i as int)) == ek + ev + spec_encode_pairs(
                    ps.skip(i as int).drop_first(),
                ));
                assert(self@ =~= pre + (ek + ev));
                assert((pre + (ek + ev)) + tail =~= pre + (ek + ev + tail));
                assert(self@ + tail == old(self)@ + spec_encode_pairs(ps));
                assert(encodable(ps[i as int].0));
                assert(encodable(ps[i as int].1));
                assert(forall|j: int|
                    0 <= j < i + 1 ==> encodable(#[trigger] ps[j].0) && encodable(ps[j].1));
                lemma_prefix_append(pre, ek + ev);
                lemma_prefix_trans(old(self)@, pre, self@);
            }
            i += 1;
        }
        proof {
            assert(ps.skip(i as int) =~= Seq::<(SpecValue, SpecValue)>::empty());
            assert(self@ + spec_encode_pairs(ps.skip(i as int)) =~= self@);
        }
        Ok(())
    }
}

/// Encodes one value into a fresh byte stream: the whole encode path in one
/// call. Succeeds exactly when the value is [`encodable`].
pub fn to_bytes(value: &Value) -> (r: Result<Vec<u8>, Error>)
    ensures
        encodable(value@) ==> (r matches Ok(bytes) && bytes@ == spec_encode(value@)),
        !encodable(value@) ==> r == Err::<Vec<u8>, Error>(Error::LengthOverflow),
{
    let mut serializer = Serializer::new();
    match serializer.encode_value(value) {
        Ok(()) => {
            proof {
                assert(Seq::<u8>::empty() + spec_encode(value@) =~= spec_encode(value@));
            }
            Ok(serializer.into_inner())
        },
        Err(e) => Err(e),
    }
}

/// A sequence is a prefix of itself.
proof fn lemma_prefix_refl(s: Seq<u8>)
    ensures
        s.is_prefix_of(s),
{
    assert(s =~= s.subrange(0, s.len() as int));
}

/// A sequence is a prefix of itself followed by anything.
proof fn lemma_prefix_append(a: Seq<u8>, b: Seq<u8>)
    ensures
        a.is_prefix_of(a + b),
{
    assert(a =~= (a + b).subrange(0, a.len() as int));
}

/// Being a prefix is transitive.
proof fn lemma_prefix_trans(a: Seq<u8>, b: Seq<u8>, c: Seq<u8>)
    requires
        a.is_prefix_of(b),
        b.is_prefix_of(c),
    ensures
        a.is_prefix_of(c),
{
    assert(a =~= c.subrange(0, a.len() as int));
}

/// The UTF-8 bytes of one code point, computed by width.
fn char_utf8_bytes(c: char) -> (r: Vec<u8>)
    ensures
        r@ == encode_scalar(c as u32),
        1 <= r@.len() <= 4,
{
    proof {
        char_is_scalar(c);
    }
    let u = c as u32;
    let mut out: Vec<u8> = Vec::new();
    if u < 0x80 {
        out.push((u & 0x7F) as u8);
        proof {
            assert(out@ =~= encode_scalar(c as u32));
        }
    } else if u < 0x800 {
        out.push(0xC0u8 | ((u >> 6) & 0x1F) as u8);
        out.push(0x80u8 | (u & 0x3F) as u8);
        proof {
            assert(out@ =~= encode_scalar(c as u32));
        }
    } else if u < 0x10000 {
        out.push(0xE0u8 | ((u >> 12) & 0x0F) as u8);
        out.push(0x80u8 | ((u >> 6) & 0x3F) as u8);
        out.push(0x80u8 | (u & 0x3F) as u8);
        proof {
            assert(out@ =~= encode_scalar(c as u32));
        }
    } else {
        out.push(0xF0u8 | ((u >> 18) & 0x7) as u8);
        out.push(0x80u8 | ((u >> 12) & 0x3F) as u8);
        out.push(0x80u8 | ((u >> 6) & 0x3F) as u8);
        out.push(0x80u8 | (u & 0x3F) as u8);
        proof {
            assert(out@ =~= encode_scalar(c as u32));
        }
    }
    out
}

} // verus!
