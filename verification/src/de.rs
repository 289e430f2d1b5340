//! The decode engine: type-directed reads from a forward-only byte cursor.

use vstd::prelude::*;
use vstd::utf8::{decode_utf8, valid_utf8};

use crate::error::Error;
use crate::value::{
    spec_pairs_of, spec_value_of, spec_values_of, Shape, SpecValue, Value, VariantShape,
};
use crate::wire::{
    spec_decode, spec_decode_fields, spec_decode_list, spec_decode_pairs, take_blob, take_bool,
    take_char, take_opt_marker, take_text, take_u16, take_u32, take_u64, take_u8, MARK_FALSE,
    MARK_NONE, MARK_SOME, MARK_TRUE,
};

verus! {

/// The decode side of the protocol: owns the input bytes and a cursor that
/// only ever moves forward. The caller announces the shape it expects; the
/// deserializer reads exactly the bytes that shape's encoding occupies.
pub struct Deserializer {
    input: Vec<u8>,
    pos: usize,
}

impl Deserializer {
    /// The whole input stream, which never changes during decoding.
    pub closed spec fn spec_input(self) -> Seq<u8> {
        self.input@
    }

    /// How many bytes have been consumed so far.
    pub closed spec fn spec_pos(self) -> int {
        self.pos as int
    }

    /// The cursor never runs past the end of the input.
    pub open spec fn wf(self) -> bool {
        0 <= self.spec_pos() <= self.spec_input().len()
    }

    /// The bytes not yet consumed.
    pub open spec fn remaining(self) -> Seq<u8> {
        self.spec_input().skip(self.spec_pos())
    }

    /// A deserializer positioned at the start of the given input.
    pub fn new(input: Vec<u8>) -> (d: Self)
        ensures
            d.wf(),
            d.spec_input() == input@,
            d.spec_pos() == 0,
    {
        Deserializer { input, pos: 0 }
    }

    /// How many bytes have been consumed so far.
    pub fn position(&self) -> (r: usize)
        ensures
            r as int == self.spec_pos(),
    {
        self.pos
    }

    /// Reads exactly `n` bytes, or fails without moving when fewer remain.
    fn read_exact(&mut self, n: usize) -> (r: Result<Vec<u8>, Error>)
        requires
            old(self).wf(),
        ensures
            final(self).wf(),
            final(self).spec_input() == old(self).spec_input(),
            if old(self).remaining().len() >= n {
                &&& r matches Ok(bytes) && bytes@ == old(self).remaining().take(n as int)
                &&& stepped(*old(self), *final(self), n as int)
            } else {
                r == Err::<Vec<u8>, Error>(Error::ReadFailed) && *final(self) == *old(self)
            },
    {
        if n > self.input.len() - self.pos {
            return Err(Error::ReadFailed);
        }
        let mut out: Vec<u8> = Vec::new();
        let mut j: usize = 0;
        while j < n
            invariant
                j <= n,
                self == old(self),
                old(self).wf(),
                n <= self.input@.len() - self.pos as int,
                self.input@.len() <= usize::MAX,
                out@ == old(self).remaining().take(j as int),
            decreases n - j,
        {
            out.push(self.input[self.pos + j]);
            proof {
                assert(out@ =~= old(self).remaining().take(j as int + 1));
            }
            j += 1;
        }
        self.pos = self.pos + n;
        proof {
            assert(final(self).remaining() =~= old(self).remaining().skip(n as int));
        }
        Ok(out)
    }

    /// Reads one byte, or fails without moving at the end of the input.
    fn read_byte(&mut self) -> (r: Result<u8, Error>)
        requires
            old(self).wf(),
        ensures
            final(self).wf(),
            final(self).spec_input() == old(self).spec_input(),
            if old(self).remaining().len() >= 1 {
                r == Ok::<u8, Error>(old(self).remaining()[0]) && stepped(
                    *old(self),
                    *final(self),
                    1,
                )
            } else {
                r == Err::<u8, Error>(Error::ReadFailed) && *final(self) == *old(self)
            },
    {
        if self.pos >= self.input.len() {
            return Err(Error::ReadFailed);
        }
        let b = self.input[self.pos];
        self.pos = self.pos + 1;
        proof {
            assert(final(self).remaining() =~= old(self).remaining().skip(1));
        }
        Ok(b)
    }

    /// One marker byte: `0xf5` is true, `0xf4` is false, anything else is
    /// rejected.
    pub fn deserialize_bool(&mut self) -> (r: Result<bool, Error>)
        requires
            old(self).wf(),
        ensures
            final(self).wf(),
            final(self).spec_input() == old(self).spec_input(),
            match take_bool(old(self).remaining()) {
                Ok((b, n)) => r == Ok::<bool, Error>(b) && stepped(*old(self), *final(self), n),
                Err(e) => r == Err::<bool, Error>(e) && old(self).spec_pos() <= final(self).spec_pos(),
            },
    {
        let b = match self.read_byte() {
            Ok(b) => b,
            Err(e) => {
                return Err(e);
            },
        };
        if b == MARK_TRUE {
            Ok(true)
        } else if b == MARK_FALSE {
            Ok(false)
        } else {
            Err(Error::InvalidBool)
        }
    }

    /// One byte, reinterpreted as two's complement.
    pub fn deserialize_i8(&mut self) -> (r: Result<i8, Error>)
        requires
            old(self).wf(),
        ensures
            final(self).wf(),
            final(self).spec_input() == old(self).spec_input(),
            match take_u8(old(self).remaining()) {
                Ok((x, n)) => r == Ok::<i8, Error>(x as i8) && stepped(
                    *old(self),
                    *final(self),
                    n,
                ),
                Err(e) => r == Err::<i8, Error>(e) && *final(self) == *old(self),
            },
    {
        match self.read_byte() {
            Ok(b) => Ok(b as i8),
            Err(e) => Err(e),
        }
    }

    /// One byte.
    pub fn deserialize_u8(&mut self) -> (r: Result<u8, Error>)
        requires
            old(self).wf(),
        ensures
            final(self).wf(),
            final(self).spec_input() == old(self).spec_input(),
            match take_u8(old(self).remaining()) {
                Ok((x, n)) => r == Ok::<u8, Error>(x) && stepped(*old(self), *final(self), n),
                Err(e) => r == Err::<u8, Error>(e) && *final(self) == *old(self),
            },
    {
        self.read_byte()
    }

    /// Two big-endian bytes.
    pub fn deserialize_u16(&mut self) -> (r: Result<u16, Error>)
        requires
            old(self).wf(),
        ensures
            final(self).wf(),
            final(self).spec_input() == old(self).spec_input(),
            match take_u16(old(self).remaining()) {
                Ok((x, n)) => r == Ok::<u16, Error>(x) && stepped(*old(self), *final(self), n),
                Err(e) => r == Err::<u16, Error>(e) && *final(self) == *old(self),
            },
    {
        let bytes = match self.read_exact(2) {
            Ok(bytes) => bytes,
            Err(e) => {
                return Err(e);
            },
        };
        Ok(((bytes[0] as u16) << 8) | (bytes[1] as u16))
    }

    /// Four big-endian bytes.
    pub fn deserialize_u32(&mut self) -> (r: Result<u32, Error>)
        requires
            old(self).wf(),
        ensures
            final(self).wf(),
            final(self).spec_input() == old(self).spec_input(),
            match take_u32(old(self).remaining()) {
                Ok((x, n)) => r == Ok::<u32, Error>(x) && stepped(*old(self), *final(self), n),
                Err(e) => r == Err::<u32, Error>(e) && *final(self) == *old(self),
            },
    {
        let bytes = match self.read_exact(4) {
            Ok(bytes) => bytes,
            Err(e) => {
                return Err(e);
            },
        };
        Ok(
            ((bytes[0] as u32) << 24) | ((bytes[1] as u32) << 16) | ((bytes[2] as u32) << 8) | (
            bytes[3] as u32),
        )
    }

    /// Eight big-endian bytes.
    pub fn deserialize_u64(&mut self) -> (r: Result<u64, Error>)
        requires
            old(self).wf(),
        ensures
            final(self).wf(),
            final(self).spec_input() == old(self).spec_input(),
            match take_u64(old(self).remaining()) {
                Ok((x, n)) => r == Ok::<u64, Error>(x) && stepped(*old(self), *final(self), n),
                Err(e) => r == Err::<u64, Error>(e) && *final(self) == *old(self),
            },
    {
        let bytes = match self.read_exact(8) {
            Ok(bytes) => bytes,
            Err(e) => {
                return Err(e);
            },
        };
        Ok(
            ((bytes[0] as u64) << 56) | ((bytes[1] as u64) << 48) | ((bytes[2] as u64) << 40) | ((
            bytes[3] as u64) << 32) | ((bytes[4] as u64) << 24) | ((bytes[5] as u64) << 16) | ((
            bytes[6] as u64) << 8) | (bytes[7] as u64),
        )
    }

    /// Two big-endian bytes, reinterpreted as two's complement.
    pub fn deserialize_i16(&mut self) -> (r: Result<i16, Error>)
        requires
            old(self).wf(),
        ensures
            final(self).wf(),
            final(self).spec_input() == old(self).spec_input(),
            match take_u16(old(self).remaining()) {
                Ok((x, n)) => r == Ok::<i16, Error>(x as i16) && stepped(
                    *old(self),
                    *final(self),
                    n,
                ),
                Err(e) => r == Err::<i16, Error>(e) && *final(self) == *old(self),
            },
    {
        match self.deserialize_u16() {
            Ok(x) => Ok(x as i16),
            Err(e) => Err(e),
        }
    }

    /// Four big-endian bytes, reinterpreted as two's complement.
    pub fn deserialize_i32(&mut self) -> (r: Result<i32, Error>)
        requires
            old(self).wf(),
        ensures
            final(self).wf(),
            final(self).spec_input() == old(self).spec_input(),
            match take_u32(old(self).remaining()) {
                Ok((x, n)) => r == Ok::<i32, Error>(x as i32) && stepped(
                    *old(self),
                    *final(self),
                    n,
                ),
                Err(e) => r == Err::<i32, Error>(e) && *final(self) == *old(self),
            },
    {
        match self.deserialize_u32() {
            Ok(x) => Ok(x as i32),
            Err(e) => Err(e),
        }
    }

    /// Eight big-endian bytes, reinterpreted as two's complement.
    pub fn deserialize_i64(&mut self) -> (r: Result<i64, Error>)
        requires
            old(self).wf(),
        ensures
            final(self).wf(),
            final(self).spec_input() == old(self).spec_input(),
            match take_u64(old(self).remaining()) {
                Ok((x, n)) => r == Ok::<i64, Error>(x as i64) && stepped(
                    *old(self),
                    *final(self),
                    n,
                ),
                Err(e) => r == Err::<i64, Error>(e) && *final(self) == *old(self),
            },
    {
        match self.deserialize_u64() {
            Ok(x) => Ok(x as i64),
            Err(e) => Err(e),
        }
    }

    /// Four big-endian bytes: an IEEE-754 single-precision bit pattern.
    pub fn deserialize_f32_bits(&mut self) -> (r: Result<u32, Error>)
        requires
            old(self).wf(),
        ensures
            final(self).wf(),
            final(self).spec_input() == old(self).spec_input(),
            match take_u32(old(self).remaining()) {
                Ok((x, n)) => r == Ok::<u32, Error>(x) && stepped(*old(self), *final(self), n),
                Err(e) => r == Err::<u32, Error>(e) && *final(self) == *old(self),
            },
    {
        self.deserialize_u32()
    }

    /// Eight big-endian bytes: an IEEE-754 double-precision bit pattern.
    pub fn deserialize_f64_bits(&mut self) -> (r: Result<u64, Error>)
        requires
            old(self).wf(),
        ensures
            final(self).wf(),
            final(self).spec_input() == old(self).spec_input(),
            match take_u64(old(self).remaining()) {
                Ok((x, n)) => r == Ok::<u64, Error>(x) && stepped(*old(self), *final(self), n),
                Err(e) => r == Err::<u64, Error>(e) && *final(self) == *old(self),
            },
    {
        self.deserialize_u64()
    }

    /// Always fails: the stream does not describe its own types, so there is
    /// no way to infer a shape from the bytes alone.
    pub fn deserialize_any(&mut self) -> (r: Result<Value, Error>)
        ensures
            r == Err::<Value, Error>(Error::NotImplemented),
            *final(self) == *old(self),
    {
        Err(Error::NotImplemented)
    }

    /// Always fails: field identifiers are never written, so none can be read.
    pub fn deserialize_identifier(&mut self) -> (r: Result<Value, Error>)
        ensures
            r == Err::<Value, Error>(Error::NotImplemented),
            *final(self) == *old(self),
    {
        Err(Error::NotImplemented)
    }

    /// Always fails: an unknown field cannot be skipped without knowing its
    /// shape, and the stream does not carry one.
    pub fn deserialize_ignored_any(&mut self) -> (r: Result<Value, Error>)
        ensures
            r == Err::<Value, Error>(Error::NotImplemented),
            *final(self) == *old(self),
    {
        Err(Error::NotImplemented)
    }
}

impl Deserializer {
    /// A 1-byte length, then that many UTF-8 bytes; the character is the
    /// first code point of the payload. An empty payload is rejected.
    pub fn deserialize_char(&mut self) -> (r: Result<char, Error>)
        requires
            old(self).wf(),
        ensures
            final(self).wf(),
            final(self).spec_input() == old(self).spec_input(),
            old(self).spec_pos() <= final(self).spec_pos(),
            match take_char(old(self).remaining()) {
                Ok((c, n)) => r == Ok::<char, Error>(c) && stepped(*old(self), *final(self), n),
                Err(e) => r == Err::<char, Error>(e),
            },
    {
        let len = match self.read_byte() {
            Ok(b) => b,
            Err(e) => {
                return Err(e);
            },
        };
        let ghost mid = *self;
        let ghost rem = old(self).remaining();
        let payload = match self.read_exact(len as usize) {
            Ok(p) => p,
            Err(e) => {
                return Err(e);
            },
        };
        proof {
            lemma_stepped_trans(*old(self), mid, *self, 1, len as int);
            assert(payload@ =~= rem.subrange(1, 1 + len as int));
        }
        let s = match bytes_to_string(payload) {
            Ok(s) => s,
            Err(e) => {
                return Err(e);
            },
        };
        if s.as_str().is_empty() {
            return Err(Error::EmptyChar);
        }
        let c = s.as_str().get_char(0);
        Ok(c)
    }

    /// A 4-byte length, then that many UTF-8 bytes, rebuilt as a string.
    pub fn deserialize_str(&mut self) -> (r: Result<String, Error>)
        requires
            old(self).wf(),
        ensures
            final(self).wf(),
            final(self).spec_input() == old(self).spec_input(),
            old(self).spec_pos() <= final(self).spec_pos(),
            match take_text(old(self).remaining()) {
                Ok((cs, n)) => (r matches Ok(s) && s@ == cs) && stepped(
                    *old(self),
                    *final(self),
                    n,
                ),
                Err(e) => r == Err::<String, Error>(e),
            },
    {
        let len = match self.deserialize_u32() {
            Ok(x) => x,
            Err(e) => {
                return Err(e);
            },
        };
        let ghost mid = *self;
        let ghost rem = old(self).remaining();
        let payload = match self.read_exact(len as usize) {
            Ok(p) => p,
            Err(e) => {
                return Err(e);
            },
        };
        proof {
            lemma_stepped_trans(*old(self), mid, *self, 4, len as int);
            assert(payload@ =~= rem.subrange(4, 4 + len as int));
        }
        match bytes_to_string(payload) {
            Ok(s) => Ok(s),
            Err(e) => Err(e),
        }
    }

    /// Same as [`Deserializer::deserialize_str`]: an owned string is decoded
    /// from the same wire form.
    pub fn deserialize_string(&mut self) -> (r: Result<String, Error>)
        requires
            old(self).wf(),
        ensures
            final(self).wf(),
            final(self).spec_input() == old(self).spec_input(),
            old(self).spec_pos() <= final(self).spec_pos(),
            match take_text(old(self).remaining()) {
                Ok((cs, n)) => (r matches Ok(s) && s@ == cs) && stepped(
                    *old(self),
                    *final(self),
                    n,
                ),
                Err(e) => r == Err::<String, Error>(e),
            },
    {
        self.deserialize_str()
    }

    /// A 4-byte length, then that many raw bytes.
    pub fn deserialize_bytes(&mut self) -> (r: Result<Vec<u8>, Error>)
        requires
            old(self).wf(),
        ensures
            final(self).wf(),
            final(self).spec_input() == old(self).spec_input(),
            old(self).spec_pos() <= final(self).spec_pos(),
            match take_blob(old(self).remaining()) {
                Ok((bs, n)) => (r matches Ok(b) && b@ == bs) && stepped(
                    *old(self),
                    *final(self),
                    n,
                ),
                Err(e) => r == Err::<Vec<u8>, Error>(e),
            },
    {
        let len = match self.deserialize_u32() {
            Ok(x) => x,
            Err(e) => {
                return Err(e);
            },
        };
        let ghost mid = *self;
        let ghost rem = old(self).remaining();
        let payload = match self.read_exact(len as usize) {
            Ok(p) => p,
            Err(e) => {
                return Err(e);
            },
        };
        proof {
            lemma_stepped_trans(*old(self), mid, *self, 4, len as int);
            assert(payload@ =~= rem.subrange(4, 4 + len as int));
        }
        Ok(payload)
    }

    /// Same as [`Deserializer::deserialize_bytes`]: an owned buffer is
    /// decoded from the same wire form.
    pub fn deserialize_byte_buf(&mut self) -> (r: Result<Vec<u8>, Error>)
        requires
            old(self).wf(),
        ensures
            final(self).wf(),
            final(self).spec_input() == old(self).spec_input(),
            old(self).spec_pos() <= final(self).spec_pos(),
            match take_blob(old(self).remaining()) {
                Ok((bs, n)) => (r matches Ok(b) && b@ == bs) && stepped(
                    *old(self),
                    *final(self),
                    n,
                ),
                Err(e) => r == Err::<Vec<u8>, Error>(e),
            },
    {
        self.deserialize_bytes()
    }

    /// One marker byte telling whether an optional payload follows: `0xf6`
    /// means absent, `0xf7` means present, anything else is rejected.
    pub fn deserialize_option(&mut self) -> (r: Result<bool, Error>)
        requires
            old(self).wf(),
        ensures
            final(self).wf(),
            final(self).spec_input() == old(self).spec_input(),
            match take_opt_marker(old(self).remaining()) {
                Ok((present, n)) => r == Ok::<bool, Error>(present) && stepped(
                    *old(self),
                    *final(self),
                    n,
                ),
                Err(e) => r == Err::<bool, Error>(e) && old(self).spec_pos() <= final(self).spec_pos(),
            },
    {
        let b = match self.read_byte() {
            Ok(b) => b,
            Err(e) => {
                return Err(e);
            },
        };
        if b == MARK_NONE {
            Ok(false)
        } else if b == MARK_SOME {
            Ok(true)
        } else {
            Err(Error::InvalidOption)
        }
    }

    /// Nothing to read: the unit value occupies no bytes.
    pub fn deserialize_unit(&mut self) -> (r: Result<(), Error>)
        ensures
            r is Ok,
            *final(self) == *old(self),
    {
        Ok(())
    }

    /// Nothing to read: a unit struct occupies no bytes.
    pub fn deserialize_unit_struct(&mut self) -> (r: Result<(), Error>)
        ensures
            r is Ok,
            *final(self) == *old(self),
    {
        Ok(())
    }

    /// The 4-byte element count of a dynamic sequence, as a bounded accessor
    /// that will drive exactly that many element reads.
    pub fn deserialize_seq(&mut self) -> (r: Result<Walk, Error>)
        requires
            old(self).wf(),
        ensures
            final(self).wf(),
            final(self).spec_input() == old(self).spec_input(),
            match take_u32(old(self).remaining()) {
                Ok((count, n)) => (r matches Ok(w) && w.spec_len() == count) && stepped(
                    *old(self),
                    *final(self),
                    n,
                ),
                Err(e) => r == Err::<Walk, Error>(e) && *final(self) == *old(self),
            },
    {
        match self.deserialize_u32() {
            Ok(count) => Ok(Walk::new(count as usize)),
            Err(e) => Err(e),
        }
    }

    /// The 4-byte pair count of a dynamic map, as a bounded accessor that
    /// will drive exactly that many key/value pair reads.
    pub fn deserialize_map(&mut self) -> (r: Result<Walk, Error>)
        requires
            old(self).wf(),
        ensures
            final(self).wf(),
            final(self).spec_input() == old(self).spec_input(),
            match take_u32(old(self).remaining()) {
                Ok((count, n)) => (r matches Ok(w) && w.spec_len() == count) && stepped(
                    *old(self),
                    *final(self),
                    n,
                ),
                Err(e) => r == Err::<Walk, Error>(e) && *final(self) == *old(self),
            },
    {
        match self.deserialize_u32() {
            Ok(count) => Ok(Walk::new(count as usize)),
            Err(e) => Err(e),
        }
    }

    /// No count on the wire: a tuple's arity is supplied by the caller, and
    /// the returned accessor drives exactly that many element reads.
    pub fn deserialize_tuple(&mut self, len: usize) -> (r: Result<Walk, Error>)
        ensures
            r matches Ok(w) && w.spec_len() == len,
            *final(self) == *old(self),
    {
        Ok(Walk::new(len))
    }

    /// No count on the wire: a tuple struct decodes exactly as a tuple.
    pub fn deserialize_tuple_struct(&mut self, len: usize) -> (r: Result<Walk, Error>)
        ensures
            r matches Ok(w) && w.spec_len() == len,
            *final(self) == *old(self),
    {
        Ok(Walk::new(len))
    }

    /// No count and no field names on the wire: a record's field values are
    /// read positionally, driven by the returned accessor.
    pub fn deserialize_struct(&mut self, fields: usize) -> (r: Result<Walk, Error>)
        ensures
            r matches Ok(w) && w.spec_len() == fields,
            *final(self) == *old(self),
    {
        Ok(Walk::new(fields))
    }

    /// The 4-byte big-endian variant index, read before any payload.
    pub fn deserialize_enum(&mut self) -> (r: Result<u32, Error>)
        requires
            old(self).wf(),
        ensures
            final(self).wf(),
            final(self).spec_input() == old(self).spec_input(),
            match take_u32(old(self).remaining()) {
                Ok((idx, n)) => r == Ok::<u32, Error>(idx) && stepped(*old(self), *final(self), n),
                Err(e) => r == Err::<u32, Error>(e) && *final(self) == *old(self),
            },
    {
        self.deserialize_u32()
    }
}

/// Transient iteration state for one composite being decoded: how many more
/// typed requests it will issue. It holds no bytes of its own; it rides on
/// the deserializer's forward-only cursor.
pub struct Walk {
    len: usize,
}

impl Walk {
    /// How many further elements this accessor will produce.
    pub closed spec fn spec_len(self) -> int {
        self.len as int
    }

    /// An accessor expecting exactly `len` further elements.
    pub fn new(len: usize) -> (w: Walk)
        ensures
            w.spec_len() == len,
    {
        Walk { len }
    }

    /// The exact number of elements still expected.
    pub fn size_hint(&self) -> (r: Option<usize>)
        ensures
            r matches Some(n) && n as int == self.spec_len(),
    {
        Some(self.len)
    }

    /// Decodes one more element of the requested shape, or reports the end of
    /// the composite once the declared count is exhausted.
    pub fn next_element(&mut self, de: &mut Deserializer, shape: &Shape) -> (r: Result<
        Option<Value>,
        Error,
    >)
        requires
            old(de).wf(),
        ensures
            final(de).wf(),
            final(de).spec_input() == old(de).spec_input(),
            old(de).spec_pos() <= final(de).spec_pos(),
            old(self).spec_len() == 0 ==> r == Ok::<Option<Value>, Error>(None) && *final(self)
                == *old(self) && *final(de) == *old(de),
            old(self).spec_len() > 0 ==> final(self).spec_len() == old(self).spec_len() - 1
                && match spec_decode(old(de).remaining(), *shape) {
                Ok((sv, n)) => (r matches Ok(opt) && opt matches Some(v) && v@ == sv) && stepped(
                    *old(de),
                    *final(de),
                    n,
                ),
                Err(e) => r == Err::<Option<Value>, Error>(e),
            },
        decreases shape, 2int, 0int,
    {
        if self.len > 0 {
            self.len = self.len - 1;
            match de.deserialize_value(shape) {
                Ok(v) => Ok(Some(v)),
                Err(e) => Err(e),
            }
        } else {
            Ok(None)
        }
    }

    /// Decodes one more key of a map, or reports the end once the declared
    /// pair count is exhausted. The matching value must be pulled next.
    pub fn next_key(&mut self, de: &mut Deserializer, shape: &Shape) -> (r: Result<
        Option<Value>,
        Error,
    >)
        requires
            old(de).wf(),
        ensures
            final(de).wf(),
            final(de).spec_input() == old(de).spec_input(),
            old(de).spec_pos() <= final(de).spec_pos(),
            old(self).spec_len() == 0 ==> r == Ok::<Option<Value>, Error>(None) && *final(self)
                == *old(self) && *final(de) == *old(de),
            old(self).spec_len() > 0 ==> final(self).spec_len() == old(self).spec_len() - 1
                && match spec_decode(old(de).remaining(), *shape) {
                Ok((sv, n)) => (r matches Ok(opt) && opt matches Some(v) && v@ == sv) && stepped(
                    *old(de),
                    *final(de),
                    n,
                ),
                Err(e) => r == Err::<Option<Value>, Error>(e),
            },
        decreases shape, 2int, 0int,
    {
        if self.len > 0 {
            self.len = self.len - 1;
            match de.deserialize_value(shape) {
                Ok(v) => Ok(Some(v)),
                Err(e) => Err(e),
            }
        } else {
            Ok(None)
        }
    }

    /// Decodes the value paired with the key just read; keys and values are
    /// always adjacent, key first, and the pair count is charged to the key.
    pub fn next_value(&mut self, de: &mut Deserializer, shape: &Shape) -> (r: Result<Value, Error>)
        requires
            old(de).wf(),
        ensures
            final(de).wf(),
            final(de).spec_input() == old(de).spec_input(),
            old(de).spec_pos() <= final(de).spec_pos(),
            *final(self) == *old(self),
            match spec_decode(old(de).remaining(), *shape) {
                Ok((sv, n)) => (r matches Ok(v) && v@ == sv) && stepped(*old(de), *final(de), n),
                Err(e) => r == Err::<Value, Error>(e),
            },
        decreases shape, 2int, 0int,
    {
        de.deserialize_value(shape)
    }

    /// A unit variant has no payload: nothing is read.
    pub fn unit_variant(self) -> (r: Result<(), Error>)
        ensures
            r is Ok,
    {
        Ok(())
    }

    /// The payload of a newtype variant: one value of the given shape.
    pub fn newtype_variant(self, de: &mut Deserializer, shape: &Shape) -> (r: Result<Value, Error>)
        requires
            old(de).wf(),
        ensures
            final(de).wf(),
            final(de).spec_input() == old(de).spec_input(),
            old(de).spec_pos() <= final(de).spec_pos(),
            match spec_decode(old(de).remaining(), *shape) {
                Ok((sv, n)) => (r matches Ok(v) && v@ == sv) && stepped(*old(de), *final(de), n),
                Err(e) => r == Err::<Value, Error>(e),
            },
        decreases shape, 2int, 0int,
    {
        de.deserialize_value(shape)
    }

    /// The payload of a tuple variant: a fresh accessor for its positional
    /// values, which carry no count of their own.
    pub fn tuple_variant(self, len: usize) -> (w: Walk)
        ensures
            w.spec_len() == len,
    {
        Walk::new(len)
    }

    /// The payload of a struct variant: a fresh accessor for its field
    /// values, encoded positionally with no names.
    pub fn struct_variant(self, fields: usize) -> (w: Walk)
        ensures
            w.spec_len() == fields,
    {
        Walk::new(fields)
    }
}

/// The relation between a deserializer before and after consuming `n` bytes:
/// same input, cursor moved forward by exactly `n`.
pub open spec fn stepped(pre: Deserializer, post: Deserializer, n: int) -> bool {
    &&& post.spec_input() == pre.spec_input()
    &&& post.spec_pos() == pre.spec_pos() + n
    &&& post.remaining() == pre.remaining().skip(n)
}

/// Consuming `m` bytes and then `n` more consumes `m + n` in all.
pub proof fn lemma_stepped_trans(a: Deserializer, b: Deserializer, c: Deserializer, m: int, n: int)
    requires
        a.wf(),
        c.wf(),
        0 <= m,
        0 <= n,
        stepped(a, b, m),
        stepped(b, c, n),
    ensures
        stepped(a, c, m + n),
{
    assert(c.remaining() =~= a.remaining().skip(m + n));
}

impl Deserializer {
    /// Reads one value of the requested shape from the front of the stream,
    /// consuming exactly the bytes its encoding occupies.
    ///
    /// On failure the cursor is left wherever the failure struck; it never
    /// moves backward, and the stream should not be reused.
    pub fn deserialize_value(&mut self, shape: &Shape) -> (r: Result<Value, Error>)
        requires
            old(self).wf(),
        ensures
            final(self).wf(),
            final(self).spec_input() == old(self).spec_input(),
            old(self).spec_pos() <= final(self).spec_pos(),
            match spec_decode(old(self).remaining(), *shape) {
                Ok((sv, n)) => (r matches Ok(v) && v@ == sv) && stepped(
                    *old(self),
                    *final(self),
                    n,
                ),
                Err(e) => r == Err::<Value, Error>(e),
            },
        decreases shape, 1int, 0int,
    {
        match shape {
            Shape::Bool => match self.deserialize_bool() {
                Ok(b) => Ok(Value::Bool(b)),
                Err(e) => Err(e),
            },
            Shape::I8 => match self.deserialize_i8() {
                Ok(x) => Ok(Value::I8(x)),
                Err(e) => Err(e),
            },
            Shape::I16 => match self.deserialize_i16() {
                Ok(x) => Ok(Value::I16(x)),
                Err(e) => Err(e),
            },
            Shape::I32 => match self.deserialize_i32() {
                Ok(x) => Ok(Value::I32(x)),
                Err(e) => Err(e),
            },
            Shape::I64 => match self.deserialize_i64() {
                Ok(x) => Ok(Value::I64(x)),
                Err(e) => Err(e),
            },
            Shape::U8 => match self.deserialize_u8() {
                Ok(x) => Ok(Value::U8(x)),
                Err(e) => Err(e),
            },
            Shape::U16 => match self.deserialize_u16() {
                Ok(x) => Ok(Value::U16(x)),
                Err(e) => Err(e),
            },
            Shape::U32 => match self.deserialize_u32() {
                Ok(x) => Ok(Value::U32(x)),
                Err(e) => Err(e),
            },
            Shape::U64 => match self.deserialize_u64() {
                Ok(x) => Ok(Value::U64(x)),
                Err(e) => Err(e),
            },
            Shape::F32 => match self.deserialize_f32_bits() {
                Ok(x) => Ok(Value::F32Bits(x)),
                Err(e) => Err(e),
            },
            Shape::F64 => match self.deserialize_f64_bits() {
                Ok(x) => Ok(Value::F64Bits(x)),
                Err(e) => Err(e),
            },
            Shape::Char => match self.deserialize_char() {
                Ok(c) => Ok(Value::Char(c)),
                Err(e) => Err(e),
            },
            Shape::Text => match self.deserialize_str() {
                Ok(s) => Ok(Value::Text(s)),
                Err(e) => Err(e),
            },
            Shape::Bytes => match self.deserialize_bytes() {
                Ok(b) => Ok(Value::Bytes(b)),
                Err(e) => Err(e),
            },
            Shape::Unit => {
                proof {
                    assert(old(self).remaining().skip(0) =~= old(self).remaining());
                }
                Ok(Value::Unit)
            },
            Shape::Optional(t) => {
                match self.deserialize_option() {
                    Err(e) => Err(e),
                    Ok(false) => Ok(Value::Absent),
                    Ok(true) => {
                        let ghost mid = *self;
                        match self.deserialize_value(t) {
                            Ok(v) => {
                                proof {
                                    lemma_stepped_trans(
                                        *old(self),
                                        mid,
                                        *final(self),
                                        1,
                                        final(self).spec_pos() - mid.spec_pos(),
                                    );
                                }
                                Ok(Value::Present(Box::new(v)))
                            },
                            Err(e) => Err(e),
                        }
                    },
                }
            },
            Shape::Sequence(t) => {
                let mut walk = match self.deserialize_seq() {
                    Ok(w) => w,
                    Err(e) => {
                        return Err(e);
                    },
                };
                let count = match walk.size_hint() {
                    Some(c) => c,
                    None => {
                        proof {
                            assert(false);
                        }
                        0
                    },
                };
                let ghost mid = *self;
                match self.decode_list_items(&mut walk, t, count) {
                    Ok(items) => {
                        proof {
                            lemma_stepped_trans(
                                *old(self),
                                mid,
                                *final(self),
                                4,
                                final(self).spec_pos() - mid.spec_pos(),
                            );
                        }
                        Ok(Value::Sequence(items))
                    },
                    Err(e) => Err(e),
                }
            },
            Shape::Mapping(_, _) => {
                let mut walk = match self.deserialize_map() {
                    Ok(w) => w,
                    Err(e) => {
                        return Err(e);
                    },
                };
                let count = match walk.size_hint() {
                    Some(c) => c,
                    None => {
                        proof {
                            assert(false);
                        }
                        0
                    },
                };
                let ghost mid = *self;
                match self.decode_map_items(&mut walk, shape, count) {
                    Ok(pairs) => {
                        proof {
                            lemma_stepped_trans(
                                *old(self),
                                mid,
                                *final(self),
                                4,
                                final(self).spec_pos() - mid.spec_pos(),
                            );
                        }
                        Ok(Value::Mapping(pairs))
                    },
                    Err(e) => Err(e),
                }
            },
            Shape::Tuple(ts) => {
                let mut walk = match self.deserialize_tuple(ts.len()) {
                    Ok(w) => w,
                    Err(e) => {
                        return Err(e);
                    },
                };
                match self.decode_fields(&mut walk, ts) {
                    Ok(items) => Ok(Value::Tuple(items)),
                    Err(e) => Err(e),
                }
            },
            Shape::Record(ts) => {
                let mut walk = match self.deserialize_struct(ts.len()) {
                    Ok(w) => w,
                    Err(e) => {
                        return Err(e);
                    },
                };
                match self.decode_fields(&mut walk, ts) {
                    Ok(items) => Ok(Value::Record(items)),
                    Err(e) => Err(e),
                }
            },
            Shape::Enum(variants) => {
                let idx = match self.deserialize_enum() {
                    Ok(idx) => idx,
                    Err(e) => {
                        return Err(e);
                    },
                };
                if (idx as u64) >= (variants.len() as u64) {
                    return Err(Error::InvalidVariant);
                }
                let ghost mid = *self;
                match &variants[idx as usize] {
                    VariantShape::Unit => Ok(Value::UnitVariant(idx)),
                    VariantShape::Newtype(t) => {
                        match self.deserialize_value(t) {
                            Ok(v) => {
                                proof {
                                    lemma_stepped_trans(
                                        *old(self),
                                        mid,
                                        *final(self),
                                        4,
                                        final(self).spec_pos() - mid.spec_pos(),
                                    );
                                }
                                Ok(Value::NewtypeVariant(idx, Box::new(v)))
                            },
                            Err(e) => Err(e),
                        }
                    },
                    VariantShape::Tuple(ts) => {
                        let mut walk = Walk::new(ts.len());
                        match self.decode_fields(&mut walk, ts) {
                            Ok(items) => {
                                proof {
                                    lemma_stepped_trans(
                                        *old(self),
                                        mid,
                                        *final(self),
                                        4,
                                        final(self).spec_pos() - mid.spec_pos(),
                                    );
                                }
                                Ok(Value::TupleVariant(idx, items))
                            },
                            Err(e) => Err(e),
                        }
                    },
                    VariantShape::Struct(ts) => {
                        let mut walk = Walk::new(ts.len());
                        match self.decode_fields(&mut walk, ts) {
                            Ok(items) => {
                                proof {
                                    lemma_stepped_trans(
                                        *old(self),
                                        mid,
                                        *final(self),
                                        4,
                                        final(self).spec_pos() - mid.spec_pos(),
                                    );
                                }
                                Ok(Value::StructVariant(idx, items))
                            },
                            Err(e) => Err(e),
                        }
                    },
                }
            },
        }
    }

    /// Reads a counted row of same-shaped elements, driven by the accessor.
    fn decode_list_items(&mut self, walk: &mut Walk, elem: &Shape, count: usize) -> (r: Result<
        Vec<Value>,
        Error,
    >)
        requires
            old(self).wf(),
            old(walk).spec_len() == count,
        ensures
            final(self).wf(),
            final(self).spec_input() == old(self).spec_input(),
            old(self).spec_pos() <= final(self).spec_pos(),
            match spec_decode_list(old(self).remaining(), *elem, count as int) {
                Ok((svs, n)) => (r matches Ok(items) && spec_values_of(items@) == svs) && stepped(
                    *old(self),
                    *final(self),
                    n,
                ),
                Err(e) => r == Err::<Vec<Value>, Error>(e),
            },
        decreases elem, 3int, 0int,
    {
        let mut items: Vec<Value> = Vec::new();
        let mut i: usize = 0;
        proof {
            assert(spec_values_of(items@) =~= Seq::<SpecValue>::empty());
            assert(old(self).remaining().skip(0) =~= old(self).remaining());
        }
        while i < count
            invariant
                old(self).wf(),
                self.wf(),
                i <= count,
                walk.spec_len() == count - i,
                self.spec_input() == old(self).spec_input(),
                stepped(*old(self), *self, self.spec_pos() - old(self).spec_pos()),
                0 <= self.spec_pos() - old(self).spec_pos(),
                prepend(
                    spec_values_of(items@),
                    self.spec_pos() - old(self).spec_pos(),
                    spec_decode_list(self.remaining(), *elem, (count - i) as int),
                ) == spec_decode_list(old(self).remaining(), *elem, count as int),
            decreases count - i,
        {
            let ghost pre = *self;
            let ghost front = spec_values_of(items@);
            let ghost delta = pre.spec_pos() - old(self).spec_pos();
            match walk.next_element(self, elem) {
                Ok(Some(v)) => {
                    items.push(v);
                    proof {
                        let (sv, n) = spec_decode(pre.remaining(), *elem)->Ok_0;
                        let rest = spec_decode_list(self.remaining(), *elem, (count - i - 1) as int);
                        assert(spec_decode_list(pre.remaining(), *elem, (count - i) as int)
                            == prepend(seq![sv], n, rest));
                        lemma_prepend_assoc(front, delta, seq![sv], n, rest);
                        assert(spec_values_of(items@) =~= front + seq![sv]);
                        lemma_stepped_trans(*old(self), pre, *self, delta, n);
                    }
                },
                Ok(None) => {
                    proof {
                        assert(false);
                    }
                    return Err(Error::ReadFailed);
                },
                Err(e) => {
                    proof {
                        assert(spec_decode_list(pre.remaining(), *elem, (count - i) as int)
                            == Err::<(Seq<SpecValue>, int), Error>(e));
                    }
                    return Err(e);
                },
            }
            i += 1;
        }
        proof {
            assert(spec_decode_list(self.remaining(), *elem, 0) == Ok::<
                (Seq<SpecValue>, int),
                Error,
            >((seq![], 0)));
            assert(spec_values_of(items@) + seq![] =~= spec_values_of(items@));
        }
        Ok(items)
    }

    /// Reads a counted row of key/value pairs, key first, driven by the
    /// accessor. The shape argument is the whole map shape.
    fn decode_map_items(&mut self, walk: &mut Walk, shape: &Shape, count: usize) -> (r: Result<
        Vec<(Value, Value)>,
        Error,
    >)
        requires
            old(self).wf(),
            old(walk).spec_len() == count,
            shape is Mapping,
        ensures
            final(self).wf(),
            final(self).spec_input() == old(self).spec_input(),
            old(self).spec_pos() <= final(self).spec_pos(),
            match spec_decode_pairs(old(self).remaining(), *shape, count as int) {
                Ok((ps, n)) => (r matches Ok(pairs) && spec_pairs_of(pairs@) == ps) && stepped(
                    *old(self),
                    *final(self),
                    n,
                ),
                Err(e) => r == Err::<Vec<(Value, Value)>, Error>(e),
            },
        decreases shape, 0int, 0int,
    {
        let (kt, vt) = match shape {
            Shape::Mapping(kt, vt) => (kt, vt),
            _ => {
                proof {
                    assert(false);
                }
                return Err(Error::NotImplemented);
            },
        };
        let mut pairs: Vec<(Value, Value)> = Vec::new();
        let mut i: usize = 0;
        proof {
            assert(spec_pairs_of(pairs@) =~= Seq::<(SpecValue, SpecValue)>::empty());
            assert(old(self).remaining().skip(0) =~= old(self).remaining());
        }
        while i < count
            invariant
                old(self).wf(),
                self.wf(),
                i <= count,
                walk.spec_len() == count - i,
                shape is Mapping,
                *kt == shape->Mapping_0,
                *vt == shape->Mapping_1,
                self.spec_input() == old(self).spec_input(),
                stepped(*old(self), *self, self.spec_pos() - old(self).spec_pos()),
                0 <= self.spec_pos() - old(self).spec_pos(),
                prepend(
                    spec_pairs_of(pairs@),
                    self.spec_pos() - old(self).spec_pos(),
                    spec_decode_pairs(self.remaining(), *shape, (count - i) as int),
                ) == spec_decode_pairs(old(self).remaining(), *shape, count as int),
            decreases count - i,
        {
            let ghost pre = *self;
            let ghost front = spec_pairs_of(pairs@);
            let ghost delta = pre.spec_pos() - old(self).spec_pos();
            let key = match walk.next_key(self, kt) {
                Ok(Some(k)) => k,
                Ok(None) => {
                    proof {
                        assert(false);
                    }
                    return Err(Error::ReadFailed);
                },
                Err(e) => {
                    proof {
                        assert(spec_decode_pairs(pre.remaining(), *shape, (count - i) as int)
                            == Err::<(Seq<(SpecValue, SpecValue)>, int), Error>(e));
                    }
                    return Err(e);
                },
            };
            let ghost kmid = *self;
            let value = match walk.next_value(self, vt) {
                Ok(v) => v,
                Err(e) => {
                    proof {
                        assert(spec_decode_pairs(pre.remaining(), *shape, (count - i) as int)
                            == Err::<(Seq<(SpecValue, SpecValue)>, int), Error>(e));
                        lemma_stepped_trans(
                            *old(self),
                            pre,
                            kmid,
                            delta,
                            kmid.spec_pos() - pre.spec_pos(),
                        );
                    }
                    return Err(e);
                },
            };
            proof {
                let (ksv, kn) = spec_decode(pre.remaining(), **kt)->Ok_0;
                let (vsv, vn) = spec_decode(kmid.remaining(), **vt)->Ok_0;
                let rest = spec_decode_pairs(self.remaining(), *shape, (count - i - 1) as int);
                lemma_stepped_trans(pre, kmid, *self, kn, vn);
                assert(spec_decode_pairs(pre.remaining(), *shape, (count - i) as int) == prepend(
                    seq![(ksv, vsv)],
                    kn + vn,
                    rest,
                ));
                lemma_prepend_assoc(front, delta, seq![(ksv, vsv)], kn + vn, rest);
                lemma_stepped_trans(*old(self), pre, *self, delta, kn + vn);
            }
            pairs.push((key, value));
            proof {
                assert(spec_pairs_of(pairs@) =~= front + seq![
                    (spec_value_of(pairs@.last().0), spec_value_of(pairs@.last().1)),
                ]);
            }
            i += 1;
        }
        proof {
            assert(spec_decode_pairs(self.remaining(), *shape, 0) == Ok::<
                (Seq<(SpecValue, SpecValue)>, int),
                Error,
            >((seq![], 0)));
            assert(spec_pairs_of(pairs@) + seq![] =~= spec_pairs_of(pairs@));
        }
        Ok(pairs)
    }

    /// Reads one value per given shape, in order, driven by the accessor; no
    /// count is read from the wire.
    fn decode_fields(&mut self, walk: &mut Walk, ts: &Vec<Shape>) -> (r: Result<Vec<Value>, Error>)
        requires
            old(self).wf(),
            old(walk).spec_len() == ts@.len(),
        ensures
            final(self).wf(),
            final(self).spec_input() == old(self).spec_input(),
            old(self).spec_pos() <= final(self).spec_pos(),
            match spec_decode_fields(old(self).remaining(), ts@) {
                Ok((svs, n)) => (r matches Ok(items) && spec_values_of(items@) == svs) && stepped(
                    *old(self),
                    *final(self),
                    n,
                ),
                Err(e) => r == Err::<Vec<Value>, Error>(e),
            },
        decreases ts, 1int, 0int,
    {
        let mut items: Vec<Value> = Vec::new();
        let mut i: usize = 0;
        proof {
            assert(spec_values_of(items@) =~= Seq::<SpecValue>::empty());
            assert(old(self).remaining().skip(0) =~= old(self).remaining());
            assert(ts@.skip(0) =~= ts@);
        }
        while i < ts.len()
            invariant
                old(self).wf(),
                self.wf(),
                i <= ts@.len(),
                walk.spec_len() == ts@.len() - i,
                self.spec_input() == old(self).spec_input(),
                stepped(*old(self), *self, self.spec_pos() - old(self).spec_pos()),
                0 <= self.spec_pos() - old(self).spec_pos(),
                prepend(
                    spec_values_of(items@),
                    self.spec_pos() - old(self).spec_pos(),
                    spec_decode_fields(self.remaining(), ts@.skip(i as int)),
                ) == spec_decode_fields(old(self).remaining(), ts@),
            decreases ts@.len() - i,
        {
            let ghost pre = *self;
            let ghost front = spec_values_of(items@);
            let ghost delta = pre.spec_pos() - old(self).spec_pos();
            proof {
                assert(ts@.skip(i as int)[0] == ts@[i as int]);
                assert(ts@.skip(i as int).drop_first() =~= ts@.skip(i as int + 1));
            }
            match walk.next_element(self, &ts[i]) {
                Ok(Some(v)) => {
                    items.push(v);
                    proof {
                        let (sv, n) = spec_decode(pre.remaining(), ts@[i as int])->Ok_0;
                        let rest = spec_decode_fields(self.remaining(), ts@.skip(i as int + 1));
                        assert(spec_decode_fields(pre.remaining(), ts@.skip(i as int)) == prepend(
                            seq![sv],
                            n,
                            rest,
                        ));
                        lemma_prepend_assoc(front, delta, seq![sv], n, rest);
                        assert(spec_values_of(items@) =~= front + seq![sv]);
                        lemma_stepped_trans(*old(self), pre, *self, delta, n);
                    }
                },
                Ok(None) => {
                    proof {
                        assert(false);
                    }
                    return Err(Error::ReadFailed);
                },
                Err(e) => {
                    proof {
                        assert(spec_decode_fields(pre.remaining(), ts@.skip(i as int)) == Err::<
                            (Seq<SpecValue>, int),
                            Error,
                        >(e));
                    }
                    return Err(e);
                },
            }
            i += 1;
        }
        proof {
            assert(ts@.skip(i as int) =~= Seq::<Shape>::empty());
            assert(spec_decode_fields(self.remaining(), ts@.skip(i as int)) == Ok::<
                (Seq<SpecValue>, int),
                Error,
            >((seq![], 0)));
            assert(spec_values_of(items@) + seq![] =~= spec_values_of(items@));
        }
        Ok(items)
    }
}

/// Decodes one value of the given shape from the front of the given bytes:
/// the whole decode path in one call. Trailing bytes are left unread.
pub fn from_bytes(bytes: &[u8], shape: &Shape) -> (r: Result<Value, Error>)
    ensures
        match spec_decode(bytes@, *shape) {
            Ok((sv, n)) => r matches Ok(v) && v@ == sv,
            Err(e) => r == Err::<Value, Error>(e),
        },
{
    let mut deserializer = Deserializer::new(vstd::slice::slice_to_vec(bytes));
    proof {
        assert(deserializer.remaining() =~= bytes@);
    }
    deserializer.deserialize_value(shape)
}

/// A decode result with a row of already-decoded values and their byte count
/// put back on the front.
spec fn prepend<T>(front: Seq<T>, k: int, r: Result<(Seq<T>, int), Error>) -> Result<
    (Seq<T>, int),
    Error,
> {
    match r {
        Ok((vs, n)) => Ok((front + vs, k + n)),
        Err(e) => Err(e),
    }
}

/// Putting two rows back one after the other is putting back their
/// concatenation.
proof fn lemma_prepend_assoc<T>(
    a: Seq<T>,
    ka: int,
    b: Seq<T>,
    kb: int,
    r: Result<(Seq<T>, int), Error>,
)
    ensures
        prepend(a, ka, prepend(b, kb, r)) == prepend(a + b, ka + kb, r),
{
    match r {
        Ok((vs, n)) => {
            assert((a + (b + vs)) =~= ((a + b) + vs));
        },
        Err(_) => {},
    }
}

/// Relies on `String::from_utf8`: it returns the string holding exactly the
/// given bytes when they are valid UTF-8, and refuses them otherwise.
#[verifier::external_body]
fn bytes_to_string(bytes: Vec<u8>) -> (r: Result<String, Error>)
    ensures
        r is Ok <==> valid_utf8(bytes@),
        r matches Ok(s) ==> s@ == decode_utf8(bytes@),
        r matches Err(e) ==> e == Error::InvalidUtf8,
{
    match String::from_utf8(bytes) {
        Ok(s) => Ok(s),
        Err(_) => Err(Error::InvalidUtf8),
    }
}

} // verus!
