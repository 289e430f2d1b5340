//! The value model: what the codec can carry, and the shapes that drive decoding.

use vstd::prelude::*;

verus! {

/// One structured value, the unit of encoding.
///
/// Floating-point numbers travel as their IEEE-754 bit patterns
/// ([`Value::F32Bits`], [`Value::F64Bits`]): the wire holds exactly those bits
/// big-endian, so the conversion is loss-free both ways.
#[derive(Debug, PartialEq, Eq)]
pub enum Value {
    Bool(bool),
    I8(i8),
    I16(i16),
    I32(i32),
    I64(i64),
    U8(u8),
    U16(u16),
    U32(u32),
    U64(u64),
    /// The bit pattern of a 32-bit IEEE-754 float.
    F32Bits(u32),
    /// The bit pattern of a 64-bit IEEE-754 float.
    F64Bits(u64),
    Char(char),
    Text(String),
    Bytes(Vec<u8>),
    /// The unit value, and any unit struct: zero bytes on the wire.
    Unit,
    /// An absent optional.
    Absent,
    /// A present optional and its inner value.
    Present(Box<Value>),
    /// A dynamic sequence: its length is discovered at encode time.
    Sequence(Vec<Value>),
    /// A dynamic map: key/value pairs in iteration order.
    Mapping(Vec<(Value, Value)>),
    /// A fixed-arity tuple or tuple struct: arity known out of band.
    Tuple(Vec<Value>),
    /// A fixed-arity record: field values in declared order, no names.
    Record(Vec<Value>),
    /// A unit variant of a tagged union: index only, no payload.
    UnitVariant(u32),
    /// A newtype variant: index, then the inner value.
    NewtypeVariant(u32, Box<Value>),
    /// A tuple variant: index, then the positional values.
    TupleVariant(u32, Vec<Value>),
    /// A struct variant: index, then the field values in declared order.
    StructVariant(u32, Vec<Value>),
}

/// The mathematical abstraction of a [`Value`]: strings become sequences of
/// characters, vectors become sequences. Contracts and the wire-format
/// specification speak of this type.
#[verifier::ext_equal]
pub enum SpecValue {
    Bool(bool),
    I8(i8),
    I16(i16),
    I32(i32),
    I64(i64),
    U8(u8),
    U16(u16),
    U32(u32),
    U64(u64),
    F32Bits(u32),
    F64Bits(u64),
    Char(char),
    Text(Seq<char>),
    Bytes(Seq<u8>),
    Unit,
    Absent,
    Present(Box<SpecValue>),
    Sequence(Seq<SpecValue>),
    Mapping(Seq<(SpecValue, SpecValue)>),
    Tuple(Seq<SpecValue>),
    Record(Seq<SpecValue>),
    UnitVariant(u32),
    NewtypeVariant(u32, Box<SpecValue>),
    TupleVariant(u32, Seq<SpecValue>),
    StructVariant(u32, Seq<SpecValue>),
}

/// The schema a caller supplies to drive a decode.
///
/// Except for the boolean and optional markers no byte in the stream declares
/// its own kind, so the caller must request the correct shape at every
/// position.
#[derive(Debug, PartialEq, Eq)]
pub enum Shape {
    Bool,
    I8,
    I16,
    I32,
    I64,
    U8,
    U16,
    U32,
    U64,
    F32,
    F64,
    Char,
    Text,
    Bytes,
    Unit,
    Optional(Box<Shape>),
    Sequence(Box<Shape>),
    Mapping(Box<Shape>, Box<Shape>),
    Tuple(Vec<Shape>),
    Record(Vec<Shape>),
    /// A tagged union: one payload shape per variant, by index.
    Enum(Vec<VariantShape>),
}

/// The payload shape of one variant of a tagged union.
#[derive(Debug, PartialEq, Eq)]
pub enum VariantShape {
    Unit,
    Newtype(Box<Shape>),
    Tuple(Vec<Shape>),
    Struct(Vec<Shape>),
}

/// What a box holds.
pub open spec fn box_content<T>(b: Box<T>) -> T {
    *b
}

/// The box holding a given value; boxes are identified with their contents.
pub open spec fn boxed<T>(v: T) -> Box<T> {
    choose|b: Box<T>| #[trigger] box_content(b) == v
}

/// The box built by [`boxed`] really holds the given value.
pub proof fn lemma_boxed<T>(v: T)
    ensures
        *boxed(v) == v,
{
    let b: Box<T> = Box::new(v);
    assert(box_content(b) == v);
}

/// The abstraction of one value.
pub open spec fn spec_value_of(v: Value) -> SpecValue
    decreases v, 0int,
{
    match v {
        Value::Bool(b) => SpecValue::Bool(b),
        Value::I8(x) => SpecValue::I8(x),
        Value::I16(x) => SpecValue::I16(x),
        Value::I32(x) => SpecValue::I32(x),
        Value::I64(x) => SpecValue::I64(x),
        Value::U8(x) => SpecValue::U8(x),
        Value::U16(x) => SpecValue::U16(x),
        Value::U32(x) => SpecValue::U32(x),
        Value::U64(x) => SpecValue::U64(x),
        Value::F32Bits(x) => SpecValue::F32Bits(x),
        Value::F64Bits(x) => SpecValue::F64Bits(x),
        Value::Char(c) => SpecValue::Char(c),
        Value::Text(s) => SpecValue::Text(s@),
        Value::Bytes(b) => SpecValue::Bytes(b@),
        Value::Unit => SpecValue::Unit,
        Value::Absent => SpecValue::Absent,
        Value::Present(inner) => SpecValue::Present(boxed(spec_value_of(*inner))),
        Value::Sequence(elems) => SpecValue::Sequence(spec_values_of(elems@)),
        Value::Mapping(pairs) => SpecValue::Mapping(spec_pairs_of(pairs@)),
        Value::Tuple(elems) => SpecValue::Tuple(spec_values_of(elems@)),
        Value::Record(elems) => SpecValue::Record(spec_values_of(elems@)),
        Value::UnitVariant(idx) => SpecValue::UnitVariant(idx),
        Value::NewtypeVariant(idx, inner) => SpecValue::NewtypeVariant(
            idx,
            boxed(spec_value_of(*inner)),
        ),
        Value::TupleVariant(idx, elems) => SpecValue::TupleVariant(idx, spec_values_of(elems@)),
        Value::StructVariant(idx, elems) => SpecValue::StructVariant(idx, spec_values_of(elems@)),
    }
}

/// The abstraction of a vector of values, element by element.
pub open spec fn spec_values_of(vs: Seq<Value>) -> Seq<SpecValue>
    decreases vs, 1int,
{
    Seq::new(
        vs.len(),
        |i: int|
            if 0 <= i < vs.len() {
                spec_value_of(vs[i])
            } else {
                SpecValue::Unit
            },
    )
}

/// The abstraction of a vector of key/value pairs, pair by pair.
pub open spec fn spec_pairs_of(ps: Seq<(Value, Value)>) -> Seq<(SpecValue, SpecValue)>
    decreases ps, 1int,
{
    Seq::new(
        ps.len(),
        |i: int|
            if 0 <= i < ps.len() {
                (spec_value_of(ps[i].0), spec_value_of(ps[i].1))
            } else {
                (SpecValue::Unit, SpecValue::Unit)
            },
    )
}

impl View for Value {
    type V = SpecValue;

    open spec fn view(&self) -> SpecValue {
        spec_value_of(*self)
    }
}

/// Whether a value fits a shape: the compatibility relation between what was
/// encoded and what a decoder is asked to reconstruct.
pub open spec fn has_shape(v: SpecValue, s: Shape) -> bool
    decreases v, 1int,
{
    match v {
        SpecValue::Bool(_) => s is Bool,
        SpecValue::I8(_) => s is I8,
        SpecValue::I16(_) => s is I16,
        SpecValue::I32(_) => s is I32,
        SpecValue::I64(_) => s is I64,
        SpecValue::U8(_) => s is U8,
        SpecValue::U16(_) => s is U16,
        SpecValue::U32(_) => s is U32,
        SpecValue::U64(_) => s is U64,
        SpecValue::F32Bits(_) => s is F32,
        SpecValue::F64Bits(_) => s is F64,
        SpecValue::Char(_) => s is Char,
        SpecValue::Text(_) => s is Text,
        SpecValue::Bytes(_) => s is Bytes,
        SpecValue::Unit => s is Unit,
        SpecValue::Absent => s is Optional,
        SpecValue::Present(inner) => s matches Shape::Optional(t) && has_shape(*inner, *t),
        SpecValue::Sequence(elems) => s matches Shape::Sequence(t) && all_have_shape(elems, *t),
        SpecValue::Mapping(pairs) => s matches Shape::Mapping(kt, vt) && all_pairs_have_shape(
            pairs,
            *kt,
            *vt,
        ),
        SpecValue::Tuple(elems) => s matches Shape::Tuple(ts) && fields_have_shape(elems, ts@),
        SpecValue::Record(elems) => s matches Shape::Record(ts) && fields_have_shape(elems, ts@),
        SpecValue::UnitVariant(idx) => s matches Shape::Enum(vs) && idx < vs@.len() && vs@[
            idx as int
        ] is Unit,
        SpecValue::NewtypeVariant(idx, inner) => s matches Shape::Enum(vs) && idx < vs@.len() && (
        vs@[idx as int] matches VariantShape::Newtype(t) && has_shape(*inner, *t)),
        SpecValue::TupleVariant(idx, elems) => s matches Shape::Enum(vs) && idx < vs@.len() && (vs@[
            idx as int
        ] matches VariantShape::Tuple(ts) && fields_have_shape(elems, ts@)),
        SpecValue::StructVariant(idx, elems) => s matches Shape::Enum(vs) && idx < vs@.len() && (
        vs@[idx as int] matches VariantShape::Struct(ts) && fields_have_shape(elems, ts@)),
    }
}

/// Whether every element of a sequence fits the one element shape.
pub open spec fn all_have_shape(vs: Seq<SpecValue>, s: Shape) -> bool
    decreases vs, 0int,
{
    forall|i: int| 0 <= i < vs.len() ==> has_shape(#[trigger] vs[i], s)
}

/// Whether every pair of a map fits the key shape and the value shape.
pub open spec fn all_pairs_have_shape(ps: Seq<(SpecValue, SpecValue)>, ks: Shape, vs: Shape) -> bool
    decreases ps, 0int,
{
    forall|i: int|
        0 <= i < ps.len() ==> has_shape(#[trigger] ps[i].0, ks) && has_shape(ps[i].1, vs)
}

/// Whether positional values fit positional shapes, index by index.
pub open spec fn fields_have_shape(vs: Seq<SpecValue>, ts: Seq<Shape>) -> bool
    decreases vs, 0int,
{
    vs.len() == ts.len() && forall|i: int|
        0 <= i < vs.len() ==> has_shape(#[trigger] vs[i], ts[i])
}

} // verus!
