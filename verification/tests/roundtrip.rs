use packed::{from_bytes, to_bytes, Shape, Value, VariantShape};

fn rt(v: Value, s: &Shape) -> Value {
    let bytes = to_bytes(&v).expect("encoding failed");
    from_bytes(&bytes, s).expect("decoding failed")
}

#[test]
fn booleans() {
    assert_eq!(rt(Value::Bool(true), &Shape::Bool), Value::Bool(true));
    assert_eq!(rt(Value::Bool(false), &Shape::Bool), Value::Bool(false));
}

#[test]
fn integers_at_extremes_and_zero() {
    assert_eq!(rt(Value::I8(i8::MIN), &Shape::I8), Value::I8(i8::MIN));
    assert_eq!(rt(Value::I8(0), &Shape::I8), Value::I8(0));
    assert_eq!(rt(Value::I8(i8::MAX), &Shape::I8), Value::I8(i8::MAX));
    assert_eq!(rt(Value::I16(i16::MIN), &Shape::I16), Value::I16(i16::MIN));
    assert_eq!(rt(Value::I16(0), &Shape::I16), Value::I16(0));
    assert_eq!(rt(Value::I16(i16::MAX), &Shape::I16), Value::I16(i16::MAX));
    assert_eq!(rt(Value::I32(i32::MIN), &Shape::I32), Value::I32(i32::MIN));
    assert_eq!(rt(Value::I32(0), &Shape::I32), Value::I32(0));
    assert_eq!(rt(Value::I32(i32::MAX), &Shape::I32), Value::I32(i32::MAX));
    assert_eq!(rt(Value::I64(i64::MIN), &Shape::I64), Value::I64(i64::MIN));
    assert_eq!(rt(Value::I64(0), &Shape::I64), Value::I64(0));
    assert_eq!(rt(Value::I64(i64::MAX), &Shape::I64), Value::I64(i64::MAX));
    assert_eq!(rt(Value::U8(0), &Shape::U8), Value::U8(0));
    assert_eq!(rt(Value::U8(u8::MAX), &Shape::U8), Value::U8(u8::MAX));
    assert_eq!(rt(Value::U16(0), &Shape::U16), Value::U16(0));
    assert_eq!(rt(Value::U16(u16::MAX), &Shape::U16), Value::U16(u16::MAX));
    assert_eq!(rt(Value::U32(0), &Shape::U32), Value::U32(0));
    assert_eq!(rt(Value::U32(u32::MAX), &Shape::U32), Value::U32(u32::MAX));
    assert_eq!(rt(Value::U64(0), &Shape::U64), Value::U64(0));
    assert_eq!(rt(Value::U64(u64::MAX), &Shape::U64), Value::U64(u64::MAX));
}

#[test]
fn floats_including_nan_and_infinities() {
    let specials32: Vec<f32> = vec![
        0.0,
        -0.0,
        1.5,
        f32::NAN,
        f32::INFINITY,
        f32::NEG_INFINITY,
        f32::MIN,
        f32::MAX,
    ];
    for f in specials32 {
        let v = Value::F32Bits(f.to_bits());
        match rt(v, &Shape::F32) {
            Value::F32Bits(bits) => assert_eq!(bits, f.to_bits()),
            other => panic!("wrong kind back: {:?}", other),
        }
    }
    let specials64: Vec<f64> = vec![
        0.0,
        -0.0,
        2.5,
        f64::NAN,
        f64::INFINITY,
        f64::NEG_INFINITY,
        f64::MIN,
        f64::MAX,
    ];
    for f in specials64 {
        let v = Value::F64Bits(f.to_bits());
        match rt(v, &Shape::F64) {
            Value::F64Bits(bits) => assert_eq!(bits, f.to_bits()),
            other => panic!("wrong kind back: {:?}", other),
        }
    }
}

#[test]
fn characters() {
    for c in ['a', '\u{0}', '\u{e9}', '\u{4e2d}', '\u{1F600}'] {
        assert_eq!(rt(Value::Char(c), &Shape::Char), Value::Char(c));
    }
}

#[test]
fn strings_empty_and_non_ascii() {
    for s in ["", "hello", "h\u{e9}llo w\u{f6}rld \u{4e2d}\u{6587} \u{1F600}"] {
        assert_eq!(
            rt(Value::Text(String::from(s)), &Shape::Text),
            Value::Text(String::from(s))
        );
    }
}

#[test]
fn byte_blobs() {
    for b in [vec![], vec![0u8], vec![0xde, 0xad, 0xbe, 0xef, 0xf5, 0xf6]] {
        assert_eq!(rt(Value::Bytes(b.clone()), &Shape::Bytes), Value::Bytes(b));
    }
}

#[test]
fn unit() {
    let bytes = to_bytes(&Value::Unit).unwrap();
    assert_eq!(bytes, Vec::<u8>::new());
    assert_eq!(rt(Value::Unit, &Shape::Unit), Value::Unit);
}

#[test]
fn optionals_including_nested() {
    let s = Shape::Optional(Box::new(Shape::U16));
    assert_eq!(rt(Value::Absent, &s), Value::Absent);
    assert_eq!(
        rt(Value::Present(Box::new(Value::U16(700))), &s),
        Value::Present(Box::new(Value::U16(700)))
    );
    let nested = Shape::Optional(Box::new(Shape::Optional(Box::new(Shape::Bool))));
    let inner_absent = Value::Present(Box::new(Value::Absent));
    assert_eq!(rt(inner_absent, &nested), Value::Present(Box::new(Value::Absent)));
    let inner_present = Value::Present(Box::new(Value::Present(Box::new(Value::Bool(true)))));
    assert_eq!(
        rt(inner_present, &nested),
        Value::Present(Box::new(Value::Present(Box::new(Value::Bool(true)))))
    );
}

#[test]
fn sequences_empty_and_nonempty() {
    let s = Shape::Sequence(Box::new(Shape::I32));
    assert_eq!(rt(Value::Sequence(vec![]), &s), Value::Sequence(vec![]));
    let xs = Value::Sequence(vec![Value::I32(-1), Value::I32(0), Value::I32(7)]);
    assert_eq!(
        rt(xs, &s),
        Value::Sequence(vec![Value::I32(-1), Value::I32(0), Value::I32(7)])
    );
}

#[test]
fn maps_empty_and_nonempty() {
    let s = Shape::Mapping(Box::new(Shape::Text), Box::new(Shape::U32));
    assert_eq!(rt(Value::Mapping(vec![]), &s), Value::Mapping(vec![]));
    let m = Value::Mapping(vec![
        (Value::Text(String::from("one")), Value::U32(1)),
        (Value::Text(String::from("two")), Value::U32(2)),
    ]);
    assert_eq!(
        rt(m, &s),
        Value::Mapping(vec![
            (Value::Text(String::from("one")), Value::U32(1)),
            (Value::Text(String::from("two")), Value::U32(2)),
        ])
    );
}

#[test]
fn tuple_of_mixed_primitives() {
    let s = Shape::Tuple(vec![Shape::Bool, Shape::U64, Shape::Char]);
    let t = Value::Tuple(vec![Value::Bool(false), Value::U64(9), Value::Char('x')]);
    assert_eq!(
        rt(t, &s),
        Value::Tuple(vec![Value::Bool(false), Value::U64(9), Value::Char('x')])
    );
}

#[test]
fn record_with_three_fields() {
    let s = Shape::Record(vec![Shape::Text, Shape::I64, Shape::Bytes]);
    let rec = Value::Record(vec![
        Value::Text(String::from("name")),
        Value::I64(-42),
        Value::Bytes(vec![1, 2, 3]),
    ]);
    assert_eq!(
        rt(rec, &s),
        Value::Record(vec![
            Value::Text(String::from("name")),
            Value::I64(-42),
            Value::Bytes(vec![1, 2, 3]),
        ])
    );
}

fn enum_shape() -> Shape {
    Shape::Enum(vec![
        VariantShape::Unit,
        VariantShape::Newtype(Box::new(Shape::U32)),
        VariantShape::Tuple(vec![Shape::Bool, Shape::I8]),
        VariantShape::Struct(vec![Shape::Text, Shape::U16]),
    ])
}

#[test]
fn unit_variant_at_zero_and_nonzero() {
    let s = Shape::Enum(vec![VariantShape::Unit, VariantShape::Unit]);
    assert_eq!(rt(Value::UnitVariant(0), &s), Value::UnitVariant(0));
    assert_eq!(rt(Value::UnitVariant(1), &s), Value::UnitVariant(1));
}

#[test]
fn newtype_variant() {
    let zero = Shape::Enum(vec![VariantShape::Newtype(Box::new(Shape::U32))]);
    assert_eq!(
        rt(Value::NewtypeVariant(0, Box::new(Value::U32(5))), &zero),
        Value::NewtypeVariant(0, Box::new(Value::U32(5)))
    );
    let v = Value::NewtypeVariant(1, Box::new(Value::U32(0xABCD)));
    assert_eq!(
        rt(v, &enum_shape()),
        Value::NewtypeVariant(1, Box::new(Value::U32(0xABCD)))
    );
}

#[test]
fn tuple_variant() {
    let zero = Shape::Enum(vec![VariantShape::Tuple(vec![Shape::Bool, Shape::I8])]);
    let v0 = Value::TupleVariant(0, vec![Value::Bool(true), Value::I8(-3)]);
    assert_eq!(
        rt(v0, &zero),
        Value::TupleVariant(0, vec![Value::Bool(true), Value::I8(-3)])
    );
    let v = Value::TupleVariant(2, vec![Value::Bool(true), Value::I8(-3)]);
    assert_eq!(
        rt(v, &enum_shape()),
        Value::TupleVariant(2, vec![Value::Bool(true), Value::I8(-3)])
    );
}

#[test]
fn struct_variant() {
    let zero = Shape::Enum(vec![VariantShape::Struct(vec![Shape::Text, Shape::U16])]);
    let v0 = Value::StructVariant(0, vec![Value::Text(String::from("hi")), Value::U16(7)]);
    assert_eq!(
        rt(v0, &zero),
        Value::StructVariant(0, vec![Value::Text(String::from("hi")), Value::U16(7)])
    );
    let v = Value::StructVariant(3, vec![Value::Text(String::from("hi")), Value::U16(7)]);
    assert_eq!(
        rt(v, &enum_shape()),
        Value::StructVariant(3, vec![Value::Text(String::from("hi")), Value::U16(7)])
    );
}

#[test]
fn deeply_mixed_value() {
    let s = Shape::Sequence(Box::new(Shape::Record(vec![
        Shape::Optional(Box::new(Shape::Text)),
        Shape::Mapping(Box::new(Shape::U8), Box::new(Shape::Bool)),
    ])));
    let v = Value::Sequence(vec![
        Value::Record(vec![
            Value::Present(Box::new(Value::Text(String::from("x")))),
            Value::Mapping(vec![(Value::U8(1), Value::Bool(true))]),
        ]),
        Value::Record(vec![Value::Absent, Value::Mapping(vec![])]),
    ]);
    let expected = Value::Sequence(vec![
        Value::Record(vec![
            Value::Present(Box::new(Value::Text(String::from("x")))),
            Value::Mapping(vec![(Value::U8(1), Value::Bool(true))]),
        ]),
        Value::Record(vec![Value::Absent, Value::Mapping(vec![])]),
    ]);
    assert_eq!(rt(v, &s), expected);
}
