use packed::{from_bytes, to_bytes, Deserializer, Shape, Value, Walk};

#[test]
fn u32_is_big_endian_on_the_wire() {
    let bytes = to_bytes(&Value::U32(0x01020304)).unwrap();
    assert_eq!(bytes, vec![0x01, 0x02, 0x03, 0x04]);
}

#[test]
fn char_latin_small_e_acute_wire_form() {
    let bytes = to_bytes(&Value::Char('\u{e9}')).unwrap();
    assert_eq!(bytes, vec![0x02, 0xC3, 0xA9]);
}

#[test]
fn boolean_markers() {
    assert_eq!(to_bytes(&Value::Bool(true)).unwrap(), vec![0xf5]);
    assert_eq!(to_bytes(&Value::Bool(false)).unwrap(), vec![0xf4]);
}

#[test]
fn optional_markers() {
    assert_eq!(to_bytes(&Value::Absent).unwrap(), vec![0xf6]);
    assert_eq!(
        to_bytes(&Value::Present(Box::new(Value::U8(9)))).unwrap(),
        vec![0xf7, 0x09]
    );
}

#[test]
fn string_has_four_byte_length_prefix() {
    let bytes = to_bytes(&Value::Text(String::from("hi"))).unwrap();
    assert_eq!(bytes, vec![0x00, 0x00, 0x00, 0x02, b'h', b'i']);
}

#[test]
fn fixed_arity_composites_have_no_count_prefix() {
    let tup = to_bytes(&Value::Tuple(vec![Value::U8(1), Value::U8(2)])).unwrap();
    assert_eq!(tup, vec![0x01, 0x02]);
    let rec = to_bytes(&Value::Record(vec![Value::U8(3), Value::U8(4)])).unwrap();
    assert_eq!(rec, vec![0x03, 0x04]);
}

#[test]
fn variant_index_is_four_bytes_big_endian() {
    let bytes = to_bytes(&Value::UnitVariant(0x0102)).unwrap();
    assert_eq!(bytes, vec![0x00, 0x00, 0x01, 0x02]);
}

#[test]
fn sequence_length_prefix_holds_element_count() {
    let v = Value::Sequence(vec![Value::U32(10), Value::U32(20), Value::U32(30)]);
    let bytes = to_bytes(&v).unwrap();
    assert_eq!(&bytes[0..4], &[0x00, 0x00, 0x00, 0x03]);
    assert_eq!(bytes.len(), 4 + 3 * 4);
}

#[test]
fn decode_is_count_driven_not_self_terminating() {
    // Encode three elements, but drive the decode with a lower bound of two:
    // the walk stops after two and leaves the third element's bytes unread.
    let v = Value::Sequence(vec![Value::U32(10), Value::U32(20), Value::U32(30)]);
    let bytes = to_bytes(&v).unwrap();
    let total = bytes.len();
    let mut de = Deserializer::new(bytes);
    let declared = de.deserialize_u32().unwrap();
    assert_eq!(declared, 3);
    let mut walk = Walk::new(2);
    let first = walk.next_element(&mut de, &Shape::U32).unwrap();
    assert_eq!(first, Some(Value::U32(10)));
    let second = walk.next_element(&mut de, &Shape::U32).unwrap();
    assert_eq!(second, Some(Value::U32(20)));
    let done = walk.next_element(&mut de, &Shape::U32).unwrap();
    assert_eq!(done, None);
    assert_eq!(walk.size_hint(), Some(0));
    // One element's worth of bytes is still unconsumed.
    assert_eq!(total - de.position(), 4);
    let third = de.deserialize_u32().unwrap();
    assert_eq!(third, 30);
}

#[test]
fn trailing_bytes_are_ignored_by_from_bytes() {
    let mut bytes = to_bytes(&Value::U16(0x0102)).unwrap();
    bytes.extend_from_slice(&[0xAA, 0xBB]);
    assert_eq!(from_bytes(&bytes, &Shape::U16).unwrap(), Value::U16(0x0102));
}

#[test]
fn integers_of_each_width_wire_sizes() {
    assert_eq!(to_bytes(&Value::I8(-1)).unwrap(), vec![0xFF]);
    assert_eq!(to_bytes(&Value::I16(-2)).unwrap(), vec![0xFF, 0xFE]);
    assert_eq!(
        to_bytes(&Value::I32(-2)).unwrap(),
        vec![0xFF, 0xFF, 0xFF, 0xFE]
    );
    assert_eq!(
        to_bytes(&Value::I64(-2)).unwrap(),
        vec![0xFF, 0xFF, 0xFF, 0xFF, 0xFF, 0xFF, 0xFF, 0xFE]
    );
    let f = 1.5f32;
    assert_eq!(
        to_bytes(&Value::F32Bits(f.to_bits())).unwrap(),
        f.to_be_bytes().to_vec()
    );
    let d = -0.0f64;
    assert_eq!(
        to_bytes(&Value::F64Bits(d.to_bits())).unwrap(),
        d.to_be_bytes().to_vec()
    );
}

#[test]
fn map_wire_form_keys_before_values() {
    let v = Value::Mapping(vec![(Value::U8(1), Value::U8(2)), (Value::U8(3), Value::U8(4))]);
    let bytes = to_bytes(&v).unwrap();
    assert_eq!(bytes, vec![0x00, 0x00, 0x00, 0x02, 0x01, 0x02, 0x03, 0x04]);
}
