use packed::{from_bytes, Deserializer, Error, Serializer, Shape, Value, VariantShape};

#[test]
fn bool_rejects_any_other_first_byte() {
    for b in [0x00u8, 0x01, 0x7f, 0xf3, 0xf6, 0xf7, 0xff] {
        let r = from_bytes(&vec![b], &Shape::Bool);
        assert_eq!(r, Err(Error::InvalidBool));
    }
}

#[test]
fn option_rejects_any_other_first_byte() {
    let s = Shape::Optional(Box::new(Shape::U8));
    for b in [0x00u8, 0x01, 0xf4, 0xf5, 0xff] {
        let r = from_bytes(&vec![b], &s);
        assert_eq!(r, Err(Error::InvalidOption));
    }
}

#[test]
fn unknown_length_sequence_is_refused() {
    let mut serializer = Serializer::new();
    assert_eq!(serializer.serialize_seq(None), Err(Error::LengthUnknown));
    assert_eq!(serializer.serialize_map(None), Err(Error::LengthUnknown));
    // A known length is accepted and writes the 4-byte count.
    assert_eq!(serializer.serialize_seq(Some(2)), Ok(()));
    assert_eq!(serializer.into_inner(), vec![0x00, 0x00, 0x00, 0x02]);
}

#[test]
fn self_describing_decode_is_not_implemented() {
    for input in [vec![], vec![0xf5], vec![0x01, 0x02, 0x03, 0x04]] {
        let mut de = Deserializer::new(input);
        assert_eq!(de.deserialize_any(), Err(Error::NotImplemented));
        assert_eq!(de.deserialize_identifier(), Err(Error::NotImplemented));
        assert_eq!(de.deserialize_ignored_any(), Err(Error::NotImplemented));
    }
}

#[test]
fn short_reads_fail() {
    assert_eq!(from_bytes(&vec![], &Shape::Bool), Err(Error::ReadFailed));
    assert_eq!(from_bytes(&vec![0x01], &Shape::U32), Err(Error::ReadFailed));
    assert_eq!(
        from_bytes(&vec![0x00, 0x00, 0x00, 0x05, b'h', b'i'], &Shape::Text),
        Err(Error::ReadFailed)
    );
    // A sequence that declares more elements than the stream holds.
    let s = Shape::Sequence(Box::new(Shape::U8));
    assert_eq!(
        from_bytes(&vec![0x00, 0x00, 0x00, 0x03, 0x01], &s),
        Err(Error::ReadFailed)
    );
}

#[test]
fn invalid_utf8_is_rejected() {
    let r = from_bytes(&vec![0x00, 0x00, 0x00, 0x02, 0xC3, 0x28], &Shape::Text);
    assert_eq!(r, Err(Error::InvalidUtf8));
    let r = from_bytes(&vec![0x01, 0xFF], &Shape::Char);
    assert_eq!(r, Err(Error::InvalidUtf8));
}

#[test]
fn empty_char_payload_is_rejected() {
    assert_eq!(from_bytes(&vec![0x00], &Shape::Char), Err(Error::EmptyChar));
}

#[test]
fn out_of_range_variant_index_is_rejected() {
    let s = Shape::Enum(vec![VariantShape::Unit, VariantShape::Unit]);
    let r = from_bytes(&vec![0x00, 0x00, 0x00, 0x02], &s);
    assert_eq!(r, Err(Error::InvalidVariant));
}

#[test]
fn custom_messages_carry_their_text() {
    let e = Error::custom(String::from("boom"));
    assert_eq!(e, Error::Message(String::from("boom")));
    assert_eq!(e.message(), "boom");
}

#[test]
fn error_messages_match_their_variants() {
    assert_eq!(Error::LengthOverflow.message(), "length is too large");
    assert_eq!(Error::LengthUnknown.message(), "length is unknown");
    assert_eq!(Error::ReadFailed.message(), "failed to read");
    assert_eq!(Error::InvalidBool.message(), "invalid boolean value");
    assert_eq!(Error::InvalidOption.message(), "invalid option value");
    assert_eq!(Error::InvalidVariant.message(), "invalid variant index");
    assert_eq!(Error::InvalidUtf8.message(), "invalid utf-8");
    assert_eq!(Error::EmptyChar.message(), "empty string");
    assert_eq!(Error::NotImplemented.message(), "not implemented");
}

#[test]
fn a_failed_decode_reports_the_first_failure() {
    // The second field of the record is the broken one.
    let s = Shape::Record(vec![Shape::U8, Shape::Bool]);
    let r = from_bytes(&vec![0x07, 0x00], &s);
    assert_eq!(r, Err(Error::InvalidBool));
}
