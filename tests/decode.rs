use ubjson::{from_slice, parse_length, parse_one, Container, Deserializer, MapCursor, Marker, SeqCursor, UbjsonError, UbjsonSerdeError};

fn s(text: &str) -> Container {
    Container::String(String::from(text))
}

fn ints(values: &[i8]) -> Container {
    Container::Array(values.iter().map(|v| Container::Int8(*v)).collect())
}

/// An object document standing in for a large real-world payload: nested
/// objects, arrays of strings and numbers of several widths.
fn complex_document() -> Vec<u8> {
    let mut d = vec![b'{'];
    d.extend_from_slice(&[b'i', 2]);
    d.extend_from_slice(b"id");
    d.extend_from_slice(&[b'l', 0, 1, 0, 0]);
    d.extend_from_slice(&[b'i', 4]);
    d.extend_from_slice(b"tags");
    d.extend_from_slice(&[b'[', b'S', b'i', 1, b'a', b'S', b'i', 1, b'b', b']']);
    d.extend_from_slice(&[b'i', 4]);
    d.extend_from_slice(b"user");
    d.extend_from_slice(&[b'{', b'#', b'U', 2, b'i', 1, b'n', b'S', b'i', 3]);
    d.extend_from_slice(b"bob");
    d.extend_from_slice(&[b'i', 1, b'v', b'T']);
    d.extend_from_slice(&[b'i', 5]);
    d.extend_from_slice(b"score");
    d.extend_from_slice(&[b'D', 0x40, 0x09, 0x21, 0xFB, 0x54, 0x44, 0x2D, 0x18]);
    d.push(b'}');
    d
}

#[test]
fn test_complex_couchdb() {
    let data = complex_document();
    let (_, _container) = parse_one(&data).unwrap();
}

#[test]
fn test_complex_media() {
    let data = complex_document();
    let (rest, container) = parse_one(&data).unwrap();
    assert!(rest.is_empty());
    match container {
        Container::Object(entries) => assert_eq!(entries.len(), 4),
        other => panic!("not an object: {:?}", other),
    }
}

#[test]
fn test_complex_twitter() {
    let data = complex_document();
    let (_, container) = parse_one(&data).unwrap();
    match container {
        Container::Object(entries) => {
            assert_eq!(entries[0], (String::from("id"), Container::Int32(65536)));
            assert_eq!(entries[3], (String::from("score"), Container::Float64(std::f64::consts::PI.to_bits())));
        }
        other => panic!("not an object: {:?}", other),
    }
}

#[test]
fn four_container_grammars_agree() {
    let plain = [b'[', b'i', 1, b'i', 2, b'i', 3, b']'];
    let counted = [b'[', b'#', b'i', 3, b'i', 1, b'i', 2, b'i', 3];
    let typed = [b'[', b'$', b'i', b'i', 1, b'i', 2, b'i', 3, b']'];
    let typed_counted = [b'[', b'$', b'i', b'#', b'i', 3, b'i', 1, b'i', 2, b'i', 3];
    for data in [&plain[..], &counted[..], &typed[..], &typed_counted[..]] {
        let (rest, c) = parse_one(data).unwrap();
        assert!(rest.is_empty());
        assert_eq!(c, ints(&[1, 2, 3]));
    }
}

#[test]
fn zero_count_reads_no_element_and_no_end() {
    let (rest, c) = parse_one(&[b'[', b'#', b'i', 0, b']']).unwrap();
    assert_eq!(c, Container::Array(vec![]));
    assert_eq!(rest, &[b']'][..]);
    let (rest, c) = parse_one(&[b'{', b'$', b'i', b'#', b'U', 0, b'Z']).unwrap();
    assert_eq!(c, Container::Object(vec![]));
    assert_eq!(rest, &[b'Z'][..]);
}

#[test]
fn duplicate_key_keeps_last_value() {
    let data = [b'{', b'i', 1, b'k', b'i', 4, b'i', 1, b'k', b'i', 9, b'}'];
    let (_, c) = parse_one(&data).unwrap();
    assert_eq!(c, Container::Object(vec![(String::from("k"), Container::Int8(9))]));
}

#[test]
fn short_int32_is_incomplete() {
    assert_eq!(parse_one(&[b'l', 0, 1]).unwrap_err(), UbjsonError::Incomplete);
    assert!(parse_one(&[b'l', 0, 1]).unwrap_err().is_incomplete());
}

#[test]
fn invalid_utf8_string_fails() {
    let data = [b'S', b'i', 5, 0xC3, 0x28, 0xA0, 0xA1, 0xFF];
    assert_eq!(parse_one(&data).unwrap_err(), UbjsonError::Utf8DecodeFailed);
}

#[test]
fn trailing_byte_fails_whole_buffer_decode() {
    assert_eq!(from_slice(&[b'i', 7]).unwrap(), Container::Int8(7));
    assert_eq!(from_slice(&[b'i', 7, b'Z']).unwrap_err(), UbjsonError::Serde(UbjsonSerdeError::TrailingData));
}

#[test]
fn nested_object_example() {
    let mut data = vec![b'{', b'i', 1, b'a', b'[', b'i', 1, b'i', 2, b']', b'i', 1, b'b', b'S', b'i', 1, b'x', b'}'];
    let (_, c) = parse_one(&data).unwrap();
    assert_eq!(c, Container::Object(vec![(String::from("a"), ints(&[1, 2])), (String::from("b"), s("x"))]));
    data.truncate(10);
    assert_eq!(parse_one(&data).unwrap_err(), UbjsonError::Incomplete);
}

#[test]
fn lengths_in_every_width() {
    let cases: [(u64, Vec<u8>); 9] = [
        (0, vec![b'U', 0]),
        (1, vec![b'i', 1]),
        (127, vec![b'i', 127]),
        (128, vec![b'U', 128]),
        (255, vec![b'I', 0, 255]),
        (256, vec![b'l', 0, 0, 1, 0]),
        (65535, vec![b'l', 0, 0, 255, 255]),
        (65536, vec![b'L', 0, 0, 0, 0, 0, 1, 0, 0]),
        (2147483647, vec![b'l', 0x7F, 0xFF, 0xFF, 0xFF]),
    ];
    for (n, data) in cases.iter() {
        let (rest, got) = parse_length(data).unwrap();
        assert!(rest.is_empty());
        assert_eq!(got as u64, *n);
    }
}

#[test]
fn length_conversion_failures() {
    assert_eq!(parse_length(&[b'i', 0xFF]).unwrap_err(), UbjsonError::LengthConversionFailed);
    assert_eq!(parse_length(&[b'Z']).unwrap_err(), UbjsonError::LengthConversionFailed);
    assert_eq!(parse_length(&[b'd', 0, 0, 0, 0]).unwrap_err(), UbjsonError::LengthConversionFailed);
    assert_eq!(parse_length(&[b'S', b'i', 1, b'3']).unwrap_err(), UbjsonError::LengthConversionFailed);
}

#[test]
fn scalars_are_big_endian() {
    assert_eq!(parse_one(&[b'I', 0xFF, 0xFE]).unwrap().1, Container::Int16(-2));
    assert_eq!(parse_one(&[b'l', 0x80, 0, 0, 0]).unwrap().1, Container::Int32(i32::MIN));
    assert_eq!(parse_one(&[b'L', 0, 0, 0, 0, 0, 0, 1, 2]).unwrap().1, Container::Int64(258));
    assert_eq!(parse_one(&[b'U', 200]).unwrap().1, Container::Uint8(200));
    assert_eq!(parse_one(&[b'i', 0x80]).unwrap().1, Container::Int8(-128));
    assert_eq!(parse_one(&[b'd', 0x3F, 0xC0, 0, 0]).unwrap().1, Container::Float32(1.5f32.to_bits()));
    assert_eq!(parse_one(&[b'C', 0xE9]).unwrap().1, Container::Char('é'));
    assert_eq!(parse_one(&[b'T']).unwrap().1, Container::Boolean(true));
    assert_eq!(parse_one(&[b'F']).unwrap().1, Container::Boolean(false));
    assert_eq!(parse_one(&[b'Z']).unwrap().1, Container::Null);
    assert_eq!(parse_one(&[b'H', b'i', 3, b'1', b'.', b'5']).unwrap().1, Container::HighPrecisionNumber(String::from("1.5")));
}

#[test]
fn noop_is_an_ordinary_element() {
    let (_, c) = parse_one(&[b'[', b'N', b'i', 1, b']']).unwrap();
    assert_eq!(c, Container::Array(vec![Container::Noop, Container::Int8(1)]));
}

#[test]
fn marker_errors() {
    assert_eq!(parse_one(&[b'x']).unwrap_err(), UbjsonError::UnrecognizedMarker(b'x'));
    assert_eq!(parse_one(&[]).unwrap_err(), UbjsonError::Incomplete);
    assert_eq!(parse_one(&[b']']).unwrap_err(), UbjsonError::ExtraneousMarker(Marker::ArrayEnd));
    assert_eq!(
        parse_one(&[b'[', b'$', b'i', b'#', b'i', 2, b'i', 1, b'U', 2]).unwrap_err(),
        UbjsonError::UnexpectedMarker { expected: Marker::Int8, actual: Marker::Uint8 }
    );
    assert_eq!(parse_one(&[b'[', b'i', 1]).unwrap_err(), UbjsonError::Incomplete);
}

#[test]
fn marker_bytes_round_trip() {
    for b in 0u8..=255 {
        if let Some(m) = Marker::from_byte(b) {
            assert_eq!(m.to_byte(), b);
        }
    }
    assert_eq!(Marker::from_byte(b'{'), Some(Marker::ObjectStart));
    assert_eq!(Marker::from_byte(b'a'), None);
}

#[test]
fn conversions() {
    assert_eq!(Container::Boolean(true).try_into_bool(), Ok(true));
    assert_eq!(Container::Int8(-3).try_into_i8(), Ok(-3));
    assert_eq!(Container::Int16(300).try_into_usize(), Ok(300));
    assert_eq!(Container::Int64(-1).try_into_usize(), Err(UbjsonError::LengthConversionFailed));
    match Container::Null.try_into_string() {
        Err(UbjsonError::ConversionFailed { expected, actual }) => {
            assert!(matches!(expected, Container::String(_)));
            assert_eq!(actual, Container::Null);
        }
        other => panic!("unexpected: {:?}", other),
    }
    assert!(matches!(s("x").try_into_bool(), Err(UbjsonError::ConversionFailed { .. })));
}

#[test]
fn deserializer_walks_values() {
    let data = [b'i', 1, b'T'];
    let mut de = Deserializer::from_slice(&data);
    assert_eq!(de.len(), 3);
    assert_eq!(de.next_value().unwrap(), Container::Int8(1));
    assert!(de.end().is_err());
    assert_eq!(de.next_value().unwrap(), Container::Boolean(true));
    assert_eq!(de.len(), 0);
    assert!(de.end().is_ok());
}

#[test]
fn cursors_hand_out_in_order() {
    let mut sc = SeqCursor::new(vec![Container::Int8(1), Container::Int8(2)]);
    assert_eq!(sc.next_element(), Some(Container::Int8(1)));
    assert_eq!(sc.next_element(), Some(Container::Int8(2)));
    assert_eq!(sc.next_element(), None);

    let mut mc = MapCursor::new(vec![(String::from("a"), Container::Null), (String::from("b"), Container::Noop)]);
    assert_eq!(mc.next_value(), Err(UbjsonError::Serde(UbjsonSerdeError::MissingValueInMap)));
    assert_eq!(mc.next_key(), Some(String::from("a")));
    assert_eq!(mc.next_value(), Ok(Container::Null));
    assert_eq!(mc.next_value(), Err(UbjsonError::Serde(UbjsonSerdeError::MissingValueInMap)));
    assert_eq!(mc.next_key(), Some(String::from("b")));
    assert_eq!(mc.next_value(), Ok(Container::Noop));
    assert_eq!(mc.next_key(), None);
}

#[test]
fn constants() {
    assert_eq!(ubjson::MIME_TYPE, "application/ubjson");
    assert_eq!(ubjson::FILE_EXT, "ubj");
}
