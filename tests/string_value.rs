use ubjson::{Marker, StringValue};

const LOREM: &str = "There are many variations of passages of Lorem Ipsum available, but the majority have suffered alteration in some form, by injected humour, or randomised words which don't look even slightly believable. If you are going to use a passage of Lorem Ipsum, you need to be sure there isn't anything embarrassing hidden in the middle of text. All the Lorem Ipsum generators on the Internet tend to repeat predefined chunks as necessary, making this the first true generator on the Internet. It uses a dictionary of over 200 Latin words, combined with a handful of model sentence structures, to generate Lorem Ipsum which looks reasonable. The generated Lorem Ipsum is therefore always free from repetition, injected humour, or non-characteristic words etc.";

/// An array holding one string, its length written as an int8 or an int16.
fn array_of_string(text: &str) -> Vec<u8> {
    let bytes = text.as_bytes();
    let mut out = vec![b'[', b'S'];
    if bytes.len() < 128 {
        out.push(b'i');
        out.push(bytes.len() as u8);
    } else {
        out.push(b'I');
        out.extend_from_slice(&(bytes.len() as u16).to_be_bytes());
    }
    out.extend_from_slice(bytes);
    out.push(b']');
    out
}

#[test]
fn parse_small() {
    let data = array_of_string("привет");
    let (i, arr_marker) = Marker::parse(&data).unwrap();
    assert_eq!(arr_marker, Marker::ArrayStart);
    let (i, marker) = Marker::parse(i).unwrap();
    assert_eq!(marker, Marker::String);
    let (i, container) = marker.parse_to_container(i).unwrap();
    let hello: String = container.try_into_string().unwrap();
    assert_eq!(hello, String::from("привет"));
    let (_, arr_marker) = Marker::parse(i).unwrap();
    assert_eq!(arr_marker, Marker::ArrayEnd);
}

#[test]
fn parse_big() {
    let data = array_of_string(LOREM);
    let (i, arr_marker) = Marker::parse(&data).unwrap();
    assert_eq!(arr_marker, Marker::ArrayStart);
    let (i, marker) = Marker::parse(i).unwrap();
    assert_eq!(marker, Marker::String);
    let (i, container) = marker.parse_to_container(i).unwrap();
    let hello: String = container.try_into_string().unwrap();
    assert_eq!(hello, String::from(LOREM));
    let (_, arr_marker) = Marker::parse(i).unwrap();
    assert_eq!(arr_marker, Marker::ArrayEnd);
}

#[test]
fn string_value_parse_returns_rest() {
    let data = [b'i', 2, b'h', b'i', b'Z'];
    let (rest, s) = StringValue::parse(&data).unwrap();
    assert_eq!(rest, &[b'Z'][..]);
    assert_eq!(s.as_str(), "hi");
    assert_eq!(s.unwrap(), String::from("hi"));
}

#[test]
fn string_value_invalid_utf8() {
    let data = [b'U', 5, 0xFF, 0xFE, 0xFD, 0xFC, 0xFB];
    assert_eq!(StringValue::parse(&data).unwrap_err(), ubjson::UbjsonError::Utf8DecodeFailed);
}
