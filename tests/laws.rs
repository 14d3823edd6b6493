use ubjson::{parse_length, parse_one, Container};

fn encode_text(out: &mut Vec<u8>, t: &str) {
    out.push(b'L');
    out.extend_from_slice(&(t.len() as i64).to_be_bytes());
    out.extend_from_slice(t.as_bytes());
}

/// The canonical encoding: unbounded untyped containers, sizes as int64.
fn encode(v: &Container, out: &mut Vec<u8>) {
    match v {
        Container::Null => out.push(b'Z'),
        Container::Noop => out.push(b'N'),
        Container::Boolean(b) => out.push(if *b { b'T' } else { b'F' }),
        Container::Int8(n) => out.extend_from_slice(&[b'i', *n as u8]),
        Container::Uint8(n) => out.extend_from_slice(&[b'U', *n]),
        Container::Int16(n) => {
            out.push(b'I');
            out.extend_from_slice(&n.to_be_bytes());
        }
        Container::Int32(n) => {
            out.push(b'l');
            out.extend_from_slice(&n.to_be_bytes());
        }
        Container::Int64(n) => {
            out.push(b'L');
            out.extend_from_slice(&n.to_be_bytes());
        }
        Container::Float32(bits) => {
            out.push(b'd');
            out.extend_from_slice(&bits.to_be_bytes());
        }
        Container::Float64(bits) => {
            out.push(b'D');
            out.extend_from_slice(&bits.to_be_bytes());
        }
        Container::HighPrecisionNumber(t) => {
            out.push(b'H');
            encode_text(out, t);
        }
        Container::Char(c) => out.extend_from_slice(&[b'C', *c as u32 as u8]),
        Container::String(t) => {
            out.push(b'S');
            encode_text(out, t);
        }
        Container::Array(items) => {
            out.push(b'[');
            for item in items {
                encode(item, out);
            }
            out.push(b']');
        }
        Container::Object(entries) => {
            out.push(b'{');
            for (k, item) in entries {
                encode_text(out, k);
                encode(item, out);
            }
            out.push(b'}');
        }
    }
}

fn sample_values() -> Vec<Container> {
    vec![
        Container::Null,
        Container::Noop,
        Container::Boolean(false),
        Container::Int8(-100),
        Container::Uint8(250),
        Container::Int16(-30000),
        Container::Int32(2_000_000_000),
        Container::Int64(i64::MIN),
        Container::Float32(f32::NAN.to_bits() | 1),
        Container::Float64((-0.0f64).to_bits()),
        Container::HighPrecisionNumber(String::from("3.14159265358979323846264338327950288")),
        Container::Char('z'),
        Container::String(String::from("héllo wörld")),
        Container::Array(vec![]),
        Container::Object(vec![
            (String::from("list"), Container::Array(vec![Container::Int8(1), Container::Null])),
            (String::from(""), Container::Object(vec![(String::from("x"), Container::Boolean(true))])),
        ]),
    ]
}

#[test]
fn decode_of_encode_gives_value_back() {
    for v in sample_values() {
        let mut bytes = Vec::new();
        encode(&v, &mut bytes);
        let n = bytes.len();
        bytes.extend_from_slice(&[b'Z', b'N']);
        let (rest, got) = parse_one(&bytes).unwrap();
        assert_eq!(got, v);
        assert_eq!(rest, &bytes[n..]);
    }
}

#[test]
fn length_in_any_width_that_holds_it() {
    for n in [0u64, 1, 127, 128, 255, 256, 65535, 65536, 2147483647] {
        let mut encodings: Vec<Vec<u8>> = Vec::new();
        if n < 0x80 {
            encodings.push(vec![b'i', n as u8]);
        }
        if n < 0x100 {
            encodings.push(vec![b'U', n as u8]);
        }
        if n < 0x8000 {
            let mut e = vec![b'I'];
            e.extend_from_slice(&(n as i16).to_be_bytes());
            encodings.push(e);
        }
        let mut e = vec![b'l'];
        e.extend_from_slice(&(n as i32).to_be_bytes());
        encodings.push(e);
        let mut e = vec![b'L'];
        e.extend_from_slice(&(n as i64).to_be_bytes());
        encodings.push(e);
        for mut e in encodings {
            e.push(b'T');
            let (rest, got) = parse_length(&e).unwrap();
            assert_eq!(got as u64, n);
            assert_eq!(rest, &[b'T'][..]);
        }
    }
}

#[test]
fn typed_object_checks_each_value_marker() {
    let data = [b'{', b'$', b'i', b'#', b'i', 2, b'i', 1, b'a', b'i', 5, b'i', 1, b'b', b'i', 6];
    let (_, c) = parse_one(&data).unwrap();
    assert_eq!(
        c,
        Container::Object(vec![(String::from("a"), Container::Int8(5)), (String::from("b"), Container::Int8(6))])
    );
    let typed_unbounded = [b'{', b'$', b'i', b'i', 1, b'a', b'i', 5, b'}'];
    let (rest, c) = parse_one(&typed_unbounded).unwrap();
    assert!(rest.is_empty());
    assert_eq!(c, Container::Object(vec![(String::from("a"), Container::Int8(5))]));
}
