//! The UBJSON grammar as spec functions over the input bytes `s` and a
//! position `pos`. Each function returns what is decoded there and the
//! position just after it, or the failure that stops the decode.
use crate::container::Value;
use crate::error::UbjsonError;
use crate::marker::{marker_at, Marker};
use vstd::prelude::*;
use vstd::utf8::{decode_utf8, valid_utf8};

verus! {

/// The byte that introduces a container's declared element type (`$`).
pub const TYPE_PREFIX: u8 = 0x24;

/// The byte that introduces a container's declared element count (`#`).
pub const COUNT_PREFIX: u8 = 0x23;

/// The unsigned integer that the bytes `b` spell, most significant first.
pub open spec fn be_uint(b: Seq<u8>) -> nat
    decreases b.len(),
{
    if b.len() == 0 {
        0
    } else {
        be_uint(b.drop_last()) * 256 + b.last() as nat
    }
}

/// The number of payload bytes after a marker of fixed width.
pub open spec fn payload_width(m: Marker) -> int {
    match m {
        Marker::Int8 | Marker::Uint8 | Marker::Char => 1,
        Marker::Int16 => 2,
        Marker::Int32 | Marker::Float32 => 4,
        Marker::Int64 | Marker::Float64 => 8,
        _ => 0,
    }
}

/// Whether a marker's payload has a fixed width (zero included).
pub open spec fn is_fixed_width(m: Marker) -> bool {
    match m {
        Marker::HighPrecisionNumber | Marker::String | Marker::ArrayStart | Marker::ArrayEnd
        | Marker::ObjectStart | Marker::ObjectEnd => false,
        _ => true,
    }
}

/// The value of a fixed-width marker whose payload bytes are `b`:
/// big-endian, two's complement for the signed kinds, and a raw byte as
/// the code point of a `Char`.
pub open spec fn scalar_value(m: Marker, b: Seq<u8>) -> Value {
    match m {
        Marker::Null => Value::Null,
        Marker::Noop => Value::Noop,
        Marker::True => Value::Boolean(true),
        Marker::False => Value::Boolean(false),
        Marker::Int8 => Value::Int8(b[0] as i8),
        Marker::Uint8 => Value::Uint8(b[0]),
        Marker::Int16 => Value::Int16((be_uint(b) as u16) as i16),
        Marker::Int32 => Value::Int32((be_uint(b) as u32) as i32),
        Marker::Int64 => Value::Int64((be_uint(b) as u64) as i64),
        Marker::Float32 => Value::Float32(be_uint(b) as u32),
        Marker::Float64 => Value::Float64(be_uint(b) as u64),
        _ => Value::Char(b[0] as char),
    }
}

/// The size that a value stands for: a `Uint8`, or a signed integer that is
/// not negative and fits in `usize`. Every other value is no size.
pub open spec fn length_of(v: Value) -> Option<nat> {
    match v {
        Value::Uint8(n) => Some(n as nat),
        Value::Int8(n) => if n >= 0 { Some(n as nat) } else { None },
        Value::Int16(n) => if n >= 0 { Some(n as nat) } else { None },
        Value::Int32(n) => if n >= 0 { Some(n as nat) } else { None },
        Value::Int64(n) => if n >= 0 && n <= usize::MAX { Some(n as nat) } else { None },
        _ => None,
    }
}

/// Whether a decode step that started at `p` and ended at `q` consumed
/// input and stayed inside it.
pub open spec fn advances(p: int, q: int, len: int) -> bool {
    p < q <= len
}

/// One complete value at `pos`: its marker, then its payload.
pub open spec fn decode_value(s: Seq<u8>, pos: int) -> Result<(Value, int), UbjsonError>
    decreases s.len() - pos, 0int,
{
    match marker_at(s, pos) {
        Err(e) => Err(e),
        Ok(m) => decode_payload(s, m, pos + 1),
    }
}

/// The payload of a value whose marker `m` has been read, starting at `pos`.
pub open spec fn decode_payload(s: Seq<u8>, m: Marker, pos: int) -> Result<(Value, int), UbjsonError>
    decreases s.len() - pos, 6int,
{
    if pos < 0 || pos > s.len() {
        Err(UbjsonError::Incomplete)
    } else if is_fixed_width(m) {
        if pos + payload_width(m) > s.len() {
            Err(UbjsonError::Incomplete)
        } else {
            Ok((scalar_value(m, s.subrange(pos, pos + payload_width(m))), pos + payload_width(m)))
        }
    } else {
        match m {
            Marker::HighPrecisionNumber => match decode_text(s, pos) {
                Ok((t, q)) => Ok((Value::HighPrecisionNumber(t), q)),
                Err(e) => Err(e),
            },
            Marker::String => match decode_text(s, pos) {
                Ok((t, q)) => Ok((Value::String(t), q)),
                Err(e) => Err(e),
            },
            Marker::ArrayStart => decode_container(s, pos, false),
            Marker::ObjectStart => decode_container(s, pos, true),
            _ => Err(UbjsonError::ExtraneousMarker(m)),
        }
    }
}

/// A size at `pos`: one complete value, converted by `length_of`.
pub open spec fn decode_length(s: Seq<u8>, pos: int) -> Result<(nat, int), UbjsonError>
    decreases s.len() - pos, 1int,
{
    match decode_value(s, pos) {
        Err(e) => Err(e),
        Ok((v, q)) => match length_of(v) {
            Some(n) => Ok((n, q)),
            None => Err(UbjsonError::LengthConversionFailed),
        },
    }
}

/// A string at `pos`: a size `n`, then `n` bytes of UTF-8.
pub open spec fn decode_text(s: Seq<u8>, pos: int) -> Result<(Seq<char>, int), UbjsonError>
    decreases s.len() - pos, 2int,
{
    match decode_length(s, pos) {
        Err(e) => Err(e),
        Ok((n, q)) => if q + n > s.len() {
            Err(UbjsonError::Incomplete)
        } else if valid_utf8(s.subrange(q, q + n)) {
            Ok((decode_utf8(s.subrange(q, q + n)), q + n))
        } else {
            Err(UbjsonError::Utf8DecodeFailed)
        },
    }
}

/// One element at `pos`: a complete value, or, where the container declared
/// the element type `ty`, a marker that must be `ty` and its payload.
pub open spec fn decode_element(s: Seq<u8>, pos: int, ty: Option<Marker>) -> Result<(Value, int), UbjsonError>
    decreases s.len() - pos, 1int,
{
    match ty {
        None => decode_value(s, pos),
        Some(t) => match marker_at(s, pos) {
            Err(e) => Err(e),
            Ok(m) => if m != t {
                Err(UbjsonError::UnexpectedMarker { expected: t, actual: m })
            } else {
                decode_payload(s, m, pos + 1)
            },
        },
    }
}

/// One entry at `pos`: in an object a key, then an element; in an array an
/// element alone, with the empty key.
pub open spec fn decode_entry(s: Seq<u8>, pos: int, ty: Option<Marker>, object: bool) -> Result<((Seq<char>, Value), int), UbjsonError>
    decreases s.len() - pos, 3int,
{
    if object {
        match decode_text(s, pos) {
            Err(e) => Err(e),
            Ok((k, q)) => if !advances(pos, q, s.len() as int) {
                Err(UbjsonError::Incomplete)
            } else {
                match decode_element(s, q, ty) {
                    Err(e) => Err(e),
                    Ok((v, r)) => Ok(((k, v), r)),
                }
            },
        }
    } else {
        match decode_element(s, pos, ty) {
            Err(e) => Err(e),
            Ok((v, q)) => Ok(((Seq::empty(), v), q)),
        }
    }
}

/// The end marker's byte of an object or an array.
pub open spec fn end_byte(object: bool) -> u8 {
    if object { Marker::ObjectEnd.spec_byte() } else { Marker::ArrayEnd.spec_byte() }
}

/// The entries of a container body from `pos`: `count` of them where a count
/// was declared, else entries up to the end marker, which is consumed.
pub open spec fn decode_entries(s: Seq<u8>, pos: int, count: Option<nat>, ty: Option<Marker>, object: bool) -> Result<(Seq<(Seq<char>, Value)>, int), UbjsonError>
    decreases s.len() - pos, 4int,
{
    if pos < 0 || pos > s.len() {
        Err(UbjsonError::Incomplete)
    } else if count == Some(0nat) {
        Ok((Seq::empty(), pos))
    } else if count is None && pos == s.len() {
        Err(UbjsonError::Incomplete)
    } else if count is None && s[pos] == end_byte(object) {
        Ok((Seq::empty(), pos + 1))
    } else {
        match decode_entry(s, pos, ty, object) {
            Err(e) => Err(e),
            Ok((e, q)) => if !advances(pos, q, s.len() as int) {
                Err(UbjsonError::Incomplete)
            } else {
                let rest_count = match count {
                    Some(n) => Some((n - 1) as nat),
                    None => None,
                };
                match decode_entries(s, q, rest_count, ty, object) {
                    Err(e) => Err(e),
                    Ok((rest, r)) => Ok((seq![e] + rest, r)),
                }
            },
        }
    }
}

/// The optional declared element type at `pos`.
pub open spec fn decode_type_prefix(s: Seq<u8>, pos: int) -> Result<(Option<Marker>, int), UbjsonError> {
    if pos < 0 || pos >= s.len() {
        Err(UbjsonError::Incomplete)
    } else if s[pos] == TYPE_PREFIX {
        match marker_at(s, pos + 1) {
            Ok(m) => Ok((Some(m), pos + 2)),
            Err(e) => Err(e),
        }
    } else {
        Ok((None, pos))
    }
}

/// The optional declared element count at `pos`.
pub open spec fn decode_count_prefix(s: Seq<u8>, pos: int) -> Result<(Option<nat>, int), UbjsonError>
    decreases s.len() - pos, 2int,
{
    if pos < 0 || pos >= s.len() {
        Err(UbjsonError::Incomplete)
    } else if s[pos] == COUNT_PREFIX {
        match decode_length(s, pos + 1) {
            Ok((n, q)) => Ok((Some(n), q)),
            Err(e) => Err(e),
        }
    } else {
        Ok((None, pos))
    }
}

/// The index of the last entry of `m` with key `k`, or -1 if there is none.
pub open spec fn key_index(m: Seq<(Seq<char>, Value)>, k: Seq<char>) -> int
    decreases m.len(),
{
    if m.len() == 0 {
        -1
    } else if m.last().0 == k {
        m.len() - 1
    } else {
        key_index(m.drop_last(), k)
    }
}

/// `m` with the entry `(k, v)` added: it replaces the value of an entry with
/// key `k` where there is one, else it comes last.
pub open spec fn insert_entry(m: Seq<(Seq<char>, Value)>, k: Seq<char>, v: Value) -> Seq<(Seq<char>, Value)> {
    let i = key_index(m, k);
    if i >= 0 {
        m.update(i, (k, v))
    } else {
        m.push((k, v))
    }
}

/// The mapping that a sequence of entries builds, a later entry overwriting
/// an earlier one with the same key.
pub open spec fn collect_entries(entries: Seq<(Seq<char>, Value)>) -> Seq<(Seq<char>, Value)>
    decreases entries.len(),
{
    if entries.len() == 0 {
        Seq::empty()
    } else {
        insert_entry(collect_entries(entries.drop_last()), entries.last().0, entries.last().1)
    }
}

/// The value of a container whose entries were decoded in order.
pub open spec fn assemble(entries: Seq<(Seq<char>, Value)>, object: bool) -> Value {
    if object {
        Value::Object(collect_entries(entries))
    } else {
        Value::Array(entries.map_values(|e: (Seq<char>, Value)| e.1))
    }
}

/// A container body at `pos`, just after its start marker: the optional
/// type prefix, the optional count prefix, then the entries.
pub open spec fn decode_container(s: Seq<u8>, pos: int, object: bool) -> Result<(Value, int), UbjsonError>
    decreases s.len() - pos, 5int,
{
    match decode_type_prefix(s, pos) {
        Err(e) => Err(e),
        Ok((ty, after_type)) => if !(pos <= after_type <= s.len()) {
            Err(UbjsonError::Incomplete)
        } else {
            match decode_count_prefix(s, after_type) {
                Err(e) => Err(e),
                Ok((count, after_count)) => if !(pos <= after_count <= s.len()) {
                    Err(UbjsonError::Incomplete)
                } else {
                    match decode_entries(s, after_count, count, ty, object) {
                        Err(e) => Err(e),
                        Ok((entries, q)) => Ok((assemble(entries, object), q)),
                    }
                },
            }
        },
    }
}

} // verus!
