use crate::container::Container;
use crate::decode::decode_payload_at;
use crate::error::UbjsonError;
use crate::grammar::decode_payload;
use vstd::prelude::*;

verus! {

/// The one-byte tag that opens every UBJSON value.
#[derive(Debug, Clone, Copy, PartialEq, Eq, Structural)]
pub enum Marker {
    Null,
    Noop,
    True,
    False,
    Int8,
    Uint8,
    Int16,
    Int32,
    Int64,
    Float32,
    Float64,
    HighPrecisionNumber,
    Char,
    String,
    ArrayStart,
    ArrayEnd,
    ObjectStart,
    ObjectEnd,
}

/// The marker that a tag byte stands for, if any.
pub open spec fn marker_of_byte(b: u8) -> Option<Marker> {
    if b == 0x5A { Some(Marker::Null) }
    else if b == 0x4E { Some(Marker::Noop) }
    else if b == 0x54 { Some(Marker::True) }
    else if b == 0x46 { Some(Marker::False) }
    else if b == 0x69 { Some(Marker::Int8) }
    else if b == 0x55 { Some(Marker::Uint8) }
    else if b == 0x49 { Some(Marker::Int16) }
    else if b == 0x6C { Some(Marker::Int32) }
    else if b == 0x4C { Some(Marker::Int64) }
    else if b == 0x64 { Some(Marker::Float32) }
    else if b == 0x44 { Some(Marker::Float64) }
    else if b == 0x48 { Some(Marker::HighPrecisionNumber) }
    else if b == 0x43 { Some(Marker::Char) }
    else if b == 0x53 { Some(Marker::String) }
    else if b == 0x5B { Some(Marker::ArrayStart) }
    else if b == 0x5D { Some(Marker::ArrayEnd) }
    else if b == 0x7B { Some(Marker::ObjectStart) }
    else if b == 0x7D { Some(Marker::ObjectEnd) }
    else { None }
}

impl Marker {
    /// Decodes the marker at the front of `i`. Returns the rest of the input
    /// and the marker; fails `Incomplete` on empty input and
    /// `UnrecognizedMarker` on a byte that is no tag.
    pub fn parse(i: &[u8]) -> (r: Result<(&[u8], Marker), UbjsonError>)
        ensures
            match marker_at(i@, 0) {
                Ok(m) => r is Ok && r->Ok_0.0@ == i@.subrange(1, i@.len() as int) && r->Ok_0.1 == m,
                Err(e) => r == Err::<(&[u8], Marker), UbjsonError>(e),
            },
    {
        match read_marker(i, 0) {
            Ok(m) => Ok((&i[1..i.len()], m)),
            Err(e) => Err(e),
        }
    }

    /// Decodes the payload of a value whose marker is `self` from the front
    /// of `i`. Returns the rest of the input and the value. An end marker
    /// fails `ExtraneousMarker`.
    pub fn parse_to_container(self, i: &[u8]) -> (r: Result<(&[u8], Container), UbjsonError>)
        ensures
            match decode_payload(i@, self, 0) {
                Ok((v, q)) => r is Ok && r->Ok_0.0@ == i@.subrange(q, i@.len() as int) && r->Ok_0.1@ == v,
                Err(e) => r == Err::<(&[u8], Container), UbjsonError>(e),
            },
    {
        match decode_payload_at(i, self, 0) {
            Ok((c, q)) => Ok((&i[q..i.len()], c)),
            Err(e) => Err(e),
        }
    }

    /// The tag byte of this marker on the wire.
    pub open spec fn spec_byte(self) -> u8 {
        match self {
            Marker::Null => 0x5A,
            Marker::Noop => 0x4E,
            Marker::True => 0x54,
            Marker::False => 0x46,
            Marker::Int8 => 0x69,
            Marker::Uint8 => 0x55,
            Marker::Int16 => 0x49,
            Marker::Int32 => 0x6C,
            Marker::Int64 => 0x4C,
            Marker::Float32 => 0x64,
            Marker::Float64 => 0x44,
            Marker::HighPrecisionNumber => 0x48,
            Marker::Char => 0x43,
            Marker::String => 0x53,
            Marker::ArrayStart => 0x5B,
            Marker::ArrayEnd => 0x5D,
            Marker::ObjectStart => 0x7B,
            Marker::ObjectEnd => 0x7D,
        }
    }

    /// The tag byte of this marker on the wire.
    #[verifier::when_used_as_spec(spec_byte)]
    pub fn to_byte(self) -> (r: u8)
        ensures
            r == self.spec_byte(),
    {
        match self {
            Marker::Null => 0x5A,
            Marker::Noop => 0x4E,
            Marker::True => 0x54,
            Marker::False => 0x46,
            Marker::Int8 => 0x69,
            Marker::Uint8 => 0x55,
            Marker::Int16 => 0x49,
            Marker::Int32 => 0x6C,
            Marker::Int64 => 0x4C,
            Marker::Float32 => 0x64,
            Marker::Float64 => 0x44,
            Marker::HighPrecisionNumber => 0x48,
            Marker::Char => 0x43,
            Marker::String => 0x53,
            Marker::ArrayStart => 0x5B,
            Marker::ArrayEnd => 0x5D,
            Marker::ObjectStart => 0x7B,
            Marker::ObjectEnd => 0x7D,
        }
    }

    /// The marker that a tag byte stands for; `None` for a byte that is no tag.
    pub fn from_byte(b: u8) -> (r: Option<Marker>)
        ensures
            r == marker_of_byte(b),
    {
        if b == 0x5A { Some(Marker::Null) }
        else if b == 0x4E { Some(Marker::Noop) }
        else if b == 0x54 { Some(Marker::True) }
        else if b == 0x46 { Some(Marker::False) }
        else if b == 0x69 { Some(Marker::Int8) }
        else if b == 0x55 { Some(Marker::Uint8) }
        else if b == 0x49 { Some(Marker::Int16) }
        else if b == 0x6C { Some(Marker::Int32) }
        else if b == 0x4C { Some(Marker::Int64) }
        else if b == 0x64 { Some(Marker::Float32) }
        else if b == 0x44 { Some(Marker::Float64) }
        else if b == 0x48 { Some(Marker::HighPrecisionNumber) }
        else if b == 0x43 { Some(Marker::Char) }
        else if b == 0x53 { Some(Marker::String) }
        else if b == 0x5B { Some(Marker::ArrayStart) }
        else if b == 0x5D { Some(Marker::ArrayEnd) }
        else if b == 0x7B { Some(Marker::ObjectStart) }
        else if b == 0x7D { Some(Marker::ObjectEnd) }
        else { None }
    }
}

/// The byte-to-marker table and the marker-to-byte table are inverse:
/// every marker is read back from its own tag byte, and every byte that
/// names a marker is that marker's tag.
pub proof fn lemma_marker_byte_round_trip(m: Marker, b: u8)
    ensures
        marker_of_byte(m.spec_byte()) == Some(m),
        marker_of_byte(b) is Some ==> marker_of_byte(b)->0.spec_byte() == b,
{
}

/// The marker at position `pos`: `Incomplete` past the end of the input,
/// `UnrecognizedMarker` for a byte that is no tag.
pub open spec fn marker_at(s: Seq<u8>, pos: int) -> Result<Marker, UbjsonError> {
    if pos < 0 || pos >= s.len() {
        Err(UbjsonError::Incomplete)
    } else {
        match marker_of_byte(s[pos]) {
            Some(m) => Ok(m),
            None => Err(UbjsonError::UnrecognizedMarker(s[pos])),
        }
    }
}

/// Reads the marker at position `pos` of `s`.
pub fn read_marker(s: &[u8], pos: usize) -> (r: Result<Marker, UbjsonError>)
    ensures
        r == marker_at(s@, pos as int),
{
    if pos >= s.len() {
        Err(UbjsonError::Incomplete)
    } else {
        match Marker::from_byte(s[pos]) {
            Some(m) => Ok(m),
            None => Err(UbjsonError::UnrecognizedMarker(s[pos])),
        }
    }
}

} // verus!
