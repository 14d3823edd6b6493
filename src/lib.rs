//! A decoder for UBJSON (Universal Binary JSON).
//!
//! Every decoding step is a function from the input buffer and a position to
//! a decoded item and the position just after it. The grammar is written down
//! as spec functions in `grammar`, and each executable decoder is proved to
//! return exactly what the grammar gives.
pub mod container;
pub mod de;
pub mod decode;
pub mod error;
pub mod grammar;
pub mod laws;
pub mod marker;
pub mod string_value;

pub use container::{Container, Value};
pub use de::{from_slice, Deserializer, MapCursor, SeqCursor};
pub use error::{UbjsonError, UbjsonSerdeError};
pub use marker::Marker;
pub use string_value::StringValue;

use crate::decode::{decode_length_at, decode_value_at};
use crate::grammar::{decode_length, decode_value};
use vstd::prelude::*;

verus! {

/// The MIME type of UBJSON payloads.
pub const MIME_TYPE: &'static str = "application/ubjson";

/// The file extension of UBJSON files.
pub const FILE_EXT: &'static str = "ubj";

/// Decodes one value from the front of `i`. Returns the rest of the input,
/// which need not be empty, and the value.
pub fn parse_one(i: &[u8]) -> (r: Result<(&[u8], Container), UbjsonError>)
    ensures
        match decode_value(i@, 0) {
            Ok((v, q)) => r is Ok && r->Ok_0.0@ == i@.subrange(q, i@.len() as int) && r->Ok_0.1@ == v,
            Err(e) => r == Err::<(&[u8], Container), UbjsonError>(e),
        },
{
    match decode_value_at(i, 0) {
        Ok((c, q)) => Ok((&i[q..i.len()], c)),
        Err(e) => Err(e),
    }
}

/// Decodes a size from the front of `i`: one value that must be a `Uint8`
/// or a non-negative signed integer. Returns the rest of the input and the
/// size.
pub fn parse_length(i: &[u8]) -> (r: Result<(&[u8], usize), UbjsonError>)
    ensures
        match decode_length(i@, 0) {
            Ok((n, q)) => r is Ok && r->Ok_0.0@ == i@.subrange(q, i@.len() as int) && r->Ok_0.1 == n,
            Err(e) => r == Err::<(&[u8], usize), UbjsonError>(e),
        },
{
    match decode_length_at(i, 0) {
        Ok((n, q)) => Ok((&i[q..i.len()], n)),
        Err(e) => Err(e),
    }
}

} // verus!
