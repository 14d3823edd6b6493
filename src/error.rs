use crate::container::Container;
use crate::marker::Marker;
use vstd::prelude::*;

verus! {

/// Failures of the structured-data bridge.
#[derive(Debug, PartialEq)]
pub enum UbjsonSerdeError {
    /// The buffer held more bytes after the one value it was to contain.
    TrailingData,
    /// A map value was asked for before its key.
    MissingValueInMap,
    /// A message of the structured-data framework.
    SerdeMessage(String),
}

/// Every way a decode attempt can fail.
#[derive(Debug, PartialEq)]
pub enum UbjsonError {
    /// A typed projection was asked of a value of another kind.
    ConversionFailed { expected: Container, actual: Container },
    /// An element of a strongly-typed container carried another marker.
    UnexpectedMarker { expected: Marker, actual: Marker },
    /// An end marker stood where a value was expected.
    ExtraneousMarker(Marker),
    /// A byte that is no marker stood where a marker was expected.
    UnrecognizedMarker(u8),
    /// A size-bearing value was not a non-negative integer.
    LengthConversionFailed,
    /// The bytes of a string were not valid UTF-8.
    Utf8DecodeFailed,
    /// The input ended before the value did; more bytes may complete it.
    Incomplete,
    /// A failure of the structured-data bridge.
    Serde(UbjsonSerdeError),
}

impl UbjsonError {
    /// Whether more input could turn this failure into a success.
    pub fn is_incomplete(&self) -> (r: bool)
        ensures
            r == (*self is Incomplete),
    {
        matches!(self, UbjsonError::Incomplete)
    }
}

} // verus!
