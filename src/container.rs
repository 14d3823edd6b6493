use crate::error::UbjsonError;
use crate::grammar::length_of;
use vstd::prelude::*;

verus! {

broadcast use vstd::seq::group_seq_axioms, vstd::std_specs::vec::group_vec_axioms;

/// A decoded UBJSON value.
///
/// Floating-point values are held as their IEEE-754 bit patterns, exactly as
/// they stood on the wire. An object holds each key once, in the order in
/// which the key first appeared.
#[derive(Debug, PartialEq)]
pub enum Container {
    Null,
    Noop,
    Boolean(bool),
    Int8(i8),
    Uint8(u8),
    Int16(i16),
    Int32(i32),
    Int64(i64),
    /// The bit pattern of an IEEE-754 single-precision number.
    Float32(u32),
    /// The bit pattern of an IEEE-754 double-precision number.
    Float64(u64),
    /// A number written as decimal text, not interpreted here.
    HighPrecisionNumber(String),
    Char(char),
    String(String),
    Array(Vec<Container>),
    Object(Vec<(String, Container)>),
}

/// The mathematical model of a decoded value.
pub enum Value {
    Null,
    Noop,
    Boolean(bool),
    Int8(i8),
    Uint8(u8),
    Int16(i16),
    Int32(i32),
    Int64(i64),
    Float32(u32),
    Float64(u64),
    HighPrecisionNumber(Seq<char>),
    Char(char),
    String(Seq<char>),
    Array(Seq<Value>),
    Object(Seq<(Seq<char>, Value)>),
}

/// The models of a sequence of values.
pub open spec fn values_of(s: Seq<Container>) -> Seq<Value>
    decreases s,
{
    if s.len() == 0 {
        Seq::empty()
    } else {
        values_of(s.drop_last()).push(model(s.last()))
    }
}

/// The models of a sequence of object entries.
pub open spec fn entries_of(s: Seq<(String, Container)>) -> Seq<(Seq<char>, Value)>
    decreases s,
{
    if s.len() == 0 {
        Seq::empty()
    } else {
        entries_of(s.drop_last()).push((s.last().0@, model(s.last().1)))
    }
}

/// `values_of` models each value in place.
pub broadcast proof fn lemma_values_of(s: Seq<Container>)
    ensures
        #[trigger] values_of(s).len() == s.len(),
        forall|i: int| 0 <= i < s.len() ==> #[trigger] values_of(s)[i] == s[i]@,
    decreases s.len(),
{
    if s.len() > 0 {
        lemma_values_of(s.drop_last());
    }
}

/// `entries_of` models each entry in place.
pub broadcast proof fn lemma_entries_of(s: Seq<(String, Container)>)
    ensures
        #[trigger] entries_of(s).len() == s.len(),
        forall|i: int| 0 <= i < s.len() ==> #[trigger] entries_of(s)[i] == (s[i].0@, s[i].1@),
    decreases s.len(),
{
    if s.len() > 0 {
        lemma_entries_of(s.drop_last());
    }
}

/// The mathematical model of a decoded value.
pub open spec fn model(c: Container) -> Value
    decreases c,
{
    match c {
        Container::Null => Value::Null,
        Container::Noop => Value::Noop,
        Container::Boolean(b) => Value::Boolean(b),
        Container::Int8(n) => Value::Int8(n),
        Container::Uint8(n) => Value::Uint8(n),
        Container::Int16(n) => Value::Int16(n),
        Container::Int32(n) => Value::Int32(n),
        Container::Int64(n) => Value::Int64(n),
        Container::Float32(n) => Value::Float32(n),
        Container::Float64(n) => Value::Float64(n),
        Container::HighPrecisionNumber(t) => Value::HighPrecisionNumber(t@),
        Container::Char(ch) => Value::Char(ch),
        Container::String(t) => Value::String(t@),
        Container::Array(v) => Value::Array(values_of(v@)),
        Container::Object(v) => Value::Object(entries_of(v@)),
    }
}

impl View for Container {
    type V = Value;

    open spec fn view(&self) -> Value {
        model(*self)
    }
}

impl Container {
    /// The text of a `String`. Any other value fails `ConversionFailed`,
    /// which carries a `String` as the expected kind and the value itself.
    pub fn try_into_string(self) -> (r: Result<String, UbjsonError>)
        ensures
            match self@ {
                Value::String(t) => r is Ok && r->Ok_0@ == t,
                _ => r is Err && r->Err_0 is ConversionFailed
                    && r->Err_0->ConversionFailed_expected@ is String
                    && r->Err_0->ConversionFailed_actual == self,
            },
    {
        match self {
            Container::String(t) => Ok(t),
            other => Err(UbjsonError::ConversionFailed {
                expected: Container::String("any".to_owned()),
                actual: other,
            }),
        }
    }

    /// The truth value of a `Boolean`. Any other value fails
    /// `ConversionFailed`.
    pub fn try_into_bool(self) -> (r: Result<bool, UbjsonError>)
        ensures
            match self@ {
                Value::Boolean(b) => r == Ok::<bool, UbjsonError>(b),
                _ => r is Err && r->Err_0 is ConversionFailed
                    && r->Err_0->ConversionFailed_expected@ is Boolean
                    && r->Err_0->ConversionFailed_actual == self,
            },
    {
        match self {
            Container::Boolean(b) => Ok(b),
            other => Err(UbjsonError::ConversionFailed {
                expected: Container::Boolean(true),
                actual: other,
            }),
        }
    }

    /// The number of an `Int8`. Any other value fails `ConversionFailed`.
    pub fn try_into_i8(self) -> (r: Result<i8, UbjsonError>)
        ensures
            match self@ {
                Value::Int8(n) => r == Ok::<i8, UbjsonError>(n),
                _ => r is Err && r->Err_0 is ConversionFailed
                    && r->Err_0->ConversionFailed_expected@ is Int8
                    && r->Err_0->ConversionFailed_actual == self,
            },
    {
        match self {
            Container::Int8(n) => Ok(n),
            other => Err(UbjsonError::ConversionFailed {
                expected: Container::Int8(0),
                actual: other,
            }),
        }
    }

    /// The size that this value stands for: a `Uint8`, or a signed integer
    /// that is not negative. Any other value fails `LengthConversionFailed`.
    pub fn try_into_usize(self) -> (r: Result<usize, UbjsonError>)
        ensures
            match length_of(self@) {
                Some(n) => r == Ok::<usize, UbjsonError>(n as usize),
                None => r == Err::<usize, UbjsonError>(UbjsonError::LengthConversionFailed),
            },
    {
        match self {
            Container::Uint8(n) => Ok(n as usize),
            Container::Int8(n) => if n >= 0 { Ok(n as usize) } else { Err(UbjsonError::LengthConversionFailed) },
            Container::Int16(n) => if n >= 0 { Ok(n as usize) } else { Err(UbjsonError::LengthConversionFailed) },
            Container::Int32(n) => if n >= 0 { Ok(n as usize) } else { Err(UbjsonError::LengthConversionFailed) },
            Container::Int64(n) => if n >= 0 && n as u64 <= usize::MAX as u64 {
                Ok(n as usize)
            } else {
                Err(UbjsonError::LengthConversionFailed)
            },
            _ => Err(UbjsonError::LengthConversionFailed),
        }
    }
}

} // verus!
