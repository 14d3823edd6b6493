use crate::decode::decode_text_at;
use crate::error::UbjsonError;
use crate::grammar::decode_text;
use vstd::prelude::*;

verus! {

/// A length-prefixed UTF-8 string as it stands on the wire: the payload of a
/// string, of a high-precision number, and every object key.
#[derive(Debug, PartialEq, Eq)]
pub struct StringValue(String);

impl View for StringValue {
    type V = Seq<char>;

    closed spec fn view(&self) -> Seq<char> {
        self.0@
    }
}

impl StringValue {
    /// The text, taken out of the wrapper.
    pub fn unwrap(self) -> (r: String)
        ensures
            r@ == self@,
    {
        self.0
    }

    /// The text, borrowed.
    pub fn as_str(&self) -> (r: &str)
        ensures
            r@ == self@,
    {
        self.0.as_str()
    }

    /// Decodes a string at the front of `i`: a size `n`, then `n` bytes of
    /// UTF-8. Returns the rest of the input and the text.
    pub fn parse(i: &[u8]) -> (r: Result<(&[u8], StringValue), UbjsonError>)
        ensures
            match decode_text(i@, 0) {
                Ok((t, q)) => r is Ok && r->Ok_0.0@ == i@.subrange(q, i@.len() as int) && r->Ok_0.1@ == t,
                Err(e) => r == Err::<(&[u8], StringValue), UbjsonError>(e),
            },
    {
        match decode_text_at(i, 0) {
            Ok((t, q)) => Ok((&i[q..i.len()], StringValue(t))),
            Err(e) => Err(e),
        }
    }
}

} // verus!
