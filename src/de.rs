//! The boundary of the structured-data bridge: whole-buffer decoding, and
//! the cursors that hand out the elements of an array and the entries of an
//! object.
use crate::container::{entries_of, lemma_entries_of, lemma_values_of, values_of, Container, Value};
use crate::error::{UbjsonError, UbjsonSerdeError};
use crate::grammar::decode_value;
use crate::decode::decode_value_at;
use vstd::prelude::*;

verus! {

broadcast use vstd::std_specs::vec::group_vec_axioms, lemma_entries_of, lemma_values_of;

/// A cursor over the input of the bridge: the bytes not yet decoded.
#[derive(Debug, Clone, Copy)]
pub struct Deserializer<'de> {
    input: &'de [u8],
}

impl<'de> View for Deserializer<'de> {
    type V = Seq<u8>;

    closed spec fn view(&self) -> Seq<u8> {
        self.input@
    }
}

impl<'de> Deserializer<'de> {
    /// A cursor at the start of `input`.
    pub fn from_slice(input: &'de [u8]) -> (r: Self)
        ensures
            r@ == input@,
    {
        Deserializer { input }
    }

    /// The number of bytes not yet decoded.
    pub fn len(&self) -> (r: usize)
        ensures
            r == self@.len(),
    {
        self.input.len()
    }

    /// Decodes the next value and moves past it. On failure nothing is
    /// consumed.
    pub fn next_value(&mut self) -> (r: Result<Container, UbjsonError>)
        ensures
            match decode_value(old(self)@, 0) {
                Ok((v, q)) => r is Ok && r->Ok_0@ == v && 0 < q <= old(self)@.len()
                    && final(self)@ == old(self)@.subrange(q, old(self)@.len() as int),
                Err(e) => r == Err::<Container, UbjsonError>(e) && final(self)@ == old(self)@,
            },
    {
        match decode_value_at(self.input, 0) {
            Ok((c, q)) => {
                self.input = &self.input[q..self.input.len()];
                Ok(c)
            },
            Err(e) => Err(e),
        }
    }

    /// Succeeds only where the whole input has been decoded; else fails
    /// `TrailingData`.
    pub fn end(&self) -> (r: Result<(), UbjsonError>)
        ensures
            self@.len() == 0 ==> r is Ok,
            self@.len() != 0 ==> r == Err::<(), UbjsonError>(UbjsonError::Serde(UbjsonSerdeError::TrailingData)),
    {
        if self.input.len() == 0 {
            Ok(())
        } else {
            Err(UbjsonError::Serde(UbjsonSerdeError::TrailingData))
        }
    }
}

/// Decodes a buffer that must hold exactly one value: bytes left after it
/// fail `TrailingData`.
pub fn from_slice(i: &[u8]) -> (r: Result<Container, UbjsonError>)
    ensures
        match decode_value(i@, 0) {
            Ok((v, q)) => if q == i@.len() {
                r is Ok && r->Ok_0@ == v
            } else {
                r == Err::<Container, UbjsonError>(UbjsonError::Serde(UbjsonSerdeError::TrailingData))
            },
            Err(e) => r == Err::<Container, UbjsonError>(e),
        },
{
    let mut de = Deserializer::from_slice(i);
    match de.next_value() {
        Ok(c) => match de.end() {
            Ok(()) => Ok(c),
            Err(e) => Err(e),
        },
        Err(e) => Err(e),
    }
}

/// The values of `s` in reverse order.
pub open spec fn reversed<T>(s: Seq<T>) -> Seq<T> {
    Seq::new(s.len(), |i: int| s[s.len() - 1 - i])
}

/// Hands out the elements of an array one at a time, in order.
pub struct SeqCursor {
    /// The elements not yet handed out, the next one last.
    rest: Vec<Container>,
}

impl View for SeqCursor {
    type V = Seq<Value>;

    /// The elements not yet handed out, in order.
    closed spec fn view(&self) -> Seq<Value> {
        reversed(values_of(self.rest@))
    }
}

impl SeqCursor {
    /// A cursor at the first of `items`.
    pub fn new(items: Vec<Container>) -> (r: Self)
        ensures
            r@ == values_of(items@),
    {
        let ghost all = values_of(items@);
        let mut items = items;
        let mut rest: Vec<Container> = Vec::new();
        while items.len() > 0
            invariant
                all.len() == items@.len() + rest@.len(),
                forall|j: int| 0 <= j < items@.len() ==> #[trigger] items@[j]@ == all[j],
                forall|j: int| 0 <= j < rest@.len() ==> #[trigger] rest@[j]@ == all[all.len() - 1 - j],
            decreases items@.len(),
        {
            let c = items.pop().unwrap();
            rest.push(c);
        }
        let r = SeqCursor { rest };
        assert(r@ =~= all);
        r
    }

    /// The next element, or `None` when all have been handed out.
    pub fn next_element(&mut self) -> (r: Option<Container>)
        ensures
            old(self)@.len() == 0 ==> r is None && final(self)@ == old(self)@,
            old(self)@.len() > 0 ==> r is Some && r->0@ == old(self)@[0]
                && final(self)@ == old(self)@.drop_first(),
    {
        let r = self.rest.pop();
        proof {
            assert(self@ =~= old(self)@.drop_first() || old(self)@.len() == 0);
        }
        r
    }
}

/// Hands out the entries of an object: each key, then its value.
pub struct MapCursor {
    /// The entries not yet handed out, the next one last.
    rest: Vec<(String, Container)>,
    /// The value of the key handed out last, until it is asked for.
    pending: Option<Container>,
}

impl View for MapCursor {
    type V = (Seq<(Seq<char>, Value)>, Option<Value>);

    /// The entries not yet handed out, in order, and the value waiting for
    /// its key's turn.
    closed spec fn view(&self) -> (Seq<(Seq<char>, Value)>, Option<Value>) {
        (
            reversed(entries_of(self.rest@)),
            match self.pending {
                Some(c) => Some(c@),
                None => None,
            },
        )
    }
}

impl MapCursor {
    /// A cursor at the first of `entries`, with no key handed out.
    pub fn new(entries: Vec<(String, Container)>) -> (r: Self)
        ensures
            r@.0 == entries_of(entries@),
            r@.1 is None,
    {
        let ghost all = entries_of(entries@);
        let mut entries = entries;
        let mut rest: Vec<(String, Container)> = Vec::new();
        while entries.len() > 0
            invariant
                all.len() == entries@.len() + rest@.len(),
                forall|j: int| 0 <= j < entries@.len() ==> (#[trigger] entries@[j]).0@ == all[j].0 && entries@[j].1@ == all[j].1,
                forall|j: int| 0 <= j < rest@.len() ==> (#[trigger] rest@[j]).0@ == all[all.len() - 1 - j].0 && rest@[j].1@ == all[all.len() - 1 - j].1,
            decreases entries@.len(),
        {
            let e = entries.pop().unwrap();
            rest.push(e);
        }
        let r = MapCursor { rest, pending: None };
        assert(r@.0 =~= all);
        r
    }

    /// The next key, whose value then waits to be asked for; `None` when
    /// all entries have been handed out.
    pub fn next_key(&mut self) -> (r: Option<String>)
        ensures
            old(self)@.0.len() == 0 ==> r is None && final(self)@ == old(self)@,
            old(self)@.0.len() > 0 ==> r is Some && r->0@ == old(self)@.0[0].0
                && final(self)@ == (old(self)@.0.drop_first(), Some(old(self)@.0[0].1)),
    {
        match self.rest.pop() {
            None => None,
            Some((k, v)) => {
                self.pending = Some(v);
                proof {
                    assert(self@.0 =~= old(self)@.0.drop_first());
                }
                Some(k)
            },
        }
    }

    /// The value of the key handed out last. Fails `MissingValueInMap`
    /// where no key is waiting for its value.
    pub fn next_value(&mut self) -> (r: Result<Container, UbjsonError>)
        ensures
            old(self)@.1 is None ==> r == Err::<Container, UbjsonError>(UbjsonError::Serde(UbjsonSerdeError::MissingValueInMap))
                && final(self)@ == old(self)@,
            old(self)@.1 is Some ==> r is Ok && r->Ok_0@ == old(self)@.1->0
                && final(self)@ == (old(self)@.0, None::<Value>),
    {
        match self.pending.take() {
            Some(v) => Ok(v),
            None => Err(UbjsonError::Serde(UbjsonSerdeError::MissingValueInMap)),
        }
    }
}

} // verus!
