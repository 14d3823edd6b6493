//! The executable decoder. Each function decodes from position `pos` of the
//! input and is proved to agree with its counterpart in `grammar`.
use crate::container::{entries_of, lemma_entries_of, lemma_values_of, values_of, Container, Value};
use crate::error::UbjsonError;
use crate::grammar::{
    advances, assemble, be_uint, collect_entries, decode_container, decode_count_prefix,
    decode_element, decode_entries, decode_entry, decode_length, decode_payload, decode_text,
    decode_value, insert_entry, is_fixed_width, key_index,
    payload_width, scalar_value, COUNT_PREFIX, TYPE_PREFIX,
};
use crate::laws::pow256;
use crate::marker::{read_marker, Marker};
use vstd::prelude::*;
use vstd::utf8::{decode_utf8, valid_utf8};

verus! {

broadcast use vstd::std_specs::vec::group_vec_axioms, lemma_entries_of, lemma_values_of;

proof fn lemma_pow256_monotonic(a: nat, b: nat)
    requires
        a <= b,
    ensures
        pow256(a) <= pow256(b),
    decreases b,
{
    if a < b {
        lemma_pow256_monotonic(a, (b - 1) as nat);
    }
}

/// Whether an executable decode result agrees with the grammar's.
pub open spec fn agrees<T, U>(r: Result<(T, usize), UbjsonError>, g: Result<(U, int), UbjsonError>, model: spec_fn(T) -> U) -> bool {
    match (r, g) {
        (Ok((x, q)), Ok((y, q2))) => model(x) == y && q as int == q2,
        (Err(e), Err(e2)) => e == e2,
        _ => false,
    }
}

/// Whether a decode result agrees with the grammar's value result.
pub open spec fn agrees_value(r: Result<(Container, usize), UbjsonError>, g: Result<(Value, int), UbjsonError>) -> bool {
    agrees(r, g, |c: Container| c@)
}

/// Whether a successful decode from `pos` consumed input and stayed in it.
pub open spec fn advanced<T>(r: Result<(T, usize), UbjsonError>, pos: int, len: int) -> bool {
    r is Ok ==> advances(pos, r->Ok_0.1 as int, len)
}

/// A declared count as a natural number.
pub open spec fn nat_count(c: Option<usize>) -> Option<nat> {
    match c {
        Some(n) => Some(n as nat),
        None => None,
    }
}

/// Relies on `std::str::from_utf8`: it accepts exactly the well-formed UTF-8
/// byte sequences, and returns the text that they encode.
#[verifier::external_body]
fn utf8_text(b: &[u8]) -> (r: Option<&str>)
    ensures
        r is Some <==> valid_utf8(b@),
        r is Some ==> r->0@ == decode_utf8(b@),
{
    std::str::from_utf8(b).ok()
}

/// The unsigned integer that `n` bytes from `pos` spell, most significant first.
fn read_be(s: &[u8], pos: usize, n: usize) -> (r: u64)
    requires
        n <= 8,
        pos + n <= s@.len(),
    ensures
        r as nat == be_uint(s@.subrange(pos as int, pos + n)),
{
    let len = s.len();
    let mut acc: u64 = 0;
    let mut i: usize = 0;
    while i < n
        invariant
            len == s@.len(),
            i <= n <= 8,
            pos + n <= s@.len(),
            acc as nat == be_uint(s@.subrange(pos as int, pos + i)),
            acc < pow256(i as nat),
        decreases n - i,
    {
        let b = s[pos + i];
        proof {
            let sub = s@.subrange(pos as int, pos + i + 1);
            assert(sub.drop_last() =~= s@.subrange(pos as int, pos + i));
            assert(sub.last() == b);
            assert(acc * 256 + b < pow256(i as nat) * 256) by (nonlinear_arith)
                requires
                    acc < pow256(i as nat),
                    b < 256,
            ;
            lemma_pow256_monotonic((i + 1) as nat, 8);
            reveal_with_fuel(pow256, 9);
        }
        acc = acc * 256 + b as u64;
        i = i + 1;
    }
    acc
}

/// Decodes one complete value at `pos`: a marker, then its payload.
pub fn decode_value_at(s: &[u8], pos: usize) -> (r: Result<(Container, usize), UbjsonError>)
    ensures
        agrees_value(r, decode_value(s@, pos as int)),
        advanced(r, pos as int, s@.len() as int),
    decreases s@.len() - pos, 0int,
{
    if pos >= s.len() {
        return Err(UbjsonError::Incomplete);
    }
    match read_marker(s, pos) {
        Err(e) => Err(e),
        Ok(m) => decode_payload_at(s, m, pos + 1),
    }
}

/// Decodes the payload of a value whose marker `m` has been read.
pub fn decode_payload_at(s: &[u8], m: Marker, pos: usize) -> (r: Result<(Container, usize), UbjsonError>)
    ensures
        agrees_value(r, decode_payload(s@, m, pos as int)),
        r is Ok ==> pos <= r->Ok_0.1 <= s@.len(),
    decreases s@.len() - pos, 6int,
{
    if pos > s.len() {
        return Err(UbjsonError::Incomplete);
    }
    let width: usize = match m {
        Marker::Int8 | Marker::Uint8 | Marker::Char => 1,
        Marker::Int16 => 2,
        Marker::Int32 | Marker::Float32 => 4,
        Marker::Int64 | Marker::Float64 => 8,
        _ => 0,
    };
    assert(width == payload_width(m));
    match m {
        Marker::HighPrecisionNumber => {
            return match decode_text_at(s, pos) {
                Ok((t, q)) => Ok((Container::HighPrecisionNumber(t), q)),
                Err(e) => Err(e),
            };
        },
        Marker::String => {
            return match decode_text_at(s, pos) {
                Ok((t, q)) => Ok((Container::String(t), q)),
                Err(e) => Err(e),
            };
        },
        Marker::ArrayStart => {
            return decode_container_at(s, pos, false);
        },
        Marker::ObjectStart => {
            return decode_container_at(s, pos, true);
        },
        Marker::ArrayEnd | Marker::ObjectEnd => {
            return Err(UbjsonError::ExtraneousMarker(m));
        },
        _ => {},
    }
    assert(is_fixed_width(m));
    if width > s.len() - pos {
        return Err(UbjsonError::Incomplete);
    }
    let ghost b = s@.subrange(pos as int, pos + width);
    let c = match m {
        Marker::Null => Container::Null,
        Marker::Noop => Container::Noop,
        Marker::True => Container::Boolean(true),
        Marker::False => Container::Boolean(false),
        Marker::Int8 => Container::Int8(s[pos] as i8),
        Marker::Uint8 => Container::Uint8(s[pos]),
        Marker::Int16 => Container::Int16((read_be(s, pos, 2) as u16) as i16),
        Marker::Int32 => Container::Int32((read_be(s, pos, 4) as u32) as i32),
        Marker::Int64 => Container::Int64(read_be(s, pos, 8) as i64),
        Marker::Float32 => Container::Float32(read_be(s, pos, 4) as u32),
        Marker::Float64 => Container::Float64(read_be(s, pos, 8)),
        _ => Container::Char(s[pos] as char),
    };
    assert(c@ == scalar_value(m, b));
    Ok((c, pos + width))
}

/// Decodes a size at `pos`: one complete value that must be a non-negative
/// integer.
pub fn decode_length_at(s: &[u8], pos: usize) -> (r: Result<(usize, usize), UbjsonError>)
    ensures
        agrees(r, decode_length(s@, pos as int), |n: usize| n as nat),
        advanced(r, pos as int, s@.len() as int),
    decreases s@.len() - pos, 1int,
{
    match decode_value_at(s, pos) {
        Err(e) => Err(e),
        Ok((c, q)) => match c.try_into_usize() {
            Ok(n) => Ok((n, q)),
            Err(e) => Err(e),
        },
    }
}

/// Decodes a string at `pos`: a size `n`, then `n` bytes of UTF-8.
pub fn decode_text_at(s: &[u8], pos: usize) -> (r: Result<(String, usize), UbjsonError>)
    ensures
        agrees(r, decode_text(s@, pos as int), |t: String| t@),
        advanced(r, pos as int, s@.len() as int),
    decreases s@.len() - pos, 2int,
{
    match decode_length_at(s, pos) {
        Err(e) => Err(e),
        Ok((n, q)) => {
            if n > s.len() - q {
                return Err(UbjsonError::Incomplete);
            }
            let bytes = &s[q..q + n];
            match utf8_text(bytes) {
                Some(t) => Ok((t.to_owned(), q + n)),
                None => Err(UbjsonError::Utf8DecodeFailed),
            }
        },
    }
}

/// Decodes one element at `pos`, checking its marker against the declared
/// element type `ty` where there is one.
pub fn decode_element_at(s: &[u8], pos: usize, ty: Option<Marker>) -> (r: Result<(Container, usize), UbjsonError>)
    ensures
        agrees_value(r, decode_element(s@, pos as int, ty)),
        advanced(r, pos as int, s@.len() as int),
    decreases s@.len() - pos, 1int,
{
    if pos >= s.len() {
        return Err(UbjsonError::Incomplete);
    }
    match ty {
        None => decode_value_at(s, pos),
        Some(t) => match read_marker(s, pos) {
            Err(e) => Err(e),
            Ok(m) => if m != t {
                Err(UbjsonError::UnexpectedMarker { expected: t, actual: m })
            } else {
                decode_payload_at(s, m, pos + 1)
            },
        },
    }
}

/// Decodes one entry at `pos`: in an object a key and an element, in an
/// array an element alone (with an empty key).
pub fn decode_entry_at(s: &[u8], pos: usize, ty: Option<Marker>, object: bool) -> (r: Result<((String, Container), usize), UbjsonError>)
    ensures
        agrees(r, decode_entry(s@, pos as int, ty, object), |e: (String, Container)| (e.0@, e.1@)),
        advanced(r, pos as int, s@.len() as int),
    decreases s@.len() - pos, 3int,
{
    if object {
        match decode_text_at(s, pos) {
            Err(e) => Err(e),
            Ok((k, q)) => match decode_element_at(s, q, ty) {
                Err(e) => Err(e),
                Ok((v, r)) => Ok(((k, v), r)),
            },
        }
    } else {
        match decode_element_at(s, pos, ty) {
            Err(e) => Err(e),
            Ok((v, q)) => Ok(((String::new(), v), q)),
        }
    }
}

/// Adds the entry `(k, v)` to the object entries `m`: it replaces the value
/// of the entry with key `k` where there is one, else it comes last.
pub fn insert_object_entry(m: &mut Vec<(String, Container)>, k: String, v: Container)
    ensures
        entries_of(final(m)@) == insert_entry(entries_of(old(m)@), k@, v@),
{
    let ghost old_view = entries_of(m@);
    let ghost kv = k@;
    let ghost vv = v@;
    assert(old_view.subrange(0, m@.len() as int) =~= old_view);
    let mut i: usize = m.len();
    while i > 0
        invariant
            i <= m@.len(),
            kv == k@,
            vv == v@,
            old_view == entries_of(m@),
            old_view == entries_of(old(m)@),
            key_index(old_view, k@) == key_index(old_view.subrange(0, i as int), k@),
        decreases i,
    {
        let ghost sub = old_view.subrange(0, i as int);
        if m[i - 1].0 == k {
            proof {
                assert(sub.len() == i);
                assert(sub.last() == old_view[i - 1]);
                assert(old_view[i - 1].0 == kv);
                assert(key_index(old_view, kv) == i - 1);
            }
            m.set(i - 1, (k, v));
            proof {
                assert(entries_of(m@) =~= old_view.update(i - 1, (kv, vv)));
                assert(insert_entry(old_view, kv, vv) == old_view.update(i - 1, (kv, vv)));
            }
            return;
        }
        proof {
            assert(sub.drop_last() =~= old_view.subrange(0, i - 1));
        }
        i = i - 1;
    }
    assert(old_view.subrange(0, 0).len() == 0);
    m.push((k, v));
    assert(entries_of(m@) =~= old_view.push((kv, vv)));
}

/// Decodes the entries of a container body from `pos`: `count` of them
/// where a count was declared, else entries up to the end marker, which is
/// consumed. The result is the assembled array or object.
pub fn decode_entries_at(s: &[u8], pos: usize, count: Option<usize>, ty: Option<Marker>, object: bool) -> (r: Result<(Container, usize), UbjsonError>)
    ensures
        agrees_value(
            r,
            match decode_entries(s@, pos as int, nat_count(count), ty, object) {
                Ok((es, q)) => Ok((assemble(es, object), q)),
                Err(e) => Err(e),
            },
        ),
        r is Ok ==> pos <= r->Ok_0.1 <= s@.len(),
    decreases s@.len() - pos, 4int,
{
    let ghost goal = decode_entries(s@, pos as int, nat_count(count), ty, object);
    if pos > s.len() {
        return Err(UbjsonError::Incomplete);
    }
    let mut p: usize = pos;
    let mut remaining = count;
    let mut items: Vec<Container> = Vec::new();
    let mut fields: Vec<(String, Container)> = Vec::new();
    let ghost mut prefix: Seq<(Seq<char>, Value)> = Seq::empty();
    loop
        invariant
            pos <= p <= s@.len(),
            goal == decode_entries(s@, pos as int, nat_count(count), ty, object),
            goal == match decode_entries(s@, p as int, nat_count(remaining), ty, object) {
                Ok((rest, q)) => Ok((prefix + rest, q)),
                Err(e) => Err(e),
            },
            !object ==> items@.len() == prefix.len(),
            !object ==> forall|j: int| 0 <= j < prefix.len() ==> #[trigger] items@[j]@ == prefix[j].1,
            object ==> entries_of(fields@) == collect_entries(prefix),
        decreases s@.len() - p,
    {
        let ghost rc = nat_count(remaining);
        let done = match remaining {
            Some(n) => n == 0,
            None => {
                if p >= s.len() {
                    assert(decode_entries(s@, p as int, None, ty, object) == Err::<(Seq<(Seq<char>, Value)>, int), UbjsonError>(UbjsonError::Incomplete));
                    assert(goal == Err::<(Seq<(Seq<char>, Value)>, int), UbjsonError>(UbjsonError::Incomplete));
                    return Err(UbjsonError::Incomplete);
                }
                s[p] == if object { Marker::ObjectEnd.to_byte() } else { Marker::ArrayEnd.to_byte() }
            },
        };
        if done {
            let end = if remaining.is_some() { p } else { p + 1 };
            proof {
                assert(prefix + Seq::<(Seq<char>, Value)>::empty() =~= prefix);
            }
            let ghost fv = fields@;
            let ghost iv = items@;
            let c = if object { Container::Object(fields) } else { Container::Array(items) };
            proof {
                if object {
                    assert(c@->Object_0 == entries_of(fv));
                } else {
                    assert(values_of(iv) =~= prefix.map_values(|e: (Seq<char>, Value)| e.1));
                }
            }
            return Ok((c, end));
        }
        match decode_entry_at(s, p, ty, object) {
            Err(e) => {
                assert(decode_entries(s@, p as int, rc, ty, object) == Err::<(Seq<(Seq<char>, Value)>, int), UbjsonError>(e));
                assert(goal == Err::<(Seq<(Seq<char>, Value)>, int), UbjsonError>(e));
                return Err(e);
            },
            Ok(((k, v), q)) => {
                let ghost e = (k@, v@);
                proof {
                    assert(prefix.push(e).drop_last() =~= prefix);
                    assert((prefix + seq![e]) =~= prefix.push(e));
                    let nrc = match rc { Some(n) => Some((n - 1) as nat), None => None };
                    match decode_entries(s@, q as int, nrc, ty, object) {
                        Ok((rest, r2)) => {
                            assert(prefix + (seq![e] + rest) =~= prefix.push(e) + rest);
                        },
                        Err(_) => {},
                    }
                }
                if object {
                    insert_object_entry(&mut fields, k, v);
                } else {
                    items.push(v);
                }
                remaining = match remaining {
                    Some(n) => Some(n - 1),
                    None => None,
                };
                proof {
                    let old_prefix = prefix;
                    prefix = prefix.push(e);
                    assert(prefix.drop_last() =~= old_prefix);
                    assert(collect_entries(prefix) == insert_entry(collect_entries(old_prefix), e.0, e.1));
                }
                p = q;
            },
        }
    }
}

/// Decodes a container body at `pos`, just after its start marker.
pub fn decode_container_at(s: &[u8], pos: usize, object: bool) -> (r: Result<(Container, usize), UbjsonError>)
    ensures
        agrees_value(r, decode_container(s@, pos as int, object)),
        r is Ok ==> pos <= r->Ok_0.1 <= s@.len(),
    decreases s@.len() - pos, 5int,
{
    if pos >= s.len() {
        return Err(UbjsonError::Incomplete);
    }
    let (ty, after_type) = if s[pos] == TYPE_PREFIX {
        match read_marker(s, pos + 1) {
            Ok(m) => (Some(m), pos + 2),
            Err(e) => {
                return Err(e);
            },
        }
    } else {
        (None, pos)
    };
    if after_type >= s.len() {
        return Err(UbjsonError::Incomplete);
    }
    let (count, after_count) = if s[after_type] == COUNT_PREFIX {
        match decode_length_at(s, after_type + 1) {
            Ok((n, q)) => (Some(n), q),
            Err(e) => {
                return Err(e);
            },
        }
    } else {
        (None, after_type)
    };
    assert(nat_count(count) == match decode_count_prefix(s@, after_type as int) {
        Ok((c, _)) => c,
        Err(_) => None,
    });
    decode_entries_at(s, after_count, count, ty, object)
}

} // verus!
