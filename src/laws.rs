//! A canonical encoder, written as spec functions, and the laws that tie the
//! decoder to it.
use crate::container::Value;
use crate::error::UbjsonError;
use crate::grammar::{
    advances, be_uint, collect_entries, decode_container, decode_count_prefix,
    decode_element, decode_entries, decode_entry, decode_length, decode_text,
    decode_type_prefix, decode_value, end_byte, insert_entry, key_index,
    payload_width, scalar_value, COUNT_PREFIX, TYPE_PREFIX,
};
use crate::marker::{marker_at, marker_of_byte, Marker};
use vstd::prelude::*;
use vstd::utf8::{encode_utf8, encode_utf8_decode_utf8, encode_utf8_valid_utf8};

verus! {

broadcast use vstd::seq::group_seq_axioms;

/// The last `k` bytes of the big-endian representation of `n`.
pub open spec fn be_bytes(n: nat, k: nat) -> Seq<u8>
    decreases k,
{
    if k == 0 {
        Seq::empty()
    } else {
        be_bytes(n / 256, (k - 1) as nat).push((n % 256) as u8)
    }
}

/// `256` to the power `k`.
pub open spec fn pow256(k: nat) -> nat
    decreases k,
{
    if k == 0 { 1 } else { 256 * pow256((k - 1) as nat) }
}

proof fn lemma_pow256_values()
    ensures
        pow256(1) == 0x100,
        pow256(2) == 0x1_0000,
        pow256(4) == 0x1_0000_0000,
        pow256(8) == 0x1_0000_0000_0000_0000,
{
    reveal_with_fuel(pow256, 9);
}

/// Reading back `k` big-endian bytes of a number below `256^k` gives the
/// number.
pub proof fn lemma_be_bytes(n: nat, k: nat)
    requires
        n < pow256(k),
    ensures
        be_bytes(n, k).len() == k,
        be_uint(be_bytes(n, k)) == n,
    decreases k,
{
    if k > 0 {
        assert(n / 256 < pow256((k - 1) as nat)) by (nonlinear_arith)
            requires
                n < 256 * pow256((k - 1) as nat),
        ;
        lemma_be_bytes(n / 256, (k - 1) as nat);
        let b = be_bytes(n, k);
        assert(b.drop_last() =~= be_bytes(n / 256, (k - 1) as nat));
    }
}

/// The bytes of an integer value of marker `m` that holds `n`.
pub open spec fn encode_integer(m: Marker, n: nat) -> Seq<u8> {
    seq![m.spec_byte()] + be_bytes(n, payload_width(m) as nat)
}

/// Whether an integer marker can hold the non-negative number `n`.
pub open spec fn integer_holds(m: Marker, n: nat) -> bool {
    match m {
        Marker::Uint8 => n < 0x100,
        Marker::Int8 => n < 0x80,
        Marker::Int16 => n < 0x8000,
        Marker::Int32 => n < 0x8000_0000,
        Marker::Int64 => n < 0x8000_0000_0000_0000 && n <= usize::MAX,
        _ => false,
    }
}

/// Whether the bytes `e` stand in `s` from position `p` on.
pub open spec fn holds_at(s: Seq<u8>, p: int, e: Seq<u8>) -> bool {
    0 <= p && p + e.len() <= s.len() && s.subrange(p, p + e.len()) == e
}

proof fn lemma_holds_at_split(s: Seq<u8>, p: int, a: Seq<u8>, b: Seq<u8>)
    requires
        holds_at(s, p, a + b),
    ensures
        holds_at(s, p, a),
        holds_at(s, p + a.len(), b),
{
    assert(s.subrange(p, p + a.len()) =~= (a + b).subrange(0, a.len() as int));
    assert(s.subrange(p + a.len(), p + a.len() + b.len()) =~= (a + b).subrange(a.len() as int, (a + b).len() as int));
    assert((a + b).subrange(0, a.len() as int) =~= a);
    assert((a + b).subrange(a.len() as int, (a + b).len() as int) =~= b);
}

proof fn lemma_holds_at_byte(s: Seq<u8>, p: int, e: Seq<u8>)
    requires
        holds_at(s, p, e),
        e.len() > 0,
    ensures
        s[p] == e[0],
{
    assert(s.subrange(p, p + e.len())[0] == s[p]);
}

/// A size written as any integer kind that can hold it decodes to that
/// size, whatever bytes follow.
pub proof fn lemma_length_any_width(m: Marker, n: nat, s: Seq<u8>, p: int)
    requires
        integer_holds(m, n),
        holds_at(s, p, encode_integer(m, n)),
    ensures
        decode_length(s, p) == Ok::<(nat, int), crate::error::UbjsonError>((n, p + encode_integer(m, n).len())),
        encode_integer(m, n).len() == 1 + payload_width(m),
{
    let w = payload_width(m) as nat;
    lemma_pow256_values();
    lemma_be_bytes(n, w);
    lemma_holds_at_split(s, p, seq![m.spec_byte()], be_bytes(n, w));
    lemma_holds_at_byte(s, p, seq![m.spec_byte()]);
    assert(marker_of_byte(m.spec_byte()) == Some(m));
    let b = s.subrange(p + 1, p + 1 + w);
    assert(b == be_bytes(n, w));
    match m {
        Marker::Int8 => {
            assert(b[0] == (n % 256) as u8);
            let x = b[0];
            assert(x as int == n);
            assert(x < 0x80);
            assert((x as i8) as int == x as int) by (bit_vector)
                requires
                    x < 0x80u8,
            ;
        },
        Marker::Int16 => {
            let x = be_uint(b) as u16;
            assert(x as int == n);
            assert((x as i16) as int == x as int) by (bit_vector)
                requires
                    x < 0x8000u16,
            ;
        },
        Marker::Int32 => {
            let x = be_uint(b) as u32;
            assert(x as int == n);
            assert((x as i32) as int == x as int) by (bit_vector)
                requires
                    x < 0x8000_0000u32,
            ;
        },
        Marker::Int64 => {
            let x = be_uint(b) as u64;
            assert(x as int == n);
            assert((x as i64) as int == x as int) by (bit_vector)
                requires
                    x < 0x8000_0000_0000_0000u64,
            ;
        },
        _ => {
            assert(b[0] == (n % 256) as u8);
        },
    }
}

/// The prefixes of a counted container body: an optional declared element
/// type, then the count written as an integer of marker `m`.
pub open spec fn counted_prefix(ty: Option<Marker>, m: Marker, n: nat) -> Seq<u8> {
    match ty {
        Some(t) => seq![TYPE_PREFIX, t.spec_byte(), COUNT_PREFIX] + encode_integer(m, n),
        None => seq![COUNT_PREFIX] + encode_integer(m, n),
    }
}

/// A counted container whose count is zero is empty: it reads no element
/// and no end marker, whatever element type it declares, whatever integer
/// kind writes the count, and whatever bytes follow.
pub proof fn lemma_zero_count_is_empty(s: Seq<u8>, pos: int, object: bool, ty: Option<Marker>, m: Marker)
    requires
        integer_holds(m, 0),
        holds_at(s, pos, counted_prefix(ty, m, 0)),
    ensures
        decode_container(s, pos, object) == Ok::<(Value, int), UbjsonError>((
            if object { Value::Object(Seq::empty()) } else { Value::Array(Seq::empty()) },
            pos + counted_prefix(ty, m, 0).len(),
        )),
{
    let head: Seq<u8> = match ty {
        Some(t) => seq![TYPE_PREFIX, t.spec_byte(), COUNT_PREFIX],
        None => seq![COUNT_PREFIX],
    };
    let count = encode_integer(m, 0);
    lemma_holds_at_split(s, pos, head, count);
    assert(s.subrange(pos, pos + head.len())[0] == s[pos]);
    if ty is Some {
        assert(s.subrange(pos, pos + head.len())[1] == s[pos + 1]);
        assert(s.subrange(pos, pos + head.len())[2] == s[pos + 2]);
        assert(marker_of_byte(ty->0.spec_byte()) == Some(ty->0));
    }
    lemma_length_any_width(m, 0, s, pos + head.len());
    assert(Seq::<(Seq<char>, Value)>::empty().map_values(|e: (Seq<char>, Value)| e.1) =~= Seq::<Value>::empty());
}

/// The canonical encoding of a text: its UTF-8 byte count as an `Int64`,
/// then the bytes.
pub open spec fn encode_text(t: Seq<char>) -> Seq<u8> {
    encode_integer(Marker::Int64, encode_utf8(t).len()) + encode_utf8(t)
}

/// The canonical encoding of a value: containers unbounded and untyped,
/// every size an `Int64`.
pub open spec fn encode(v: Value) -> Seq<u8>
    decreases v,
{
    match v {
        Value::Null => seq![Marker::Null.spec_byte()],
        Value::Noop => seq![Marker::Noop.spec_byte()],
        Value::Boolean(b) => if b { seq![Marker::True.spec_byte()] } else { seq![Marker::False.spec_byte()] },
        Value::Int8(n) => seq![Marker::Int8.spec_byte(), n as u8],
        Value::Uint8(n) => seq![Marker::Uint8.spec_byte(), n],
        Value::Int16(n) => seq![Marker::Int16.spec_byte()] + be_bytes((n as u16) as nat, 2),
        Value::Int32(n) => seq![Marker::Int32.spec_byte()] + be_bytes((n as u32) as nat, 4),
        Value::Int64(n) => seq![Marker::Int64.spec_byte()] + be_bytes((n as u64) as nat, 8),
        Value::Float32(b) => seq![Marker::Float32.spec_byte()] + be_bytes(b as nat, 4),
        Value::Float64(b) => seq![Marker::Float64.spec_byte()] + be_bytes(b as nat, 8),
        Value::HighPrecisionNumber(t) => seq![Marker::HighPrecisionNumber.spec_byte()] + encode_text(t),
        Value::Char(c) => seq![Marker::Char.spec_byte(), (c as u32) as u8],
        Value::String(t) => seq![Marker::String.spec_byte()] + encode_text(t),
        Value::Array(items) => seq![Marker::ArrayStart.spec_byte()] + encode_items(items)
            + seq![Marker::ArrayEnd.spec_byte()],
        Value::Object(es) => seq![Marker::ObjectStart.spec_byte()] + encode_fields(es)
            + seq![Marker::ObjectEnd.spec_byte()],
    }
}

/// The encodings of `items`, one after another.
pub open spec fn encode_items(items: Seq<Value>) -> Seq<u8>
    decreases items,
{
    if items.len() == 0 {
        Seq::empty()
    } else {
        encode(items[0]) + encode_items(items.drop_first())
    }
}

/// The encodings of the entries `es`, each key before its value.
pub open spec fn encode_fields(es: Seq<(Seq<char>, Value)>) -> Seq<u8>
    decreases es,
{
    if es.len() == 0 {
        Seq::empty()
    } else {
        encode_text(es[0].0) + encode(es[0].1) + encode_fields(es.drop_first())
    }
}

/// Whether the UTF-8 bytes of a text can be counted by an `Int64` size.
pub open spec fn text_fits(t: Seq<char>) -> bool {
    integer_holds(Marker::Int64, encode_utf8(t).len())
}

/// Whether no two entries of `es` share a key.
pub open spec fn keys_unique(es: Seq<(Seq<char>, Value)>) -> bool {
    forall|i: int, j: int| 0 <= i < j < es.len() ==> es[i].0 != es[j].0
}

/// Whether a value can stand on the wire as it is: every `Char` a single
/// byte, every text countable, and object keys unique.
pub open spec fn encodable(v: Value) -> bool
    decreases v,
{
    match v {
        Value::Char(c) => (c as u32) < 0x100,
        Value::String(t) => text_fits(t),
        Value::HighPrecisionNumber(t) => text_fits(t),
        Value::Array(items) => all_encodable(items),
        Value::Object(es) => fields_encodable(es) && keys_unique(es),
        _ => true,
    }
}

/// Whether every value of `items` is encodable.
pub open spec fn all_encodable(items: Seq<Value>) -> bool
    decreases items,
{
    items.len() == 0 || (encodable(items[0]) && all_encodable(items.drop_first()))
}

/// Whether every key of `es` fits and every value is encodable.
pub open spec fn fields_encodable(es: Seq<(Seq<char>, Value)>) -> bool
    decreases es,
{
    es.len() == 0 || (text_fits(es[0].0) && encodable(es[0].1) && fields_encodable(es.drop_first()))
}

/// Whether a byte may open an element or entry of a container body: it is
/// neither a prefix byte nor an end marker.
pub open spec fn opens_element(b: u8) -> bool {
    b != TYPE_PREFIX && b != COUNT_PREFIX && b != Marker::ArrayEnd.spec_byte()
        && b != Marker::ObjectEnd.spec_byte()
}

proof fn lemma_encode_first_byte(v: Value)
    ensures
        encode(v).len() > 0,
        opens_element(encode(v)[0]),
        marker_of_byte(encode(v)[0]) is Some,
{
}

proof fn lemma_text_round_trip(t: Seq<char>, s: Seq<u8>, p: int)
    requires
        text_fits(t),
        holds_at(s, p, encode_text(t)),
    ensures
        decode_text(s, p) == Ok::<(Seq<char>, int), UbjsonError>((t, p + encode_text(t).len())),
{
    let b = encode_utf8(t);
    let head = encode_integer(Marker::Int64, b.len());
    lemma_holds_at_split(s, p, head, b);
    lemma_length_any_width(Marker::Int64, b.len(), s, p);
    encode_utf8_valid_utf8(t);
    encode_utf8_decode_utf8(t);
}

proof fn lemma_scalar_round_trip(v: Value, s: Seq<u8>, p: int)
    requires
        encodable(v),
        !(v is String || v is HighPrecisionNumber || v is Array || v is Object),
        holds_at(s, p, encode(v)),
    ensures
        decode_value(s, p) == Ok::<(Value, int), UbjsonError>((v, p + encode(v).len())),
{
    let e = encode(v);
    lemma_holds_at_byte(s, p, e);
    assert(seq![e[0]] + e.subrange(1, e.len() as int) =~= e);
    lemma_holds_at_split(s, p, seq![e[0]], e.subrange(1, e.len() as int));
    let m = marker_of_byte(e[0])->0;
    assert(marker_at(s, p) == Ok::<Marker, UbjsonError>(m));
    lemma_pow256_values();
    let w = payload_width(m);
    match v {
        Value::Int8(n) => {
            let b = s.subrange(p + 1, p + 1 + w);
            assert(b =~= e.subrange(1, e.len() as int));
            assert(((n as u8) as i8) == n) by (bit_vector);
            assert(scalar_value(m, b) == v);
        },
        Value::Int16(n) => {
            let x = n as u16;
            lemma_be_bytes(x as nat, 2);
            let b = s.subrange(p + 1, p + 1 + w);
            assert(b =~= be_bytes(x as nat, 2));
            assert((be_uint(b) as u16) == x);
            assert((x as i16) == n) by (bit_vector)
                requires
                    x == n as u16,
            ;
            assert(scalar_value(m, b) == v);
        },
        Value::Int32(n) => {
            let x = n as u32;
            lemma_be_bytes(x as nat, 4);
            let b = s.subrange(p + 1, p + 1 + w);
            assert(b =~= be_bytes(x as nat, 4));
            assert((be_uint(b) as u32) == x);
            assert((x as i32) == n) by (bit_vector)
                requires
                    x == n as u32,
            ;
            assert(scalar_value(m, b) == v);
        },
        Value::Int64(n) => {
            let x = n as u64;
            lemma_be_bytes(x as nat, 8);
            let b = s.subrange(p + 1, p + 1 + w);
            assert(b =~= be_bytes(x as nat, 8));
            assert((be_uint(b) as u64) == x);
            assert((x as i64) == n) by (bit_vector)
                requires
                    x == n as u64,
            ;
            assert(scalar_value(m, b) == v);
        },
        Value::Float32(x) => {
            lemma_be_bytes(x as nat, 4);
            let b = s.subrange(p + 1, p + 1 + w);
            assert(b =~= be_bytes(x as nat, 4));
            assert(scalar_value(m, b) == v);
        },
        Value::Float64(x) => {
            lemma_be_bytes(x as nat, 8);
            let b = s.subrange(p + 1, p + 1 + w);
            assert(b =~= be_bytes(x as nat, 8));
            assert(scalar_value(m, b) == v);
        },
        Value::Char(c) => {
            let b = s.subrange(p + 1, p + 1 + w);
            assert(b =~= e.subrange(1, e.len() as int));
            let u = c as u32;
            vstd::utf8::char_u32_cast(c, u);
            assert(b[0] as int == u as int);
            assert(scalar_value(m, b) == v);
        },
        _ => {
            let b = s.subrange(p + 1, p + 1 + w);
            assert(scalar_value(m, b) == v);
        },
    }
}

proof fn lemma_key_absent(m: Seq<(Seq<char>, Value)>, k: Seq<char>)
    requires
        forall|i: int| 0 <= i < m.len() ==> m[i].0 != k,
    ensures
        key_index(m, k) == -1,
    decreases m.len(),
{
    if m.len() > 0 {
        assert(m.last() == m[m.len() - 1]);
        lemma_key_absent(m.drop_last(), k);
    }
}

/// Entries whose keys are all distinct build a mapping that holds them
/// unchanged, in order.
pub proof fn lemma_collect_unique(es: Seq<(Seq<char>, Value)>)
    requires
        keys_unique(es),
    ensures
        collect_entries(es) == es,
    decreases es.len(),
{
    if es.len() > 0 {
        let init = es.drop_last();
        assert(keys_unique(init));
        lemma_collect_unique(init);
        assert forall|i: int| 0 <= i < init.len() implies init[i].0 != es.last().0 by {
            assert(es[i].0 != es[es.len() - 1].0);
        }
        lemma_key_absent(init, es.last().0);
        assert(init.push(es.last()) =~= es);
    }
}

/// Adding an entry leaves exactly one entry with its key, holding its value.
pub proof fn lemma_insert_entry_last_wins(m: Seq<(Seq<char>, Value)>, k: Seq<char>, v: Value)
    requires
        keys_unique(m),
    ensures
        keys_unique(insert_entry(m, k, v)),
        0 <= key_index(insert_entry(m, k, v), k),
        insert_entry(m, k, v)[key_index(insert_entry(m, k, v), k)] == (k, v),
        forall|i: int| 0 <= i < insert_entry(m, k, v).len() && i != key_index(insert_entry(m, k, v), k)
            ==> insert_entry(m, k, v)[i].0 != k,
    decreases m.len(),
{
    lemma_key_index_bounds(m, k);
    let r = insert_entry(m, k, v);
    if key_index(m, k) >= 0 {
        let i = key_index(m, k);
        lemma_key_index_is_only(m, k);
        lemma_key_index_of_unique(r, k, i);
    } else {
        lemma_key_absent_from_index(m, k);
        lemma_key_index_of_unique(r, k, m.len() as int);
    }
}

/// The mapping that any sequence of entries builds holds each key once.
pub proof fn lemma_collect_keys_unique(es: Seq<(Seq<char>, Value)>)
    ensures
        keys_unique(collect_entries(es)),
    decreases es.len(),
{
    if es.len() > 0 {
        lemma_collect_keys_unique(es.drop_last());
        lemma_insert_entry_last_wins(collect_entries(es.drop_last()), es.last().0, es.last().1);
    }
}

proof fn lemma_key_index_bounds(m: Seq<(Seq<char>, Value)>, k: Seq<char>)
    ensures
        -1 <= key_index(m, k) < m.len(),
        key_index(m, k) >= 0 ==> m[key_index(m, k)].0 == k,
    decreases m.len(),
{
    if m.len() > 0 {
        lemma_key_index_bounds(m.drop_last(), k);
    }
}

proof fn lemma_key_absent_from_index(m: Seq<(Seq<char>, Value)>, k: Seq<char>)
    requires
        key_index(m, k) == -1,
    ensures
        forall|i: int| 0 <= i < m.len() ==> m[i].0 != k,
    decreases m.len(),
{
    if m.len() > 0 {
        lemma_key_absent_from_index(m.drop_last(), k);
        assert forall|i: int| 0 <= i < m.len() implies m[i].0 != k by {
            if i < m.len() - 1 {
                assert(m.drop_last()[i] == m[i]);
            }
        }
    }
}

proof fn lemma_key_index_is_only(m: Seq<(Seq<char>, Value)>, k: Seq<char>)
    requires
        keys_unique(m),
        key_index(m, k) >= 0,
    ensures
        forall|i: int| 0 <= i < m.len() && i != key_index(m, k) ==> m[i].0 != k,
{
    lemma_key_index_bounds(m, k);
}

proof fn lemma_key_index_of_unique(m: Seq<(Seq<char>, Value)>, k: Seq<char>, i: int)
    requires
        0 <= i < m.len(),
        m[i].0 == k,
        forall|j: int| 0 <= j < m.len() && j != i ==> m[j].0 != k,
    ensures
        key_index(m, k) == i,
    decreases m.len(),
{
    if i < m.len() - 1 {
        assert(m.last() == m[m.len() - 1]);
        assert forall|j: int| 0 <= j < m.drop_last().len() && j != i implies m.drop_last()[j].0 != k by {
            assert(m.drop_last()[j] == m[j]);
        }
        lemma_key_index_of_unique(m.drop_last(), k, i);
    }
}

proof fn lemma_value_round_trip_at(v: Value, s: Seq<u8>, p: int)
    requires
        encodable(v),
        holds_at(s, p, encode(v)),
    ensures
        decode_value(s, p) == Ok::<(Value, int), UbjsonError>((v, p + encode(v).len())),
    decreases v,
{
    let e = encode(v);
    match v {
        Value::String(t) => {
            lemma_holds_at_split(s, p, seq![Marker::String.spec_byte()], encode_text(t));
            lemma_holds_at_byte(s, p, e);
            lemma_text_round_trip(t, s, p + 1);
        },
        Value::HighPrecisionNumber(t) => {
            lemma_holds_at_split(s, p, seq![Marker::HighPrecisionNumber.spec_byte()], encode_text(t));
            lemma_holds_at_byte(s, p, e);
            lemma_text_round_trip(t, s, p + 1);
        },
        Value::Array(items) => {
            let open = seq![Marker::ArrayStart.spec_byte()];
            let body = encode_items(items) + seq![Marker::ArrayEnd.spec_byte()];
            assert(e =~= open + body);
            lemma_holds_at_split(s, p, open, body);
            lemma_holds_at_byte(s, p, e);
            lemma_items_round_trip(items, s, p + 1);
            lemma_body_opens(s, p + 1, body, false);
            let es = items.map_values(|x: Value| (Seq::<char>::empty(), x));
            assert(es.map_values(|en: (Seq<char>, Value)| en.1) =~= items);
            assert(decode_type_prefix(s, p + 1) == Ok::<(Option<Marker>, int), UbjsonError>((None, p + 1)));
            assert(decode_count_prefix(s, p + 1) == Ok::<(Option<nat>, int), UbjsonError>((None, p + 1)));
        },
        Value::Object(fields) => {
            let open = seq![Marker::ObjectStart.spec_byte()];
            let body = encode_fields(fields) + seq![Marker::ObjectEnd.spec_byte()];
            assert(e =~= open + body);
            lemma_holds_at_split(s, p, open, body);
            lemma_holds_at_byte(s, p, e);
            lemma_fields_round_trip(fields, s, p + 1);
            lemma_body_opens(s, p + 1, body, true);
            lemma_collect_unique(fields);
            assert(decode_type_prefix(s, p + 1) == Ok::<(Option<Marker>, int), UbjsonError>((None, p + 1)));
            assert(decode_count_prefix(s, p + 1) == Ok::<(Option<nat>, int), UbjsonError>((None, p + 1)));
        },
        _ => {
            lemma_scalar_round_trip(v, s, p);
        },
    }
}

proof fn lemma_body_opens(s: Seq<u8>, q: int, body: Seq<u8>, object: bool)
    requires
        holds_at(s, q, body),
        body.len() > 0,
        opens_element(body[0]) || body[0] == end_byte(object),
    ensures
        q < s.len(),
        s[q] != TYPE_PREFIX,
        s[q] != COUNT_PREFIX,
{
    lemma_holds_at_byte(s, q, body);
}

proof fn lemma_items_round_trip(items: Seq<Value>, s: Seq<u8>, q: int)
    requires
        all_encodable(items),
        holds_at(s, q, encode_items(items) + seq![Marker::ArrayEnd.spec_byte()]),
    ensures
        decode_entries(s, q, None, None, false) == Ok::<(Seq<(Seq<char>, Value)>, int), UbjsonError>((
            items.map_values(|x: Value| (Seq::<char>::empty(), x)),
            q + encode_items(items).len() + 1,
        )),
        (encode_items(items) + seq![Marker::ArrayEnd.spec_byte()]).len() > 0,
        opens_element((encode_items(items) + seq![Marker::ArrayEnd.spec_byte()])[0])
            || (encode_items(items) + seq![Marker::ArrayEnd.spec_byte()])[0] == end_byte(false),
    decreases items,
{
    let body = encode_items(items) + seq![Marker::ArrayEnd.spec_byte()];
    lemma_holds_at_byte(s, q, body);
    if items.len() == 0 {
        assert(items.map_values(|x: Value| (Seq::<char>::empty(), x)) =~= Seq::<(Seq<char>, Value)>::empty());
        assert(encode_items(items) =~= Seq::<u8>::empty());
        assert(body[0] == end_byte(false));
        assert(s[q] == end_byte(false));
    } else {
        let e0 = encode(items[0]);
        let tail = encode_items(items.drop_first()) + seq![Marker::ArrayEnd.spec_byte()];
        assert(body =~= e0 + tail);
        lemma_holds_at_split(s, q, e0, tail);
        lemma_encode_first_byte(items[0]);
        assert(body[0] == e0[0]);
        lemma_value_round_trip_at(items[0], s, q);
        lemma_items_round_trip(items.drop_first(), s, q + e0.len());
        assert(s[q] != end_byte(false));
        assert(decode_element(s, q, None) == Ok::<(Value, int), UbjsonError>((items[0], q + e0.len())));
        assert(decode_entry(s, q, None, false) == Ok::<((Seq<char>, Value), int), UbjsonError>(((Seq::<char>::empty(), items[0]), q + e0.len())));
        assert(advances(q, q + e0.len(), s.len() as int));
        let mapped = items.map_values(|x: Value| (Seq::<char>::empty(), x));
        assert(seq![(Seq::<char>::empty(), items[0])]
            + items.drop_first().map_values(|x: Value| (Seq::<char>::empty(), x)) =~= mapped);
    }
}

proof fn lemma_fields_round_trip(fields: Seq<(Seq<char>, Value)>, s: Seq<u8>, q: int)
    requires
        fields_encodable(fields),
        holds_at(s, q, encode_fields(fields) + seq![Marker::ObjectEnd.spec_byte()]),
    ensures
        decode_entries(s, q, None, None, true) == Ok::<(Seq<(Seq<char>, Value)>, int), UbjsonError>((
            fields,
            q + encode_fields(fields).len() + 1,
        )),
        (encode_fields(fields) + seq![Marker::ObjectEnd.spec_byte()]).len() > 0,
        opens_element((encode_fields(fields) + seq![Marker::ObjectEnd.spec_byte()])[0])
            || (encode_fields(fields) + seq![Marker::ObjectEnd.spec_byte()])[0] == end_byte(true),
    decreases fields,
{
    let body = encode_fields(fields) + seq![Marker::ObjectEnd.spec_byte()];
    lemma_holds_at_byte(s, q, body);
    if fields.len() == 0 {
        assert(fields =~= Seq::<(Seq<char>, Value)>::empty());
        assert(encode_fields(fields) =~= Seq::<u8>::empty());
        assert(body[0] == end_byte(true));
        assert(s[q] == end_byte(true));
    } else {
        let k = encode_text(fields[0].0);
        let e0 = encode(fields[0].1);
        let tail = encode_fields(fields.drop_first()) + seq![Marker::ObjectEnd.spec_byte()];
        assert(body =~= k + (e0 + tail));
        lemma_holds_at_split(s, q, k, e0 + tail);
        lemma_holds_at_split(s, q + k.len(), e0, tail);
        assert(k[0] == Marker::Int64.spec_byte());
        assert(body[0] == k[0]);
        lemma_text_round_trip(fields[0].0, s, q);
        lemma_value_round_trip_at(fields[0].1, s, q + k.len());
        lemma_fields_round_trip(fields.drop_first(), s, q + k.len() + e0.len());
        assert(s[q] != end_byte(true));
        assert(advances(q, q + k.len(), s.len() as int));
        assert(decode_element(s, q + k.len(), None) == Ok::<(Value, int), UbjsonError>((fields[0].1, q + k.len() + e0.len())));
        assert(decode_entry(s, q, None, true) == Ok::<((Seq<char>, Value), int), UbjsonError>((fields[0], q + k.len() + e0.len())));
        assert(advances(q, q + k.len() + e0.len(), s.len() as int));
        assert(seq![fields[0]] + fields.drop_first() =~= fields);
    }
}

/// Decoding the canonical encoding of an encodable value gives the value
/// back and consumes exactly the encoding, whatever bytes follow it.
pub proof fn lemma_decode_encode(v: Value, rest: Seq<u8>)
    requires
        encodable(v),
    ensures
        decode_value(encode(v) + rest, 0) == Ok::<(Value, int), UbjsonError>((v, encode(v).len() as int)),
{
    let s = encode(v) + rest;
    assert(s.subrange(0, encode(v).len() as int) =~= encode(v));
    lemma_value_round_trip_at(v, s, 0);
}

} // verus!
