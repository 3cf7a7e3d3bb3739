//! The canonical encoding of a value, and the encoder that produces it.

use vstd::prelude::*;
use crate::order::strictly_ascending;
use crate::parse::{parse_document, ParseError, MAX_DEPTH, MAX_INPUT_SIZE};
use crate::round_trip::lemma_round_trip;
use crate::text::{append_bytes, decimal, push_decimal};
use crate::value::{entry_keys, values_view, Bencode, Dict, Value};

verus! {

/// The encoding of a byte string: its length as a decimal numeral, a colon,
/// and the bytes themselves.
pub open spec fn string_encoding(s: Seq<u8>) -> Seq<u8> {
    decimal(s.len()) + seq![0x3au8] + s
}

/// The decimal numeral of an integer, with a minus sign before a negative one.
pub open spec fn integer_text(i: int) -> Seq<u8> {
    if i < 0 {
        seq![0x2du8] + decimal((-i) as nat)
    } else {
        decimal(i as nat)
    }
}

/// The encoding of an integer: `i`, its numeral, `e`.
pub open spec fn integer_encoding(i: int) -> Seq<u8> {
    seq![0x69u8] + integer_text(i) + seq![0x65u8]
}

/// The encoding of a value.
pub open spec fn encoding(v: Bencode) -> Seq<u8>
    decreases v, 0nat,
{
    match v {
        Bencode::Str(s) => string_encoding(s),
        Bencode::Int(i) => integer_encoding(i),
        Bencode::List(items) => seq![0x6cu8] + items_encoding(items, items.len()) + seq![0x65u8],
        Bencode::Dict(entries) => seq![0x64u8] + entries_encoding(entries, entries.len())
            + seq![0x65u8],
    }
}

/// The encodings of the first `n` values of `items`, one after the other.
pub open spec fn items_encoding(items: Seq<Bencode>, n: nat) -> Seq<u8>
    decreases items, n,
{
    if n == 0 || n > items.len() {
        Seq::empty()
    } else {
        items_encoding(items, (n - 1) as nat) + encoding(items[n - 1])
    }
}

/// The encodings of the first `n` entries of `entries`, one after the other:
/// each key as a byte string, followed by its value.
pub open spec fn entries_encoding(entries: Seq<(Seq<u8>, Bencode)>, n: nat) -> Seq<u8>
    decreases entries, n,
{
    if n == 0 || n > entries.len() {
        Seq::empty()
    } else {
        entries_encoding(entries, (n - 1) as nat) + string_encoding(entries[n - 1].0) + encoding(
            entries[n - 1].1,
        )
    }
}

/// Appends the encoding of the byte string `s` to `buf`.
pub fn encode_string(buf: &mut Vec<u8>, s: &[u8])
    ensures
        final(buf)@ == old(buf)@ + string_encoding(s@),
{
    push_decimal(buf, s.len() as u64);
    buf.push(0x3a);
    append_bytes(buf, s);
    assert(buf@ =~= old(buf)@ + string_encoding(s@));
}

/// Appends the encoding of the integer `i` to `buf`.
pub fn encode_integer(buf: &mut Vec<u8>, i: i32)
    ensures
        final(buf)@ == old(buf)@ + integer_encoding(i as int),
{
    buf.push(0x69);
    if i < 0 {
        buf.push(0x2d);
        let magnitude: u64 = (-(i as i64)) as u64;
        push_decimal(buf, magnitude);
    } else {
        push_decimal(buf, i as u64);
    }
    buf.push(0x65);
    assert(buf@ =~= old(buf)@ + integer_encoding(i as int));
}

/// Appends the encoding of the list of the values `vs` to `buf`. The list is
/// canonical, as every value is.
pub fn encode_list(buf: &mut Vec<u8>, vs: &Vec<Value>)
    ensures
        final(buf)@ == old(buf)@ + encoding(Bencode::List(values_view(*vs))),
        Bencode::List(values_view(*vs)).wf(),
    decreases values_view(*vs),
{
    let ghost items = values_view(*vs);
    buf.push(0x6c);
    let mut i: usize = 0;
    while i < vs.len()
        invariant
            0 <= i <= vs.len(),
            items == values_view(*vs),
            forall|j: int| 0 <= j < i ==> (#[trigger] items[j]).wf(),
            buf@ == old(buf)@ + seq![0x6cu8] + items_encoding(items, i as nat),
        decreases vs.len() - i,
    {
        assert(items[i as int] == vs[i as int]@);
        encode_value(buf, &vs[i]);
        i += 1;
        assert(buf@ =~= old(buf)@ + seq![0x6cu8] + items_encoding(items, i as nat));
    }
    buf.push(0x65);
    assert(buf@ =~= old(buf)@ + encoding(Bencode::List(items)));
}

/// Appends the encoding of the dictionary `d` to `buf`: its entries in
/// strictly ascending key order, whatever the order in which they were
/// inserted.
pub fn encode_dict(buf: &mut Vec<u8>, d: &Dict)
    ensures
        final(buf)@ == old(buf)@ + encoding(Bencode::Dict(d@)),
        strictly_ascending(entry_keys(d@)),
        Bencode::Dict(d@).wf(),
    decreases d@,
{
    let ghost entries = d@;
    buf.push(0x64);
    let n = d.len();
    let mut i: usize = 0;
    while i < n
        invariant
            0 <= i <= n,
            n == d@.len(),
            entries == d@,
            strictly_ascending(entry_keys(d@)),
            forall|j: int| 0 <= j < i ==> (#[trigger] entries[j]).1.wf(),
            buf@ == old(buf)@ + seq![0x64u8] + entries_encoding(entries, i as nat),
        decreases n - i,
    {
        encode_string(buf, d.key_at(i).as_slice());
        encode_value(buf, d.value_at(i));
        i += 1;
        assert(buf@ =~= old(buf)@ + seq![0x64u8] + entries_encoding(entries, i as nat));
    }
    buf.push(0x65);
    assert(buf@ =~= old(buf)@ + encoding(Bencode::Dict(entries)));
}

/// Appends the encoding of `value` to `buf`. The value is canonical, as
/// every value is.
pub fn encode_value(buf: &mut Vec<u8>, value: &Value)
    ensures
        final(buf)@ == old(buf)@ + encoding(value@),
        value@.wf(),
    decreases value@,
{
    match value {
        Value::Str(s) => encode_string(buf, s.as_slice()),
        Value::Int(i) => encode_integer(buf, *i),
        Value::List(vs) => {
            assert(value@->List_0 == values_view(*vs));
            encode_list(buf, vs)
        },
        Value::Dict(d) => {
            assert(value@->Dict_0 == d@);
            encode_dict(buf, d)
        },
    }
}

/// Encodes `value`. The result is the canonical encoding of the value, and
/// the parser reads it back as the value, wherever the value and the result
/// are within the parser's limits of depth and size.
pub fn encode(value: &Value) -> (out: Vec<u8>)
    ensures
        out@ == encoding(value@),
        value@.wf(),
        value@.fits_depth(MAX_DEPTH as nat) && out@.len() <= MAX_INPUT_SIZE ==> parse_document(
            out@,
        ) == Ok::<Bencode, ParseError>(value@),
{
    let mut buf: Vec<u8> = Vec::new();
    encode_value(&mut buf, value);
    assert(buf@ =~= encoding(value@));
    proof {
        if value@.fits_depth(MAX_DEPTH as nat) && buf@.len() <= MAX_INPUT_SIZE {
            lemma_round_trip(value@);
        }
    }
    buf
}

} // verus!
