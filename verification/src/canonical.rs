//! The parser accepts canonical encodings only.
//!
//! The lemmas of this module show that whatever the parser reads as a value
//! is, byte for byte, the encoding of that value, and that the value is
//! canonical: every input has at most one reading, and every value exactly
//! one encoding that is read as it.

use vstd::prelude::*;
use crate::encode::{
    encoding,
    entries_encoding,
    integer_encoding,
    items_encoding,
    string_encoding,
};
use crate::order::{bytes_lt, lemma_lt_transitive, strictly_ascending};
use crate::parse::{
    digits_count,
    lemma_digits_count,
    lemma_entries_advance,
    lemma_items_advance,
    lemma_value_advances,
    parse_document,
    parse_entries_at,
    parse_integer_at,
    parse_items_at,
    parse_string_at,
    parse_value_at,
    ParseError,
    MAX_DEPTH,
    MAX_INPUT_SIZE,
};
use crate::round_trip::{lemma_round_trip, lemma_round_trip_line_feed};
use crate::text::{
    decimal,
    digits_value,
    is_canonical_numeral,
    is_digit,
    lemma_decimal_canonical,
    lemma_value_decimal,
};
use crate::value::{entry_keys, Bencode};

verus! {

/// The digits that open a string or follow the sign of an integer, once the
/// parser has accepted them, are the numeral of their value.
proof fn lemma_numeral_read(s: Seq<u8>, first: int)
    requires
        0 <= first <= s.len(),
        digits_count(s, first) > 0,
        s[first] == 0x30u8 ==> digits_count(s, first) == 1,
    ensures
        decimal(digits_value(s.subrange(first, first + digits_count(s, first)))) == s.subrange(
            first,
            first + digits_count(s, first),
        ),
{
    let end = first + digits_count(s, first);
    let numeral = s.subrange(first, end);
    lemma_digits_count(s, first);
    assert(is_canonical_numeral(numeral)) by {
        assert forall|i: int| 0 <= i < numeral.len() implies is_digit(#[trigger] numeral[i]) by {
            assert(numeral[i] == s[first + i]);
        }
        assert(numeral[0] == s[first]);
    }
    lemma_value_decimal(numeral);
}

/// What is read as a string is the encoding of that string.
pub proof fn lemma_string_canonical(s: Seq<u8>, pos: int)
    requires
        0 <= pos <= s.len(),
        parse_string_at(s, pos) is Ok,
    ensures
        s.subrange(pos, parse_string_at(s, pos)->Ok_0.1) == string_encoding(
            parse_string_at(s, pos)->Ok_0.0,
        ),
{
    let (bytes, next) = parse_string_at(s, pos)->Ok_0;
    lemma_numeral_read(s, pos);
    lemma_digits_count(s, pos);
    assert(s.subrange(pos, next) =~= string_encoding(bytes));
}

/// What is read as an integer is the encoding of that integer, which fits in
/// 32 signed bits.
pub proof fn lemma_integer_canonical(s: Seq<u8>, pos: int)
    requires
        parse_integer_at(s, pos) is Ok,
    ensures
        parse_integer_at(s, pos)->Ok_0.0 is Int,
        parse_integer_at(s, pos)->Ok_0.0.wf(),
        s.subrange(pos, parse_integer_at(s, pos)->Ok_0.1) == encoding(
            parse_integer_at(s, pos)->Ok_0.0,
        ),
{
    let (value, next) = parse_integer_at(s, pos)->Ok_0;
    let number = value->Int_0;
    let negative = s[pos + 1] == 0x2du8;
    let first = if negative {
        pos + 2
    } else {
        pos + 1
    };
    lemma_numeral_read(s, first);
    lemma_digits_count(s, first);
    let end = first + digits_count(s, first);
    let magnitude = digits_value(s.subrange(first, end));
    lemma_decimal_canonical(magnitude);
    assert(decimal(magnitude)[0] == s[first]);
    assert(s.subrange(pos, next) =~= integer_encoding(number));
}

/// The encodings of a value and of `m` values after it are the encoding of
/// the first followed by those of the others.
pub proof fn lemma_items_encoding_cons(item: Bencode, rest: Seq<Bencode>, m: nat)
    requires
        m <= rest.len(),
    ensures
        items_encoding(seq![item] + rest, m + 1) == encoding(item) + items_encoding(rest, m),
    decreases m,
{
    let all = seq![item] + rest;
    if m == 0 {
        assert(all[0] == item);
        assert(items_encoding(all, 0) =~= Seq::<u8>::empty());
        assert(items_encoding(all, 1) =~= encoding(item));
        assert(encoding(item) + items_encoding(rest, 0) =~= encoding(item));
    } else {
        lemma_items_encoding_cons(item, rest, (m - 1) as nat);
        assert(all[m as int] == rest[m - 1]);
        assert(items_encoding(all, m + 1) =~= encoding(item) + items_encoding(rest, m));
    }
}

/// The encodings of an entry and of `m` entries after it are the encoding of
/// the first followed by those of the others.
pub proof fn lemma_entries_encoding_cons(
    entry: (Seq<u8>, Bencode),
    rest: Seq<(Seq<u8>, Bencode)>,
    m: nat,
)
    requires
        m <= rest.len(),
    ensures
        entries_encoding(seq![entry] + rest, m + 1) == string_encoding(entry.0) + encoding(entry.1)
            + entries_encoding(rest, m),
    decreases m,
{
    let all = seq![entry] + rest;
    if m == 0 {
        assert(all[0] == entry);
        assert(entries_encoding(all, 0) =~= Seq::<u8>::empty());
        assert(entries_encoding(all, 1) =~= string_encoding(entry.0) + encoding(entry.1));
        assert(string_encoding(entry.0) + encoding(entry.1) + entries_encoding(rest, 0)
            =~= string_encoding(entry.0) + encoding(entry.1));
    } else {
        lemma_entries_encoding_cons(entry, rest, (m - 1) as nat);
        assert(all[m as int] == rest[m - 1]);
        assert(entries_encoding(all, m + 1) =~= string_encoding(entry.0) + encoding(entry.1)
            + entries_encoding(rest, m));
    }
}

/// What is read as a value is the encoding of that value, and the value is
/// canonical and nests no deeper than allowed.
pub proof fn lemma_value_canonical(s: Seq<u8>, pos: int, depth: nat)
    requires
        parse_value_at(s, pos, depth) is Ok,
    ensures
        parse_value_at(s, pos, depth)->Ok_0.0.wf(),
        parse_value_at(s, pos, depth)->Ok_0.0.fits_depth(depth),
        s.subrange(pos, parse_value_at(s, pos, depth)->Ok_0.1) == encoding(
            parse_value_at(s, pos, depth)->Ok_0.0,
        ),
    decreases s.len() - pos, 1nat,
{
    let (value, next) = parse_value_at(s, pos, depth)->Ok_0;
    lemma_value_advances(s, pos, depth);
    if is_digit(s[pos]) {
        lemma_string_canonical(s, pos);
    } else if s[pos] == 0x69u8 {
        lemma_integer_canonical(s, pos);
    } else if s[pos] == 0x6cu8 {
        let below = (depth - 1) as nat;
        lemma_items_canonical(s, pos + 1, below);
        let items = parse_items_at(s, pos + 1, below)->Ok_0.0;
        assert(value == Bencode::List(items));
        assert(s.subrange(pos, next) =~= seq![0x6cu8] + s.subrange(pos + 1, next));
    } else {
        let below = (depth - 1) as nat;
        lemma_entries_canonical(s, pos + 1, below, None);
        let entries = parse_entries_at(s, pos + 1, below, None)->Ok_0.0;
        assert(value == Bencode::Dict(entries));
        assert(s.subrange(pos, next) =~= seq![0x64u8] + s.subrange(pos + 1, next));
    }
}

/// What is read as the values of a list is their encodings and the closing
/// `e`, and each value is canonical and nests no deeper than allowed.
pub proof fn lemma_items_canonical(s: Seq<u8>, pos: int, depth: nat)
    requires
        parse_items_at(s, pos, depth) is Ok,
    ensures
        forall|i: int|
            0 <= i < parse_items_at(s, pos, depth)->Ok_0.0.len() ==> (
            #[trigger] parse_items_at(s, pos, depth)->Ok_0.0[i]).wf(),
        forall|i: int|
            0 <= i < parse_items_at(s, pos, depth)->Ok_0.0.len() ==> (
            #[trigger] parse_items_at(s, pos, depth)->Ok_0.0[i]).fits_depth(depth),
        s.subrange(pos, parse_items_at(s, pos, depth)->Ok_0.1) == items_encoding(
            parse_items_at(s, pos, depth)->Ok_0.0,
            parse_items_at(s, pos, depth)->Ok_0.0.len(),
        ) + seq![0x65u8],
    decreases s.len() - pos, 2nat,
{
    let (items, end) = parse_items_at(s, pos, depth)->Ok_0;
    if s[pos] == 0x65u8 {
        assert(s.subrange(pos, end) =~= items_encoding(items, 0) + seq![0x65u8]);
    } else {
        let (item, next) = parse_value_at(s, pos, depth)->Ok_0;
        let (rest, stop) = parse_items_at(s, next, depth)->Ok_0;
        lemma_value_canonical(s, pos, depth);
        lemma_items_canonical(s, next, depth);
        lemma_items_advance(s, next, depth);
        assert(items == seq![item] + rest);
        assert forall|i: int| 0 <= i < items.len() implies (#[trigger] items[i]).wf()
            && items[i].fits_depth(depth) by {
            if i > 0 {
                assert(items[i] == rest[i - 1]);
            }
        }
        lemma_items_encoding_cons(item, rest, rest.len());
        assert(s.subrange(pos, end) =~= s.subrange(pos, next) + s.subrange(next, end));
        assert(s.subrange(pos, end) =~= items_encoding(items, items.len()) + seq![0x65u8]);
    }
}

/// What is read as the entries of a dictionary is their encodings and the
/// closing `e`; their keys ascend strictly, starting above `previous`, and
/// each value is canonical and nests no deeper than allowed.
pub proof fn lemma_entries_canonical(
    s: Seq<u8>,
    pos: int,
    depth: nat,
    previous: Option<Seq<u8>>,
)
    requires
        parse_entries_at(s, pos, depth, previous) is Ok,
    ensures
        strictly_ascending(entry_keys(parse_entries_at(s, pos, depth, previous)->Ok_0.0)),
        previous is Some ==> forall|i: int|
            0 <= i < parse_entries_at(s, pos, depth, previous)->Ok_0.0.len() ==> bytes_lt(
                previous->0,
                (#[trigger] parse_entries_at(s, pos, depth, previous)->Ok_0.0[i]).0,
            ),
        forall|i: int|
            0 <= i < parse_entries_at(s, pos, depth, previous)->Ok_0.0.len() ==> (
            #[trigger] parse_entries_at(s, pos, depth, previous)->Ok_0.0[i]).1.wf(),
        forall|i: int|
            0 <= i < parse_entries_at(s, pos, depth, previous)->Ok_0.0.len() ==> (
            #[trigger] parse_entries_at(s, pos, depth, previous)->Ok_0.0[i]).1.fits_depth(depth),
        s.subrange(pos, parse_entries_at(s, pos, depth, previous)->Ok_0.1) == entries_encoding(
            parse_entries_at(s, pos, depth, previous)->Ok_0.0,
            parse_entries_at(s, pos, depth, previous)->Ok_0.0.len(),
        ) + seq![0x65u8],
    decreases s.len() - pos, 2nat,
{
    let (entries, end) = parse_entries_at(s, pos, depth, previous)->Ok_0;
    if s[pos] == 0x65u8 {
        assert(s.subrange(pos, end) =~= entries_encoding(entries, 0) + seq![0x65u8]);
    } else {
        let (key, middle) = parse_string_at(s, pos)->Ok_0;
        let (value, next) = parse_value_at(s, middle, depth)->Ok_0;
        let (rest, stop) = parse_entries_at(s, next, depth, Some(key))->Ok_0;
        lemma_string_canonical(s, pos);
        lemma_value_canonical(s, middle, depth);
        lemma_entries_canonical(s, next, depth, Some(key));
        lemma_entries_advance(s, next, depth, Some(key));
        assert(entries == seq![(key, value)] + rest);
        assert forall|i: int| 0 <= i < entries.len() implies (#[trigger] entries[i]).1.wf()
            && entries[i].1.fits_depth(depth) by {
            if i > 0 {
                assert(entries[i] == rest[i - 1]);
            }
        }
        let keys = entry_keys(entries);
        assert forall|i: int, j: int| 0 <= i < j < keys.len() implies bytes_lt(
            #[trigger] keys[i],
            #[trigger] keys[j],
        ) by {
            assert(entries[j] == rest[j - 1]);
            if i > 0 {
                assert(entries[i] == rest[i - 1]);
                assert(entry_keys(rest)[i - 1] == keys[i] && entry_keys(rest)[j - 1] == keys[j]);
            }
        }
        if previous is Some {
            assert forall|i: int| 0 <= i < entries.len() implies bytes_lt(
                previous->0,
                (#[trigger] entries[i]).0,
            ) by {
                if i > 0 {
                    assert(entries[i] == rest[i - 1]);
                    lemma_lt_transitive(previous->0, key, rest[i - 1].0);
                }
            }
        }
        lemma_entries_encoding_cons((key, value), rest, rest.len());
        assert(s.subrange(pos, end) =~= s.subrange(pos, middle) + s.subrange(middle, next)
            + s.subrange(next, end));
        assert(s.subrange(pos, end) =~= entries_encoding(entries, entries.len())
            + seq![0x65u8]);
    }
}

/// An input that parses is the encoding of the value it parses as, or that
/// encoding and one line feed; the value is canonical and nests at most
/// [`MAX_DEPTH`] levels deep.
pub proof fn lemma_parse_canonical(s: Seq<u8>)
    requires
        parse_document(s) is Ok,
    ensures
        parse_document(s)->Ok_0.wf(),
        parse_document(s)->Ok_0.fits_depth(MAX_DEPTH as nat),
        s.len() <= MAX_INPUT_SIZE,
        s == encoding(parse_document(s)->Ok_0) || s == encoding(parse_document(s)->Ok_0)
            + seq![0x0au8],
{
    let (value, end) = parse_value_at(s, 0, MAX_DEPTH as nat)->Ok_0;
    lemma_value_canonical(s, 0, MAX_DEPTH as nat);
    if end == s.len() {
        assert(s.subrange(0, end) =~= s);
    } else {
        assert(s =~= s.subrange(0, end) + seq![0x0au8]);
    }
}

/// The parser accepts exactly the canonical encodings within its limits:
/// an input parses as a value if and only if the value is canonical and
/// nests at most [`MAX_DEPTH`] levels deep, and the input is at most
/// [`MAX_INPUT_SIZE`] bytes long and is the encoding of the value, with or
/// without one line feed after it.
pub proof fn lemma_parse_accepts_exactly(s: Seq<u8>, v: Bencode)
    ensures
        parse_document(s) == Ok::<Bencode, ParseError>(v) <==> {
            &&& v.wf()
            &&& v.fits_depth(MAX_DEPTH as nat)
            &&& s.len() <= MAX_INPUT_SIZE
            &&& (s == encoding(v) || s == encoding(v) + seq![0x0au8])
        },
{
    if parse_document(s) == Ok::<Bencode, ParseError>(v) {
        lemma_parse_canonical(s);
    }
    if v.wf() && v.fits_depth(MAX_DEPTH as nat) && s.len() <= MAX_INPUT_SIZE {
        if s == encoding(v) {
            lemma_round_trip(v);
        } else if s == encoding(v) + seq![0x0au8] {
            lemma_round_trip_line_feed(v);
        }
    }
}

} // verus!
