//! Parsing undoes encoding.
//!
//! The lemmas of this module show that the parser reads the encoding of any
//! canonical value back as that value, wherever the encoding stands in an
//! input, and that the whole-input parser does so for every canonical value
//! within its limits of depth and size.

use vstd::prelude::*;
use crate::encode::{
    encoding,
    entries_encoding,
    integer_encoding,
    items_encoding,
    string_encoding,
};
use crate::order::{bytes_lt, strictly_ascending};
use crate::parse::{
    advances,
    lemma_digits_count_is,
    parse_document,
    parse_entries_at,
    parse_integer_at,
    parse_integer_numeric_part_at,
    parse_items_at,
    parse_string_at,
    parse_value_at,
    ParseError,
    MAX_DEPTH,
    MAX_INPUT_SIZE,
};
use crate::text::{decimal, is_digit, lemma_decimal_canonical, lemma_decimal_value};
use crate::value::{entry_keys, Bencode};

verus! {

/// Whether the bytes `part` stand in `s` from position `pos` on.
pub open spec fn holds_at(s: Seq<u8>, pos: int, part: Seq<u8>) -> bool {
    &&& 0 <= pos
    &&& pos + part.len() <= s.len()
    &&& s.subrange(pos, pos + part.len()) == part
}

/// Each byte of a part that stands in `s` is the byte of `s` at its place.
pub proof fn lemma_holds_at_index(s: Seq<u8>, pos: int, part: Seq<u8>, i: int)
    requires
        holds_at(s, pos, part),
        0 <= i < part.len(),
    ensures
        s[pos + i] == part[i],
{
    assert(s.subrange(pos, pos + part.len())[i] == s[pos + i]);
}

/// A piece of a part that stands in `s` stands in `s` too.
pub proof fn lemma_holds_at_part(
    s: Seq<u8>,
    pos: int,
    whole: Seq<u8>,
    offset: int,
    part: Seq<u8>,
)
    requires
        holds_at(s, pos, whole),
        0 <= offset,
        offset + part.len() <= whole.len(),
        whole.subrange(offset, offset + part.len()) == part,
    ensures
        holds_at(s, pos + offset, part),
{
    assert(s.subrange(pos + offset, pos + offset + part.len()) =~= s.subrange(
        pos,
        pos + whole.len(),
    ).subrange(offset, offset + part.len()));
}

/// The encoding of a value has two bytes at least, and its first byte tells
/// the kind of the value.
pub proof fn lemma_encoding_starts(v: Bencode)
    ensures
        encoding(v).len() >= 2,
        v is Str ==> is_digit(encoding(v)[0]),
        v is Int ==> encoding(v)[0] == 0x69u8,
        v is List ==> encoding(v)[0] == 0x6cu8,
        v is Dict ==> encoding(v)[0] == 0x64u8,
{
    match v {
        Bencode::Str(bytes) => {
            lemma_decimal_canonical(bytes.len());
            assert(encoding(v)[0] == decimal(bytes.len())[0]);
        },
        Bencode::Int(i) => {},
        Bencode::List(items) => {},
        Bencode::Dict(entries) => {},
    }
}

/// The encoding of a string, wherever it stands, is read back as the string.
pub proof fn lemma_string_round_trip(s: Seq<u8>, pos: int, bytes: Seq<u8>)
    requires
        holds_at(s, pos, string_encoding(bytes)),
    ensures
        parse_string_at(s, pos) == Ok::<(Seq<u8>, int), ParseError>(
            (bytes, pos + string_encoding(bytes).len()),
        ),
{
    let numeral = decimal(bytes.len());
    let enc = string_encoding(bytes);
    let colon = pos + numeral.len();
    lemma_decimal_canonical(bytes.len());
    lemma_decimal_value(bytes.len());
    assert forall|i: int| pos <= i < colon implies is_digit(#[trigger] s[i]) by {
        lemma_holds_at_index(s, pos, enc, i - pos);
        assert(enc[i - pos] == numeral[i - pos]);
    }
    lemma_holds_at_index(s, pos, enc, numeral.len() as int);
    assert(s[colon] == 0x3au8);
    lemma_digits_count_is(s, pos, colon);
    assert(s.subrange(pos, colon) =~= numeral) by {
        assert forall|i: int| 0 <= i < numeral.len() implies s.subrange(pos, colon)[i]
            == numeral[i] by {
            lemma_holds_at_index(s, pos, enc, i);
        }
    }
    lemma_holds_at_index(s, pos, enc, 0);
    assert(s[pos] == numeral[0]);
    assert(s.subrange(colon + 1, colon + 1 + bytes.len()) =~= bytes) by {
        assert forall|i: int| 0 <= i < bytes.len() implies s.subrange(
            colon + 1,
            colon + 1 + bytes.len(),
        )[i] == bytes[i] by {
            lemma_holds_at_index(s, pos, enc, numeral.len() + 1 + i);
        }
    }
}

/// The encoding of an integer of 32 signed bits, wherever it stands, is read
/// back as the integer.
pub proof fn lemma_integer_round_trip(s: Seq<u8>, pos: int, i: int)
    requires
        holds_at(s, pos, integer_encoding(i)),
        i32::MIN <= i <= i32::MAX,
    ensures
        parse_integer_at(s, pos) == Ok::<(Bencode, int), ParseError>(
            (Bencode::Int(i), pos + integer_encoding(i).len()),
        ),
{
    let enc = integer_encoding(i);
    let magnitude: nat = if i < 0 {
        (-i) as nat
    } else {
        i as nat
    };
    let numeral = decimal(magnitude);
    let first = if i < 0 {
        pos + 2
    } else {
        pos + 1
    };
    let end = first + numeral.len();
    lemma_decimal_canonical(magnitude);
    lemma_decimal_value(magnitude);
    lemma_holds_at_index(s, pos, enc, 0);
    lemma_holds_at_index(s, pos, enc, 1);
    assert(enc[1] == if i < 0 {
        0x2du8
    } else {
        numeral[0]
    });
    assert forall|j: int| first <= j < end implies is_digit(#[trigger] s[j]) by {
        lemma_holds_at_index(s, pos, enc, j - pos);
        assert(enc[j - pos] == numeral[j - first]);
    }
    lemma_holds_at_index(s, pos, enc, end - pos);
    assert(s[end] == 0x65u8);
    lemma_digits_count_is(s, first, end);
    assert(s.subrange(first, end) =~= numeral) by {
        assert forall|j: int| 0 <= j < numeral.len() implies s.subrange(first, end)[j]
            == numeral[j] by {
            lemma_holds_at_index(s, pos, enc, first - pos + j);
        }
    }
    lemma_holds_at_index(s, pos, enc, first - pos);
    assert(s[first] == numeral[0]);
    assert(parse_integer_numeric_part_at(s, pos + 1) == Ok::<(int, int), ParseError>((i, end)));
}

/// The encodings of the first `k` values open those of the first `n`, for
/// `k` up to `n`.
pub proof fn lemma_items_encoding_prefix(items: Seq<Bencode>, k: nat, n: nat)
    requires
        k <= n <= items.len(),
    ensures
        items_encoding(items, k).len() <= items_encoding(items, n).len(),
        items_encoding(items, n).subrange(0, items_encoding(items, k).len() as int)
            == items_encoding(items, k),
    decreases n - k,
{
    if k == n {
        assert(items_encoding(items, n).subrange(0, items_encoding(items, n).len() as int)
            =~= items_encoding(items, n));
    } else {
        lemma_items_encoding_prefix(items, k, (n - 1) as nat);
        let shorter = items_encoding(items, (n - 1) as nat);
        let mine = items_encoding(items, k);
        assert(items_encoding(items, n).subrange(0, mine.len() as int) =~= shorter.subrange(
            0,
            mine.len() as int,
        ));
    }
}

/// The encodings of the first `k` entries open those of the first `n`, for
/// `k` up to `n`.
pub proof fn lemma_entries_encoding_prefix(entries: Seq<(Seq<u8>, Bencode)>, k: nat, n: nat)
    requires
        k <= n <= entries.len(),
    ensures
        entries_encoding(entries, k).len() <= entries_encoding(entries, n).len(),
        entries_encoding(entries, n).subrange(0, entries_encoding(entries, k).len() as int)
            == entries_encoding(entries, k),
    decreases n - k,
{
    if k == n {
        assert(entries_encoding(entries, n).subrange(
            0,
            entries_encoding(entries, n).len() as int,
        ) =~= entries_encoding(entries, n));
    } else {
        lemma_entries_encoding_prefix(entries, k, (n - 1) as nat);
        let shorter = entries_encoding(entries, (n - 1) as nat);
        let mine = entries_encoding(entries, k);
        assert(entries_encoding(entries, n).subrange(0, mine.len() as int) =~= shorter.subrange(
            0,
            mine.len() as int,
        ));
    }
}

/// The encoding of a canonical value, wherever it stands, is read back as
/// the value, given as many levels of nesting as the value has.
pub proof fn lemma_value_round_trip(s: Seq<u8>, pos: int, v: Bencode, depth: nat)
    requires
        holds_at(s, pos, encoding(v)),
        v.wf(),
        v.fits_depth(depth),
    ensures
        parse_value_at(s, pos, depth) == Ok::<(Bencode, int), ParseError>(
            (v, pos + encoding(v).len()),
        ),
    decreases v, 0nat,
{
    let enc = encoding(v);
    lemma_encoding_starts(v);
    lemma_holds_at_index(s, pos, enc, 0);
    match v {
        Bencode::Str(bytes) => {
            lemma_string_round_trip(s, pos, bytes);
        },
        Bencode::Int(i) => {
            lemma_integer_round_trip(s, pos, i);
        },
        Bencode::List(items) => {
            let body = items_encoding(items, items.len()) + seq![0x65u8];
            assert(enc.subrange(1, 1 + body.len() as int) =~= body);
            lemma_holds_at_part(s, pos, enc, 1, body);
            lemma_items_round_trip(s, pos + 1, items, 0, (depth - 1) as nat);
            assert(items.skip(0) =~= items);
        },
        Bencode::Dict(entries) => {
            let body = entries_encoding(entries, entries.len()) + seq![0x65u8];
            assert(enc.subrange(1, 1 + body.len() as int) =~= body);
            lemma_holds_at_part(s, pos, enc, 1, body);
            lemma_entries_round_trip(s, pos + 1, entries, 0, (depth - 1) as nat);
            assert(entries.skip(0) =~= entries);
        },
    }
}

/// The encodings of canonical values followed by `e` are read back, from the
/// place of the `k`-th on, as the values from the `k`-th on.
pub proof fn lemma_items_round_trip(
    s: Seq<u8>,
    start: int,
    items: Seq<Bencode>,
    k: nat,
    depth: nat,
)
    requires
        holds_at(s, start, items_encoding(items, items.len()) + seq![0x65u8]),
        k <= items.len(),
        forall|i: int| 0 <= i < items.len() ==> (#[trigger] items[i]).wf(),
        forall|i: int| 0 <= i < items.len() ==> (#[trigger] items[i]).fits_depth(depth),
    ensures
        parse_items_at(s, start + items_encoding(items, k).len(), depth) == Ok::<
            (Seq<Bencode>, int),
            ParseError,
        >((items.skip(k as int), start + items_encoding(items, items.len()).len() + 1)),
    decreases items, items.len() - k,
{
    let n = items.len();
    let all = items_encoding(items, n);
    let whole = all + seq![0x65u8];
    let here = items_encoding(items, k);
    let p = start + here.len();
    lemma_items_encoding_prefix(items, k, n);
    if k == n {
        lemma_holds_at_index(s, start, whole, all.len() as int);
        assert(items.skip(k as int) =~= Seq::<Bencode>::empty());
    } else {
        let item = items[k as int];
        let enc = encoding(item);
        lemma_items_encoding_prefix(items, k + 1, n);
        assert(items_encoding(items, k + 1) == here + enc);
        assert(whole.subrange(here.len() as int, (here.len() + enc.len()) as int) =~= enc) by {
            assert(all.subrange(0, (here + enc).len() as int) == here + enc);
            assert forall|i: int| 0 <= i < enc.len() implies whole[here.len() + i] == enc[i] by {
                assert(all.subrange(0, (here + enc).len() as int)[here.len() + i] == all[here.len()
                    + i]);
            }
        }
        lemma_holds_at_part(s, start, whole, here.len() as int, enc);
        lemma_encoding_starts(item);
        lemma_holds_at_index(s, p, enc, 0);
        lemma_value_round_trip(s, p, item, depth);
        lemma_items_round_trip(s, start, items, k + 1, depth);
        assert(advances(s, p, p + enc.len()));
        assert(seq![item] + items.skip(k + 1 as int) =~= items.skip(k as int));
    }
}

/// The key of the entry before the `k`-th, if there is one.
pub open spec fn key_before(entries: Seq<(Seq<u8>, Bencode)>, k: nat) -> Option<Seq<u8>> {
    if k == 0 {
        None
    } else {
        Some(entries[k - 1].0)
    }
}

/// The encodings of canonical entries with strictly ascending keys, followed
/// by `e`, are read back, from the place of the `k`-th on, as the entries
/// from the `k`-th on.
pub proof fn lemma_entries_round_trip(
    s: Seq<u8>,
    start: int,
    entries: Seq<(Seq<u8>, Bencode)>,
    k: nat,
    depth: nat,
)
    requires
        holds_at(s, start, entries_encoding(entries, entries.len()) + seq![0x65u8]),
        k <= entries.len(),
        strictly_ascending(entry_keys(entries)),
        forall|i: int| 0 <= i < entries.len() ==> (#[trigger] entries[i]).1.wf(),
        forall|i: int| 0 <= i < entries.len() ==> (#[trigger] entries[i]).1.fits_depth(depth),
    ensures
        parse_entries_at(
            s,
            start + entries_encoding(entries, k).len(),
            depth,
            key_before(entries, k),
        ) == Ok::<(Seq<(Seq<u8>, Bencode)>, int), ParseError>(
            (entries.skip(k as int), start + entries_encoding(entries, entries.len()).len() + 1),
        ),
    decreases entries, entries.len() - k,
{
    let n = entries.len();
    let all = entries_encoding(entries, n);
    let whole = all + seq![0x65u8];
    let here = entries_encoding(entries, k);
    let p = start + here.len();
    lemma_entries_encoding_prefix(entries, k, n);
    if k == n {
        lemma_holds_at_index(s, start, whole, all.len() as int);
        assert(entries.skip(k as int) =~= Seq::<(Seq<u8>, Bencode)>::empty());
    } else {
        let key = entries[k as int].0;
        let value = entries[k as int].1;
        let key_enc = string_encoding(key);
        let value_enc = encoding(value);
        let both = key_enc + value_enc;
        lemma_entries_encoding_prefix(entries, k + 1, n);
        assert(entries_encoding(entries, k + 1) =~= here + both);
        assert(whole.subrange(here.len() as int, (here.len() + both.len()) as int) =~= both) by {
            assert(all.subrange(0, (here + both).len() as int) == here + both);
            assert forall|i: int| 0 <= i < both.len() implies whole[here.len() + i]
                == both[i] by {
                assert(all.subrange(0, (here + both).len() as int)[here.len() + i] == all[here.len()
                    + i]);
            }
        }
        lemma_holds_at_part(s, start, whole, here.len() as int, both);
        assert(both.subrange(0, key_enc.len() as int) =~= key_enc);
        lemma_holds_at_part(s, p, both, 0, key_enc);
        assert(both.subrange(key_enc.len() as int, (key_enc.len() + value_enc.len()) as int)
            =~= value_enc);
        lemma_holds_at_part(s, p, both, key_enc.len() as int, value_enc);
        lemma_encoding_starts(Bencode::Str(key));
        lemma_encoding_starts(value);
        lemma_holds_at_index(s, p, key_enc, 0);
        lemma_string_round_trip(s, p, key);
        let middle = p + key_enc.len();
        lemma_value_round_trip(s, middle, value, depth);
        if k > 0 {
            assert(entry_keys(entries)[k - 1] == entries[k - 1].0);
            assert(entry_keys(entries)[k as int] == key);
            assert(bytes_lt(entries[k - 1].0, key));
        }
        lemma_entries_round_trip(s, start, entries, k + 1, depth);
        assert(advances(s, p, middle));
        assert(advances(s, middle, middle + value_enc.len()));
        assert(seq![(key, value)] + entries.skip(k + 1 as int) =~= entries.skip(k as int));
    }
}

/// Parsing undoes encoding: the encoding of a canonical value that nests at
/// most [`MAX_DEPTH`] levels deep, if it is at most [`MAX_INPUT_SIZE`] bytes
/// long, parses as that value.
pub proof fn lemma_round_trip(v: Bencode)
    requires
        v.wf(),
        v.fits_depth(MAX_DEPTH as nat),
        encoding(v).len() <= MAX_INPUT_SIZE,
    ensures
        parse_document(encoding(v)) == Ok::<Bencode, ParseError>(v),
{
    let s = encoding(v);
    assert(s.subrange(0, s.len() as int) =~= s);
    lemma_value_round_trip(s, 0, v, MAX_DEPTH as nat);
}

/// A line feed after the encoding changes nothing: the encoding of a value,
/// as in [`lemma_round_trip`], followed by one line feed parses as that
/// value, if both together are at most [`MAX_INPUT_SIZE`] bytes long.
pub proof fn lemma_round_trip_line_feed(v: Bencode)
    requires
        v.wf(),
        v.fits_depth(MAX_DEPTH as nat),
        encoding(v).len() + 1 <= MAX_INPUT_SIZE,
    ensures
        parse_document(encoding(v) + seq![0x0au8]) == Ok::<Bencode, ParseError>(v),
{
    let enc = encoding(v);
    let s = enc + seq![0x0au8];
    assert(s.subrange(0, enc.len() as int) =~= enc);
    lemma_value_round_trip(s, 0, v, MAX_DEPTH as nat);
}

} // verus!
