//! The parser: what each input denotes, and the routines that compute it.
//!
//! The grammar is given as spec functions that read a document from a
//! position of a byte sequence and say how far they read. Each executable
//! routine returns exactly what the spec function of its production gives,
//! the error included.

use vstd::prelude::*;
use crate::canonical::lemma_parse_canonical;
use crate::encode::encoding;
use crate::order::{bytes_less, bytes_lt};
use crate::text::{digits_value, is_digit, is_numeric};
use crate::value::{values_view, Bencode, Dict, Value};

verus! {

/// The deepest nesting of lists and dictionaries that the parser follows.
pub const MAX_DEPTH: usize = 64;

/// The longest input that the parser reads, in bytes.
pub const MAX_INPUT_SIZE: usize = 1048576;

/// Why an input is not a canonical bencoded document.
#[derive(Clone, Copy, Debug, PartialEq, Eq, Structural)]
pub enum ParseError {
    /// A string declares more bytes than the input holds after its colon.
    TruncatedString,
    /// A numeral is not in shortest form, or an integer is malformed.
    InvalidInteger,
    /// An integer does not fit in 32 signed bits.
    IntegerOverflow,
    /// A dictionary key does not come strictly after the key before it.
    UnsortedDictKey,
    /// Bytes follow the document, other than one line feed.
    TrailingData,
    /// A byte that no production allows stands where one begins or goes on,
    /// or the input ends there.
    UnexpectedToken,
    /// Lists and dictionaries nest deeper than [`MAX_DEPTH`].
    RecursionLimitExceeded,
    /// The input is longer than [`MAX_INPUT_SIZE`].
    InputTooLarge,
}

/// The number of ASCII digits that stand in a row from position `pos` of `s`.
pub open spec fn digits_count(s: Seq<u8>, pos: int) -> nat
    decreases s.len() - pos,
{
    if 0 <= pos < s.len() && is_digit(s[pos]) {
        1 + digits_count(s, pos + 1)
    } else {
        0
    }
}

/// A string at `pos`: a shortest-form length, a colon, and as many bytes as
/// the length says. Gives the bytes and the position after them.
pub open spec fn parse_string_at(s: Seq<u8>, pos: int) -> Result<(Seq<u8>, int), ParseError> {
    let count = digits_count(s, pos);
    let colon = pos + count;
    let length = digits_value(s.subrange(pos, colon));
    if count == 0 {
        Err(ParseError::UnexpectedToken)
    } else if s[pos] == 0x30u8 && count > 1 {
        Err(ParseError::InvalidInteger)
    } else if colon >= s.len() || s[colon] != 0x3au8 {
        Err(ParseError::UnexpectedToken)
    } else if colon + 1 + length > s.len() {
        Err(ParseError::TruncatedString)
    } else {
        Ok((s.subrange(colon + 1, colon + 1 + length), colon + 1 + length))
    }
}

/// The numeral of an integer at `pos`: an optional minus sign and a
/// shortest-form numeral, which is not zero after a minus sign, within the
/// range of 32 signed bits. Gives the integer and the position after it.
pub open spec fn parse_integer_numeric_part_at(s: Seq<u8>, pos: int) -> Result<
    (int, int),
    ParseError,
> {
    let negative = 0 <= pos < s.len() && s[pos] == 0x2du8;
    let first = if negative {
        pos + 1
    } else {
        pos
    };
    let count = digits_count(s, first);
    let magnitude = digits_value(s.subrange(first, first + count));
    let number = if negative {
        -magnitude
    } else {
        magnitude as int
    };
    if count == 0 {
        Err(ParseError::InvalidInteger)
    } else if s[first] == 0x30u8 && (negative || count > 1) {
        Err(ParseError::InvalidInteger)
    } else if number < i32::MIN || number > i32::MAX {
        Err(ParseError::IntegerOverflow)
    } else {
        Ok((number, first + count))
    }
}

/// An integer at `pos`: `i`, the numeral, `e`.
pub open spec fn parse_integer_at(s: Seq<u8>, pos: int) -> Result<(Bencode, int), ParseError> {
    if !(0 <= pos < s.len()) || s[pos] != 0x69u8 {
        Err(ParseError::UnexpectedToken)
    } else {
        match parse_integer_numeric_part_at(s, pos + 1) {
            Err(e) => Err(e),
            Ok((number, end)) => if end < s.len() && s[end] == 0x65u8 {
                Ok((Bencode::Int(number), end + 1))
            } else {
                Err(ParseError::InvalidInteger)
            },
        }
    }
}

/// A string at `pos`, as a value.
pub open spec fn parse_string_value_at(s: Seq<u8>, pos: int) -> Result<(Bencode, int), ParseError> {
    match parse_string_at(s, pos) {
        Err(e) => Err(e),
        Ok((bytes, next)) => Ok((Bencode::Str(bytes), next)),
    }
}

/// Whether reading from `pos` to `next` moves forward and stays inside `s`.
/// Every production that succeeds does.
pub open spec fn advances(s: Seq<u8>, pos: int, next: int) -> bool {
    pos < next <= s.len()
}

/// A value at `pos`, with `depth` levels of nesting allowed below it. The
/// first byte picks the production: a digit a string, `i` an integer, `l` a
/// list, `d` a dictionary.
pub open spec fn parse_value_at(s: Seq<u8>, pos: int, depth: nat) -> Result<
    (Bencode, int),
    ParseError,
>
    decreases s.len() - pos, 1nat,
{
    if !(0 <= pos < s.len()) {
        Err(ParseError::UnexpectedToken)
    } else if is_digit(s[pos]) {
        parse_string_value_at(s, pos)
    } else if s[pos] == 0x69u8 {
        parse_integer_at(s, pos)
    } else if s[pos] == 0x6cu8 {
        parse_list_at(s, pos, depth)
    } else if s[pos] == 0x64u8 {
        parse_dict_at(s, pos, depth)
    } else {
        Err(ParseError::UnexpectedToken)
    }
}

/// A list at `pos`: `l`, any number of values, `e`.
pub open spec fn parse_list_at(s: Seq<u8>, pos: int, depth: nat) -> Result<
    (Bencode, int),
    ParseError,
>
    decreases s.len() - pos, 0nat,
{
    if !(0 <= pos < s.len()) || s[pos] != 0x6cu8 {
        Err(ParseError::UnexpectedToken)
    } else if depth == 0 {
        Err(ParseError::RecursionLimitExceeded)
    } else {
        match parse_items_at(s, pos + 1, (depth - 1) as nat) {
            Err(e) => Err(e),
            Ok((items, end)) => Ok((Bencode::List(items), end)),
        }
    }
}

/// The values of a list from `pos` up to and including the closing `e`.
pub open spec fn parse_items_at(s: Seq<u8>, pos: int, depth: nat) -> Result<
    (Seq<Bencode>, int),
    ParseError,
>
    decreases s.len() - pos, 2nat,
{
    if !(0 <= pos < s.len()) {
        Err(ParseError::UnexpectedToken)
    } else if s[pos] == 0x65u8 {
        Ok((Seq::empty(), pos + 1))
    } else {
        match parse_value_at(s, pos, depth) {
            Err(e) => Err(e),
            Ok((item, next)) => if !advances(s, pos, next) {
                Err(ParseError::UnexpectedToken)
            } else {
                match parse_items_at(s, next, depth) {
                    Err(e) => Err(e),
                    Ok((rest, end)) => Ok((seq![item] + rest, end)),
                }
            },
        }
    }
}

/// A dictionary at `pos`: `d`, any number of entries, `e`.
pub open spec fn parse_dict_at(s: Seq<u8>, pos: int, depth: nat) -> Result<
    (Bencode, int),
    ParseError,
>
    decreases s.len() - pos, 0nat,
{
    if !(0 <= pos < s.len()) || s[pos] != 0x64u8 {
        Err(ParseError::UnexpectedToken)
    } else if depth == 0 {
        Err(ParseError::RecursionLimitExceeded)
    } else {
        match parse_entries_at(s, pos + 1, (depth - 1) as nat, None) {
            Err(e) => Err(e),
            Ok((entries, end)) => Ok((Bencode::Dict(entries), end)),
        }
    }
}

/// The entries of a dictionary from `pos` up to and including the closing
/// `e`. Each entry is a string, the key, and a value. A key must come
/// strictly after `previous`, the key of the entry before it.
pub open spec fn parse_entries_at(
    s: Seq<u8>,
    pos: int,
    depth: nat,
    previous: Option<Seq<u8>>,
) -> Result<(Seq<(Seq<u8>, Bencode)>, int), ParseError>
    decreases s.len() - pos, 2nat,
{
    if !(0 <= pos < s.len()) {
        Err(ParseError::UnexpectedToken)
    } else if s[pos] == 0x65u8 {
        Ok((Seq::empty(), pos + 1))
    } else {
        match parse_string_at(s, pos) {
            Err(e) => Err(e),
            Ok((key, middle)) => if previous is Some && !bytes_lt(previous->0, key) {
                Err(ParseError::UnsortedDictKey)
            } else if !advances(s, pos, middle) {
                Err(ParseError::UnexpectedToken)
            } else {
                match parse_value_at(s, middle, depth) {
                    Err(e) => Err(e),
                    Ok((value, next)) => if !advances(s, middle, next) {
                        Err(ParseError::UnexpectedToken)
                    } else {
                        match parse_entries_at(s, next, depth, Some(key)) {
                            Err(e) => Err(e),
                            Ok((rest, end)) => Ok((seq![(key, value)] + rest, end)),
                        }
                    },
                }
            },
        }
    }
}

/// A whole input: at most [`MAX_INPUT_SIZE`] bytes that hold one value,
/// nested at most [`MAX_DEPTH`] levels deep, and after it nothing or a single
/// line feed.
pub open spec fn parse_document(s: Seq<u8>) -> Result<Bencode, ParseError> {
    if s.len() > MAX_INPUT_SIZE {
        Err(ParseError::InputTooLarge)
    } else {
        match parse_value_at(s, 0, MAX_DEPTH as nat) {
            Err(e) => Err(e),
            Ok((value, end)) => if end == s.len() || (end + 1 == s.len() && s[end] == 0x0au8) {
                Ok(value)
            } else {
                Err(ParseError::TrailingData)
            },
        }
    }
}

/// The digits counted from `pos` are digits, they end inside `s`, and no
/// digit follows them.
pub proof fn lemma_digits_count(s: Seq<u8>, pos: int)
    requires
        0 <= pos <= s.len(),
    ensures
        pos + digits_count(s, pos) <= s.len(),
        forall|i: int| pos <= i < pos + digits_count(s, pos) ==> is_digit(#[trigger] s[i]),
        pos + digits_count(s, pos) < s.len() ==> !is_digit(s[pos + digits_count(s, pos)]),
    decreases s.len() - pos,
{
    if pos < s.len() && is_digit(s[pos]) {
        lemma_digits_count(s, pos + 1);
    }
}

/// Digits from `pos` up to a byte that is no digit, or to the end, are
/// the digits counted from `pos`.
pub proof fn lemma_digits_count_is(s: Seq<u8>, pos: int, end: int)
    requires
        0 <= pos <= end <= s.len(),
        forall|i: int| pos <= i < end ==> is_digit(#[trigger] s[i]),
        end < s.len() ==> !is_digit(s[end]),
    ensures
        digits_count(s, pos) == end - pos,
    decreases end - pos,
{
    if pos < end {
        assert(is_digit(s[pos]));
        lemma_digits_count_is(s, pos + 1, end);
    }
}

/// A string that parses ends after where it starts and inside the input.
pub proof fn lemma_string_advances(s: Seq<u8>, pos: int)
    requires
        0 <= pos,
        parse_string_at(s, pos) is Ok,
    ensures
        advances(s, pos, parse_string_at(s, pos)->Ok_0.1),
{
}

/// An integer that parses ends after where it starts and inside the input.
pub proof fn lemma_integer_advances(s: Seq<u8>, pos: int)
    requires
        parse_integer_at(s, pos) is Ok,
    ensures
        advances(s, pos, parse_integer_at(s, pos)->Ok_0.1),
{
}

/// A value that parses ends after where it starts and inside the input.
pub proof fn lemma_value_advances(s: Seq<u8>, pos: int, depth: nat)
    requires
        parse_value_at(s, pos, depth) is Ok,
    ensures
        advances(s, pos, parse_value_at(s, pos, depth)->Ok_0.1),
    decreases s.len() - pos, 1nat,
{
    if is_digit(s[pos]) {
        lemma_string_advances(s, pos);
    } else if s[pos] == 0x69u8 {
        lemma_integer_advances(s, pos);
    } else if s[pos] == 0x6cu8 {
        lemma_items_advance(s, pos + 1, (depth - 1) as nat);
    } else {
        lemma_entries_advance(s, pos + 1, (depth - 1) as nat, None);
    }
}

/// The values of a list that parse end after where they start and inside the
/// input.
pub proof fn lemma_items_advance(s: Seq<u8>, pos: int, depth: nat)
    requires
        parse_items_at(s, pos, depth) is Ok,
    ensures
        advances(s, pos, parse_items_at(s, pos, depth)->Ok_0.1),
    decreases s.len() - pos, 2nat,
{
    if s[pos] != 0x65u8 {
        let next = parse_value_at(s, pos, depth)->Ok_0.1;
        lemma_items_advance(s, next, depth);
    }
}

/// The entries of a dictionary that parse end after where they start and
/// inside the input.
pub proof fn lemma_entries_advance(s: Seq<u8>, pos: int, depth: nat, previous: Option<Seq<u8>>)
    requires
        parse_entries_at(s, pos, depth, previous) is Ok,
    ensures
        advances(s, pos, parse_entries_at(s, pos, depth, previous)->Ok_0.1),
    decreases s.len() - pos, 2nat,
{
    if s[pos] != 0x65u8 {
        let (key, middle) = parse_string_at(s, pos)->Ok_0;
        let next = parse_value_at(s, middle, depth)->Ok_0.1;
        lemma_entries_advance(s, next, depth, Some(key));
    }
}

/// `n` as a machine number if it is at most `limit`, nothing otherwise.
pub open spec fn bounded(n: nat, limit: u64) -> Option<u64> {
    if n <= limit {
        Some(n as u64)
    } else {
        None
    }
}

/// What a string production returned, over the model.
pub open spec fn string_outcome(r: Result<(Vec<u8>, usize), ParseError>) -> Result<
    (Seq<u8>, int),
    ParseError,
> {
    match r {
        Ok((bytes, next)) => Ok((bytes@, next as int)),
        Err(e) => Err(e),
    }
}

/// What an integer numeral returned, over the model.
pub open spec fn integer_outcome(r: Result<(i32, usize), ParseError>) -> Result<
    (int, int),
    ParseError,
> {
    match r {
        Ok((number, next)) => Ok((number as int, next as int)),
        Err(e) => Err(e),
    }
}

/// What a value production returned, over the model.
pub open spec fn value_outcome(r: Result<(Value, usize), ParseError>) -> Result<
    (Bencode, int),
    ParseError,
> {
    match r {
        Ok((value, next)) => Ok((value@, next as int)),
        Err(e) => Err(e),
    }
}

/// What the parser returned for a whole input, over the model.
pub open spec fn document_outcome(r: Result<Value, ParseError>) -> Result<Bencode, ParseError> {
    match r {
        Ok(value) => Ok(value@),
        Err(e) => Err(e),
    }
}

/// The outcome of reading a list's values when `before` has been read
/// already and `tail` is the outcome of reading the rest.
pub open spec fn prepend_items(
    before: Seq<Bencode>,
    tail: Result<(Seq<Bencode>, int), ParseError>,
) -> Result<(Seq<Bencode>, int), ParseError> {
    match tail {
        Ok((rest, end)) => Ok((before + rest, end)),
        Err(e) => Err(e),
    }
}

/// The outcome of reading a dictionary's entries when `before` has been read
/// already and `tail` is the outcome of reading the rest.
pub open spec fn prepend_entries(
    before: Seq<(Seq<u8>, Bencode)>,
    tail: Result<(Seq<(Seq<u8>, Bencode)>, int), ParseError>,
) -> Result<(Seq<(Seq<u8>, Bencode)>, int), ParseError> {
    match tail {
        Ok((rest, end)) => Ok((before + rest, end)),
        Err(e) => Err(e),
    }
}

/// The key of the last of `entries`, if there is one.
pub open spec fn last_key(entries: Seq<(Seq<u8>, Bencode)>) -> Option<Seq<u8>> {
    if entries.len() > 0 {
        Some(entries.last().0)
    } else {
        None
    }
}

/// Reads the digits that stand in a row from `pos`. Returns the position
/// after them, and their value unless it is above `limit`.
pub fn parse_numeric(input: &[u8], pos: usize, limit: u64) -> (r: (usize, Option<u64>))
    requires
        pos <= input.len(),
    ensures
        r.0 == pos + digits_count(input@, pos as int),
        r.1 == bounded(digits_value(input@.subrange(pos as int, r.0 as int)), limit),
{
    let ghost s = input@;
    let mut end: usize = pos;
    let mut value: u64 = 0;
    let mut over = false;
    assert(s.subrange(pos as int, pos as int) =~= Seq::<u8>::empty());
    while end < input.len() && is_numeric(input[end])
        invariant
            pos <= end <= input.len(),
            s == input@,
            digits_count(s, pos as int) == (end - pos) + digits_count(s, end as int),
            !over ==> value == digits_value(s.subrange(pos as int, end as int)) && value <= limit,
            over ==> digits_value(s.subrange(pos as int, end as int)) > limit,
        decreases input.len() - end,
    {
        let digit: u64 = (input[end] - 0x30) as u64;
        proof {
            let longer = s.subrange(pos as int, end + 1);
            assert(longer.drop_last() =~= s.subrange(pos as int, end as int));
            assert(longer.last() == s[end as int]);
        }
        if !over {
            let wide: u128 = value as u128 * 10 + digit as u128;
            if wide > limit as u128 {
                over = true;
            } else {
                value = wide as u64;
            }
        }
        end += 1;
    }
    (
        end,
        if over {
            None
        } else {
            Some(value)
        },
    )
}

/// Copies the bytes of `input` from `from` up to `to`.
fn copy_range(input: &[u8], from: usize, to: usize) -> (out: Vec<u8>)
    requires
        from <= to <= input.len(),
    ensures
        out@ == input@.subrange(from as int, to as int),
{
    let mut out: Vec<u8> = Vec::new();
    let mut i: usize = from;
    while i < to
        invariant
            from <= i <= to <= input.len(),
            out@ == input@.subrange(from as int, i as int),
        decreases to - i,
    {
        out.push(input[i]);
        i += 1;
        assert(out@ =~= input@.subrange(from as int, i as int));
    }
    out
}

/// Parses a string at `pos`: returns its bytes and the position after them.
pub fn parse_string(input: &[u8], pos: usize) -> (r: Result<(Vec<u8>, usize), ParseError>)
    ensures
        string_outcome(r) == parse_string_at(input@, pos as int),
{
    if pos >= input.len() {
        return Err(ParseError::UnexpectedToken);
    }
    let (colon, length) = parse_numeric(input, pos, input.len() as u64);
    proof {
        lemma_digits_count(input@, pos as int);
    }
    if colon == pos {
        return Err(ParseError::UnexpectedToken);
    }
    if input[pos] == 0x30 && colon > pos + 1 {
        return Err(ParseError::InvalidInteger);
    }
    if colon >= input.len() || input[colon] != 0x3a {
        return Err(ParseError::UnexpectedToken);
    }
    let start: usize = colon + 1;
    match length {
        None => Err(ParseError::TruncatedString),
        Some(n) => {
            if n > (input.len() - start) as u64 {
                Err(ParseError::TruncatedString)
            } else {
                let stop: usize = start + n as usize;
                Ok((copy_range(input, start, stop), stop))
            }
        },
    }
}

/// Parses a string at `pos` as a value.
pub fn parse_string_value(input: &[u8], pos: usize) -> (r: Result<(Value, usize), ParseError>)
    ensures
        value_outcome(r) == parse_string_value_at(input@, pos as int),
{
    match parse_string(input, pos) {
        Err(e) => Err(e),
        Ok((bytes, next)) => Ok((Value::Str(bytes), next)),
    }
}

/// Parses the numeral of an integer at `pos`: returns the integer and the
/// position after the numeral.
pub fn parse_integer_numeric_part(input: &[u8], pos: usize) -> (r: Result<
    (i32, usize),
    ParseError,
>)
    ensures
        integer_outcome(r) == parse_integer_numeric_part_at(input@, pos as int),
{
    if pos >= input.len() {
        return Err(ParseError::InvalidInteger);
    }
    let negative = input[pos] == 0x2d;
    let first: usize = if negative {
        pos + 1
    } else {
        pos
    };
    let (end, magnitude) = parse_numeric(input, first, 2147483648);
    proof {
        lemma_digits_count(input@, first as int);
    }
    if end == first {
        return Err(ParseError::InvalidInteger);
    }
    if input[first] == 0x30 && (negative || end > first + 1) {
        return Err(ParseError::InvalidInteger);
    }
    match magnitude {
        None => Err(ParseError::IntegerOverflow),
        Some(m) => {
            if negative {
                let number: i64 = -(m as i64);
                Ok((number as i32, end))
            } else if m > 2147483647 {
                Err(ParseError::IntegerOverflow)
            } else {
                Ok((m as i32, end))
            }
        },
    }
}

/// Parses an integer at `pos`: returns it as a value, and the position after
/// its closing `e`.
pub fn parse_integer(input: &[u8], pos: usize) -> (r: Result<(Value, usize), ParseError>)
    ensures
        value_outcome(r) == parse_integer_at(input@, pos as int),
{
    if pos >= input.len() || input[pos] != 0x69 {
        return Err(ParseError::UnexpectedToken);
    }
    match parse_integer_numeric_part(input, pos + 1) {
        Err(e) => Err(e),
        Ok((number, end)) => {
            if end < input.len() && input[end] == 0x65 {
                Ok((Value::Int(number), end + 1))
            } else {
                Err(ParseError::InvalidInteger)
            }
        },
    }
}

/// Parses a list at `pos`, with `depth` levels of nesting allowed from it on:
/// returns it as a value, and the position after its closing `e`.
pub fn parse_list(input: &[u8], pos: usize, depth: usize) -> (r: Result<
    (Value, usize),
    ParseError,
>)
    ensures
        value_outcome(r) == parse_list_at(input@, pos as int, depth as nat),
    decreases depth, 0nat,
{
    let ghost s = input@;
    if pos >= input.len() || input[pos] != 0x6c {
        return Err(ParseError::UnexpectedToken);
    }
    if depth == 0 {
        return Err(ParseError::RecursionLimitExceeded);
    }
    let ghost below = (depth - 1) as nat;
    let mut items: Vec<Value> = Vec::new();
    let mut cur: usize = pos + 1;
    assert(values_view(items) =~= Seq::<Bencode>::empty());
    assert(parse_items_at(s, pos + 1, below) == prepend_items(
        values_view(items),
        parse_items_at(s, cur as int, below),
    )) by {
        let tail = parse_items_at(s, cur as int, below);
        if tail is Ok {
            assert(Seq::<Bencode>::empty() + tail->Ok_0.0 =~= tail->Ok_0.0);
        }
    }
    loop
        invariant
            pos < cur <= input.len(),
            s == input@,
            depth > 0,
            below == depth - 1,
            s[pos as int] == 0x6cu8,
            parse_items_at(s, pos + 1, below) == prepend_items(
                values_view(items),
                parse_items_at(s, cur as int, below),
            ),
        decreases input.len() - cur,
    {
        if cur >= input.len() {
            return Err(ParseError::UnexpectedToken);
        }
        if input[cur] == 0x65 {
            assert(values_view(items) + Seq::<Bencode>::empty() =~= values_view(items));
            return Ok((Value::List(items), cur + 1));
        }
        match parse_value(input, cur, depth - 1) {
            Err(e) => {
                return Err(e);
            },
            Ok((item, next)) => {
                let ghost before = values_view(items);
                proof {
                    lemma_value_advances(s, cur as int, below);
                    let tail = parse_items_at(s, next as int, below);
                    if tail is Ok {
                        let rest = tail->Ok_0.0;
                        assert(before + (seq![item@] + rest) =~= before.push(item@) + rest);
                    }
                }
                items.push(item);
                assert(values_view(items) =~= before.push(item@));
                cur = next;
            },
        }
    }
}

/// Parses a dictionary at `pos`, with `depth` levels of nesting allowed from
/// it on: returns it as a value, and the position after its closing `e`.
pub fn parse_dict(input: &[u8], pos: usize, depth: usize) -> (r: Result<
    (Value, usize),
    ParseError,
>)
    ensures
        value_outcome(r) == parse_dict_at(input@, pos as int, depth as nat),
    decreases depth, 0nat,
{
    let ghost s = input@;
    if pos >= input.len() || input[pos] != 0x64 {
        return Err(ParseError::UnexpectedToken);
    }
    if depth == 0 {
        return Err(ParseError::RecursionLimitExceeded);
    }
    let ghost below = (depth - 1) as nat;
    let mut dict = Dict::new();
    let mut cur: usize = pos + 1;
    assert(parse_entries_at(s, pos + 1, below, None) == prepend_entries(
        dict@,
        parse_entries_at(s, cur as int, below, last_key(dict@)),
    )) by {
        let tail = parse_entries_at(s, cur as int, below, None);
        if tail is Ok {
            assert(Seq::<(Seq<u8>, Bencode)>::empty() + tail->Ok_0.0 =~= tail->Ok_0.0);
        }
    }
    loop
        invariant
            pos < cur <= input.len(),
            s == input@,
            depth > 0,
            below == depth - 1,
            s[pos as int] == 0x64u8,
            parse_entries_at(s, pos + 1, below, None) == prepend_entries(
                dict@,
                parse_entries_at(s, cur as int, below, last_key(dict@)),
            ),
        decreases input.len() - cur,
    {
        if cur >= input.len() {
            return Err(ParseError::UnexpectedToken);
        }
        if input[cur] == 0x65 {
            assert(dict@ + Seq::<(Seq<u8>, Bencode)>::empty() =~= dict@);
            return Ok((Value::Dict(dict), cur + 1));
        }
        match parse_string(input, cur) {
            Err(e) => {
                return Err(e);
            },
            Ok((key, middle)) => {
                let count = dict.len();
                if count > 0 && !bytes_less(dict.key_at(count - 1).as_slice(), key.as_slice()) {
                    return Err(ParseError::UnsortedDictKey);
                }
                proof {
                    lemma_string_advances(s, cur as int);
                }
                match parse_value(input, middle, depth - 1) {
                    Err(e) => {
                        return Err(e);
                    },
                    Ok((value, next)) => {
                        let ghost before = dict@;
                        proof {
                            lemma_value_advances(s, middle as int, below);
                            let tail = parse_entries_at(s, next as int, below, Some(key@));
                            if tail is Ok {
                                let rest = tail->Ok_0.0;
                                assert(before + (seq![(key@, value@)] + rest) =~= before.push(
                                    (key@, value@),
                                ) + rest);
                            }
                        }
                        dict.push_entry(key, value);
                        cur = next;
                    },
                }
            },
        }
    }
}

/// Parses a value at `pos`, with `depth` levels of nesting allowed below it:
/// returns the value and the position after it.
pub fn parse_value(input: &[u8], pos: usize, depth: usize) -> (r: Result<
    (Value, usize),
    ParseError,
>)
    ensures
        value_outcome(r) == parse_value_at(input@, pos as int, depth as nat),
    decreases depth, 1nat,
{
    if pos >= input.len() {
        return Err(ParseError::UnexpectedToken);
    }
    let c = input[pos];
    if is_numeric(c) {
        parse_string_value(input, pos)
    } else if c == 0x69 {
        parse_integer(input, pos)
    } else if c == 0x6c {
        parse_list(input, pos, depth)
    } else if c == 0x64 {
        parse_dict(input, pos, depth)
    } else {
        Err(ParseError::UnexpectedToken)
    }
}

/// Parses a whole input. Returns the value it holds, or the first reason
/// why it is not a canonical document. An input that is accepted is the
/// encoding of the value returned, with or without one line feed after it.
pub fn parse(input: &[u8]) -> (r: Result<Value, ParseError>)
    ensures
        document_outcome(r) == parse_document(input@),
        r matches Ok(value) ==> {
            &&& value@.wf()
            &&& value@.fits_depth(MAX_DEPTH as nat)
            &&& (input@ == encoding(value@) || input@ == encoding(value@) + seq![0x0au8])
        },
{
    if input.len() > MAX_INPUT_SIZE {
        return Err(ParseError::InputTooLarge);
    }
    match parse_value(input, 0, MAX_DEPTH) {
        Err(e) => Err(e),
        Ok((value, end)) => {
            proof {
                lemma_value_advances(input@, 0, MAX_DEPTH as nat);
                if parse_document(input@) is Ok {
                    lemma_parse_canonical(input@);
                }
            }
            if end == input.len() || (end + 1 == input.len() && input[end] == 0x0a) {
                Ok(value)
            } else {
                Err(ParseError::TrailingData)
            }
        },
    }
}

} // verus!
