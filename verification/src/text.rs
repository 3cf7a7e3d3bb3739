//! ASCII digits and decimal numerals.
//!
//! Lengths and integers travel as unpadded decimal numerals. This module
//! defines what a numeral denotes, shows that writing and reading a numeral
//! are inverse to each other, and provides the routines that append numerals
//! and raw bytes to an output buffer.

use vstd::prelude::*;

verus! {

/// Whether `c` is one of the ASCII digits `0` to `9`.
pub open spec fn is_digit(c: u8) -> bool {
    0x30 <= c <= 0x39
}

/// The ASCII digit that stands for `d`, for `d` below ten.
pub open spec fn digit_byte(d: nat) -> u8 {
    (0x30 + d) as u8
}

/// The decimal numeral of `n`: most significant digit first, no padding.
pub open spec fn decimal(n: nat) -> Seq<u8>
    decreases n,
{
    if n < 10 {
        seq![digit_byte(n)]
    } else {
        decimal(n / 10).push(digit_byte(n % 10))
    }
}

/// Whether every byte of `s` is an ASCII digit.
pub open spec fn all_digits(s: Seq<u8>) -> bool {
    forall|i: int| 0 <= i < s.len() ==> is_digit(#[trigger] s[i])
}

/// The number that a string of ASCII digits denotes; zero for the empty string.
pub open spec fn digits_value(s: Seq<u8>) -> nat
    decreases s.len(),
{
    if s.len() == 0 {
        0
    } else {
        digits_value(s.drop_last()) * 10 + (s.last() - 0x30) as nat
    }
}

/// Whether `s` is a numeral in shortest form: one digit at least, and a
/// leading `0` only when it is the whole numeral.
pub open spec fn is_canonical_numeral(s: Seq<u8>) -> bool {
    &&& s.len() >= 1
    &&& all_digits(s)
    &&& (s[0] == 0x30u8 ==> s.len() == 1)
}

/// A decimal numeral is in shortest form, and it starts with `0` only for zero.
pub proof fn lemma_decimal_canonical(n: nat)
    ensures
        is_canonical_numeral(decimal(n)),
        decimal(n)[0] == 0x30u8 <==> n == 0,
    decreases n,
{
    if n >= 10 {
        lemma_decimal_canonical(n / 10);
        let head = decimal(n / 10);
        let whole = decimal(n);
        assert(whole[0] == head[0]);
        assert forall|i: int| 0 <= i < whole.len() implies is_digit(#[trigger] whole[i]) by {
            if i < head.len() {
                assert(whole[i] == head[i]);
            }
        }
    }
}

/// Reading back the numeral of `n` gives `n`.
pub proof fn lemma_decimal_value(n: nat)
    ensures
        digits_value(decimal(n)) == n,
    decreases n,
{
    if n < 10 {
        assert(decimal(n).drop_last() =~= Seq::<u8>::empty());
        assert(digits_value(Seq::<u8>::empty()) == 0);
    } else {
        lemma_decimal_value(n / 10);
        assert(decimal(n).drop_last() =~= decimal(n / 10));
    }
}

/// Writing the value of a shortest-form numeral gives that numeral again.
pub proof fn lemma_value_decimal(s: Seq<u8>)
    requires
        is_canonical_numeral(s),
    ensures
        decimal(digits_value(s)) == s,
    decreases s.len(),
{
    let init = s.drop_last();
    if s.len() == 1 {
        assert(init =~= Seq::<u8>::empty());
        assert(digits_value(init) == 0);
        assert(decimal(digits_value(s)) =~= s);
    } else {
        assert(init[0] == s[0]);
        assert(is_canonical_numeral(init)) by {
            assert forall|i: int| 0 <= i < init.len() implies is_digit(#[trigger] init[i]) by {
                assert(init[i] == s[i]);
            }
        }
        lemma_value_decimal(init);
        lemma_decimal_canonical(digits_value(init));
        assert(digits_value(init) >= 1);
        assert(is_digit(s[s.len() - 1]));
        assert(decimal(digits_value(s)) =~= s);
    }
}

/// Tells whether a byte is an ASCII decimal digit.
pub fn is_numeric(c: u8) -> (r: bool)
    ensures
        r == is_digit(c),
{
    c >= 0x30 && c <= 0x39
}

/// Appends the decimal numeral of `n` to `buf`.
pub fn push_decimal(buf: &mut Vec<u8>, n: u64)
    ensures
        final(buf)@ == old(buf)@ + decimal(n as nat),
    decreases n,
{
    if n >= 10 {
        push_decimal(buf, n / 10);
    }
    let digit: u8 = (n % 10) as u8;
    buf.push(0x30 + digit);
    assert(buf@ =~= old(buf)@ + decimal(n as nat));
}

/// Appends the bytes of `src` to `buf`.
pub fn append_bytes(buf: &mut Vec<u8>, src: &[u8])
    ensures
        final(buf)@ == old(buf)@ + src@,
{
    let mut i: usize = 0;
    while i < src.len()
        invariant
            0 <= i <= src.len(),
            buf@ == old(buf)@ + src@.subrange(0, i as int),
        decreases src.len() - i,
    {
        buf.push(src[i]);
        i += 1;
        assert(buf@ =~= old(buf)@ + src@.subrange(0, i as int));
    }
    assert(src@.subrange(0, i as int) =~= src@);
}

} // verus!
