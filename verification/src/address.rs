//! The text form of a peer address, as the long form of a peer list gives it.
//!
//! An IPv4 address is written as four decimal numbers with dots between
//! them. An IPv6 address is written as eight groups of lower-case hexadecimal
//! digits with colons between them, the leftmost of its longest runs of two
//! or more zero groups shortened to `::`; an address that maps an IPv4
//! address is written as `::ffff:` and that address.

use vstd::prelude::*;
use crate::buffer::be_bytes;
use crate::peer::PeerAddr;
use crate::text::{decimal, push_decimal};

verus! {

/// The text of an IPv4 address: its four bytes in decimal, with dots.
pub open spec fn ipv4_text(addr: u32) -> Seq<u8> {
    let b = be_bytes(addr as nat, 4);
    decimal(b[0] as nat) + seq![0x2eu8] + decimal(b[1] as nat) + seq![0x2eu8] + decimal(
        b[2] as nat,
    ) + seq![0x2eu8] + decimal(b[3] as nat)
}

/// The lower-case hexadecimal digit that stands for `d`, for `d` below
/// sixteen.
pub open spec fn hex_digit(d: nat) -> u8 {
    if d < 10 {
        (0x30 + d) as u8
    } else {
        (0x61 + d - 10) as u8
    }
}

/// The hexadecimal numeral of `n`: most significant digit first, no padding.
pub open spec fn hex_text(n: nat) -> Seq<u8>
    decreases n,
{
    if n < 16 {
        seq![hex_digit(n)]
    } else {
        hex_text(n / 16).push(hex_digit(n % 16))
    }
}

/// The `width` low-order 16-bit groups of `n`, most significant first.
pub open spec fn be_groups(n: nat, width: nat) -> Seq<u16>
    decreases width,
{
    if width == 0 {
        Seq::empty()
    } else {
        be_groups(n / 0x10000, (width - 1) as nat).push((n % 0x10000) as u16)
    }
}

/// The groups of `g` in hexadecimal, with colons between them.
pub open spec fn groups_text(g: Seq<u16>) -> Seq<u8>
    decreases g.len(),
{
    if g.len() == 0 {
        Seq::empty()
    } else if g.len() == 1 {
        hex_text(g[0] as nat)
    } else {
        groups_text(g.drop_last()) + seq![0x3au8] + hex_text(g.last() as nat)
    }
}

/// The number of zero groups that stand in a row from position `i` of `g`.
pub open spec fn zeros_from(g: Seq<u16>, i: int) -> nat
    decreases g.len() - i,
{
    if 0 <= i < g.len() && g[i] == 0 {
        1 + zeros_from(g, i + 1)
    } else {
        0
    }
}

/// The start and the length of the longest run of zero groups that starts
/// before position `upto`; of several such runs the leftmost.
pub open spec fn longest_zero_run(g: Seq<u16>, upto: int) -> (int, nat)
    decreases upto,
{
    if upto <= 0 {
        (0, 0)
    } else {
        let before = longest_zero_run(g, upto - 1);
        if zeros_from(g, upto - 1) > before.1 {
            (upto - 1, zeros_from(g, upto - 1))
        } else {
            before
        }
    }
}

/// The bytes `::ffff:`, which open the text of an address that maps an IPv4
/// address.
pub open spec fn mapped_prefix() -> Seq<u8> {
    seq![0x3au8, 0x3au8, 0x66u8, 0x66u8, 0x66u8, 0x66u8, 0x3au8]
}

/// The text of an IPv6 address.
pub open spec fn ipv6_text(addr: u128) -> Seq<u8> {
    let g = be_groups(addr as nat, 8);
    let run = longest_zero_run(g, 8);
    if addr / 0x1_0000_0000 == 0xffff {
        mapped_prefix() + ipv4_text((addr % 0x1_0000_0000) as u32)
    } else if run.1 > 1 {
        groups_text(g.subrange(0, run.0)) + seq![0x3au8, 0x3au8] + groups_text(
            g.subrange(run.0 + run.1, 8),
        )
    } else {
        groups_text(g)
    }
}

/// The text of a peer address.
pub open spec fn addr_text(addr: PeerAddr) -> Seq<u8> {
    match addr {
        PeerAddr::V4(a) => ipv4_text(a),
        PeerAddr::V6(a) => ipv6_text(a),
    }
}

/// `be_groups` gives `width` groups.
pub proof fn lemma_be_groups_len(n: nat, width: nat)
    ensures
        be_groups(n, width).len() == width,
    decreases width,
{
    if width > 0 {
        lemma_be_groups_len(n / 0x10000, (width - 1) as nat);
    }
}

/// Appends the text of an IPv4 address to `buf`.
pub fn push_ipv4_text(buf: &mut Vec<u8>, addr: u32)
    ensures
        final(buf)@ == old(buf)@ + ipv4_text(addr),
{
    let d: u32 = addr % 256;
    let rest: u32 = addr / 256;
    let c: u32 = rest % 256;
    let rest: u32 = rest / 256;
    let b: u32 = rest % 256;
    let rest: u32 = rest / 256;
    let a: u32 = rest % 256;
    proof {
        reveal_with_fuel(be_bytes, 5);
        let bytes = be_bytes(addr as nat, 4);
        assert(bytes[3] == d && bytes[2] == c && bytes[1] == b && bytes[0] == a);
    }
    push_decimal(buf, a as u64);
    buf.push(0x2e);
    push_decimal(buf, b as u64);
    buf.push(0x2e);
    push_decimal(buf, c as u64);
    buf.push(0x2e);
    push_decimal(buf, d as u64);
    assert(buf@ =~= old(buf)@ + ipv4_text(addr));
}

/// Appends the hexadecimal numeral of `n` to `buf`.
pub fn push_hex(buf: &mut Vec<u8>, n: u16)
    ensures
        final(buf)@ == old(buf)@ + hex_text(n as nat),
    decreases n,
{
    if n >= 16 {
        push_hex(buf, n / 16);
    }
    let d: u8 = (n % 16) as u8;
    if d < 10 {
        buf.push(0x30 + d);
    } else {
        buf.push(0x61 + (d - 10));
    }
    assert(buf@ =~= old(buf)@ + hex_text(n as nat));
}

/// Appends the `width` low-order 16-bit groups of `n` to `groups`, most
/// significant first.
fn push_groups(groups: &mut Vec<u16>, n: u128, width: usize)
    ensures
        final(groups)@ == old(groups)@ + be_groups(n as nat, width as nat),
    decreases width,
{
    if width > 0 {
        push_groups(groups, n / 0x10000, width - 1);
        groups.push((n % 0x10000) as u16);
    }
    assert(groups@ =~= old(groups)@ + be_groups(n as nat, width as nat));
}

/// Counts the zero groups that stand in a row from position `i`.
fn count_zeros(g: &Vec<u16>, i: usize) -> (n: usize)
    requires
        i <= g.len(),
    ensures
        n == zeros_from(g@, i as int),
        i + n <= g.len(),
{
    let mut j: usize = i;
    while j < g.len() && g[j] == 0
        invariant
            i <= j <= g.len(),
            zeros_from(g@, i as int) == (j - i) + zeros_from(g@, j as int),
        decreases g.len() - j,
    {
        j += 1;
    }
    j - i
}

/// Finds the leftmost of the longest runs of zero groups: its start and its
/// length.
fn find_zero_run(g: &Vec<u16>) -> (run: (usize, usize))
    ensures
        (run.0 as int, run.1 as nat) == longest_zero_run(g@, g@.len() as int),
        run.0 + run.1 <= g.len(),
{
    let mut start: usize = 0;
    let mut length: usize = 0;
    let mut i: usize = 0;
    while i < g.len()
        invariant
            0 <= i <= g.len(),
            (start as int, length as nat) == longest_zero_run(g@, i as int),
            start + length <= g.len(),
        decreases g.len() - i,
    {
        let here = count_zeros(g, i);
        if here > length {
            start = i;
            length = here;
        }
        i += 1;
    }
    (start, length)
}

/// Appends the groups of `g` from `from` up to `to` to `buf`, in hexadecimal
/// with colons between them.
fn push_groups_text(buf: &mut Vec<u8>, g: &Vec<u16>, from: usize, to: usize)
    requires
        from <= to <= g.len(),
    ensures
        final(buf)@ == old(buf)@ + groups_text(g@.subrange(from as int, to as int)),
{
    let mut i: usize = from;
    assert(g@.subrange(from as int, from as int) =~= Seq::<u16>::empty());
    while i < to
        invariant
            from <= i <= to <= g.len(),
            buf@ == old(buf)@ + groups_text(g@.subrange(from as int, i as int)),
        decreases to - i,
    {
        proof {
            let more = g@.subrange(from as int, i + 1);
            assert(more.drop_last() =~= g@.subrange(from as int, i as int));
            assert(more.last() == g@[i as int]);
        }
        if i > from {
            buf.push(0x3a);
        }
        push_hex(buf, g[i]);
        i += 1;
        assert(buf@ =~= old(buf)@ + groups_text(g@.subrange(from as int, i as int)));
    }
}

/// Appends the text of an IPv6 address to `buf`.
pub fn push_ipv6_text(buf: &mut Vec<u8>, addr: u128)
    ensures
        final(buf)@ == old(buf)@ + ipv6_text(addr),
{
    if addr / 0x1_0000_0000 == 0xffff {
        buf.push(0x3a);
        buf.push(0x3a);
        buf.push(0x66);
        buf.push(0x66);
        buf.push(0x66);
        buf.push(0x66);
        buf.push(0x3a);
        push_ipv4_text(buf, (addr % 0x1_0000_0000) as u32);
        assert(buf@ =~= old(buf)@ + ipv6_text(addr));
    } else {
        let mut groups: Vec<u16> = Vec::new();
        push_groups(&mut groups, addr, 8);
        proof {
            lemma_be_groups_len(addr as nat, 8);
            assert(groups@ =~= be_groups(addr as nat, 8));
        }
        let (start, length) = find_zero_run(&groups);
        if length > 1 {
            push_groups_text(buf, &groups, 0, start);
            buf.push(0x3a);
            buf.push(0x3a);
            push_groups_text(buf, &groups, start + length, 8);
            assert(buf@ =~= old(buf)@ + ipv6_text(addr));
        } else {
            push_groups_text(buf, &groups, 0, 8);
            assert(groups@.subrange(0, 8) =~= groups@);
            assert(buf@ =~= old(buf)@ + ipv6_text(addr));
        }
    }
}

/// The text form of a peer address.
pub fn address_text(addr: &PeerAddr) -> (text: Vec<u8>)
    ensures
        text@ == addr_text(*addr),
{
    let mut buf: Vec<u8> = Vec::new();
    match addr {
        PeerAddr::V4(a) => push_ipv4_text(&mut buf, *a),
        PeerAddr::V6(a) => push_ipv6_text(&mut buf, *a),
    }
    assert(buf@ =~= addr_text(*addr));
    buf
}

} // verus!
