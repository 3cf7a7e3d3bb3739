//! Peers, and the compact form of a peer list.
//!
//! In compact form a peer is a fixed-width record: its address in network
//! byte order and its port in big-endian order, six bytes for an IPv4 peer
//! and eighteen for an IPv6 peer. The records of each family are packed one
//! after the other, in the order of the list.

use bytes::BytesMut;
use vstd::prelude::*;
use crate::buffer::{
    be_bytes,
    be_value,
    buffer_bytes,
    buffer_into_vec,
    buffer_new,
    buffer_put_u128,
    buffer_put_u16,
    buffer_put_u32,
    byte_range,
    lemma_be_bytes_len,
    lemma_be_round_trip,
};

verus! {

/// The 20-byte identifier of a torrent.
#[derive(Clone, Copy, Debug, PartialEq, Eq)]
pub struct InfoHash(pub [u8; 20]);

/// The 20-byte identifier that a peer chose for itself.
#[derive(Clone, Copy, Debug, PartialEq, Eq)]
pub struct PeerId(pub [u8; 20]);

/// The address of a peer, as the number that its bytes denote in network
/// byte order.
#[derive(Clone, Copy, Debug, PartialEq, Eq)]
pub enum PeerAddr {
    /// An IPv4 address.
    V4(u32),
    /// An IPv6 address.
    V6(u128),
}

/// A peer of a swarm.
#[derive(Clone, Copy, Debug, PartialEq, Eq)]
pub struct Peer {
    /// The identifier of the peer.
    pub peer_id: PeerId,
    /// The address at which the peer listens.
    pub ip: PeerAddr,
    /// The port at which the peer listens.
    pub port: u16,
}

/// The compact record of an IPv4 peer: four bytes of address, two of port.
pub open spec fn record_v4(addr: u32, port: u16) -> Seq<u8> {
    be_bytes(addr as nat, 4) + be_bytes(port as nat, 2)
}

/// The compact record of an IPv6 peer: sixteen bytes of address, two of port.
pub open spec fn record_v6(addr: u128, port: u16) -> Seq<u8> {
    be_bytes(addr as nat, 16) + be_bytes(port as nat, 2)
}

/// What a peer adds to the IPv4 blob: its record, or nothing if it is an
/// IPv6 peer.
pub open spec fn part_v4(peer: Peer) -> Seq<u8> {
    match peer.ip {
        PeerAddr::V4(addr) => record_v4(addr, peer.port),
        PeerAddr::V6(_) => Seq::empty(),
    }
}

/// What a peer adds to the IPv6 blob: its record, or nothing if it is an
/// IPv4 peer.
pub open spec fn part_v6(peer: Peer) -> Seq<u8> {
    match peer.ip {
        PeerAddr::V4(_) => Seq::empty(),
        PeerAddr::V6(addr) => record_v6(addr, peer.port),
    }
}

/// The IPv4 blob of a peer list: the records of its IPv4 peers, in the order
/// of the list.
pub open spec fn compact_v4(peers: Seq<Peer>) -> Seq<u8>
    decreases peers.len(),
{
    if peers.len() == 0 {
        Seq::empty()
    } else {
        compact_v4(peers.drop_last()) + part_v4(peers.last())
    }
}

/// The IPv6 blob of a peer list: the records of its IPv6 peers, in the order
/// of the list.
pub open spec fn compact_v6(peers: Seq<Peer>) -> Seq<u8>
    decreases peers.len(),
{
    if peers.len() == 0 {
        Seq::empty()
    } else {
        compact_v6(peers.drop_last()) + part_v6(peers.last())
    }
}

/// The number of IPv4 peers of a list.
pub open spec fn count_v4(peers: Seq<Peer>) -> nat
    decreases peers.len(),
{
    if peers.len() == 0 {
        0
    } else {
        count_v4(peers.drop_last()) + if peers.last().ip is V4 {
            1nat
        } else {
            0nat
        }
    }
}

/// The number of IPv6 peers of a list.
pub open spec fn count_v6(peers: Seq<Peer>) -> nat
    decreases peers.len(),
{
    if peers.len() == 0 {
        0
    } else {
        count_v6(peers.drop_last()) + if peers.last().ip is V6 {
            1nat
        } else {
            0nat
        }
    }
}

/// The IPv4 blob holds six bytes for each IPv4 peer and the IPv6 blob
/// eighteen for each IPv6 peer; every peer is of one family or the other.
pub proof fn lemma_compact_len(peers: Seq<Peer>)
    ensures
        compact_v4(peers).len() == 6 * count_v4(peers),
        compact_v6(peers).len() == 18 * count_v6(peers),
        count_v4(peers) + count_v6(peers) == peers.len(),
    decreases peers.len(),
{
    if peers.len() > 0 {
        lemma_compact_len(peers.drop_last());
        let peer = peers.last();
        lemma_be_bytes_len(peer.port as nat, 2);
        match peer.ip {
            PeerAddr::V4(addr) => {
                lemma_be_bytes_len(addr as nat, 4);
            },
            PeerAddr::V6(addr) => {
                lemma_be_bytes_len(addr as nat, 16);
            },
        }
    }
}

/// A list of IPv4 peers only packs into six bytes a peer, and a list of IPv6
/// peers only into eighteen bytes a peer.
pub proof fn lemma_compact_len_one_family(peers: Seq<Peer>)
    ensures
        (forall|i: int| 0 <= i < peers.len() ==> (#[trigger] peers[i]).ip is V4)
            ==> compact_v4(peers).len() == 6 * peers.len() && compact_v6(peers).len() == 0,
        (forall|i: int| 0 <= i < peers.len() ==> (#[trigger] peers[i]).ip is V6)
            ==> compact_v6(peers).len() == 18 * peers.len() && compact_v4(peers).len() == 0,
    decreases peers.len(),
{
    lemma_compact_len(peers);
    if peers.len() > 0 {
        let init = peers.drop_last();
        lemma_compact_len_one_family(init);
        lemma_compact_len(init);
        assert(forall|i: int| 0 <= i < init.len() ==> init[i] == peers[i]);
        assert(peers.last() == peers[peers.len() - 1]);
    }
}

/// The record of an IPv4 peer reads back as its address and port: the first
/// four bytes denote the address, the last two the port.
pub proof fn lemma_record_v4_reads_back(addr: u32, port: u16)
    ensures
        record_v4(addr, port).len() == 6,
        be_value(record_v4(addr, port).subrange(0, 4)) == addr,
        be_value(record_v4(addr, port).subrange(4, 6)) == port,
{
    reveal_with_fuel(byte_range, 5);
    lemma_be_round_trip(addr as nat, 4);
    lemma_be_round_trip(port as nat, 2);
    let record = record_v4(addr, port);
    assert(record.subrange(0, 4) =~= be_bytes(addr as nat, 4));
    assert(record.subrange(4, 6) =~= be_bytes(port as nat, 2));
}

/// The record of an IPv6 peer reads back as its address and port: the first
/// sixteen bytes denote the address, the last two the port.
pub proof fn lemma_record_v6_reads_back(addr: u128, port: u16)
    ensures
        record_v6(addr, port).len() == 18,
        be_value(record_v6(addr, port).subrange(0, 16)) == addr,
        be_value(record_v6(addr, port).subrange(16, 18)) == port,
{
    reveal_with_fuel(byte_range, 17);
    lemma_be_round_trip(addr as nat, 16);
    lemma_be_round_trip(port as nat, 2);
    let record = record_v6(addr, port);
    assert(record.subrange(0, 16) =~= be_bytes(addr as nat, 16));
    assert(record.subrange(16, 18) =~= be_bytes(port as nat, 2));
}

/// Packs a peer list into its two compact blobs, the IPv4 blob first. Peers
/// keep the order of the list; none is left out. The list must be short
/// enough for a blob of it to fit in the largest allocation, `isize::MAX`
/// bytes.
pub fn compact_peers(peers: &Vec<Peer>) -> (blobs: (Vec<u8>, Vec<u8>))
    requires
        18 * peers.len() <= isize::MAX,
    ensures
        blobs.0@ == compact_v4(peers@),
        blobs.1@ == compact_v6(peers@),
        blobs.0@.len() == 6 * count_v4(peers@),
        blobs.1@.len() == 18 * count_v6(peers@),
{
    let mut v4: BytesMut = buffer_new();
    let mut v6: BytesMut = buffer_new();
    let mut i: usize = 0;
    assert(peers@.subrange(0, 0) =~= Seq::<Peer>::empty());
    while i < peers.len()
        invariant
            0 <= i <= peers.len(),
            18 * peers.len() <= isize::MAX,
            buffer_bytes(v4) == compact_v4(peers@.subrange(0, i as int)),
            buffer_bytes(v6) == compact_v6(peers@.subrange(0, i as int)),
        decreases peers.len() - i,
    {
        let peer = &peers[i];
        proof {
            let done = peers@.subrange(0, i as int);
            let more = peers@.subrange(0, i + 1);
            lemma_compact_len(done);
            assert(more.drop_last() =~= done);
            assert(more.last() == *peer);
            lemma_be_bytes_len(peer.port as nat, 2);
        }
        match peer.ip {
            PeerAddr::V4(addr) => {
                proof {
                    lemma_be_bytes_len(addr as nat, 4);
                }
                buffer_put_u32(&mut v4, addr);
                buffer_put_u16(&mut v4, peer.port);
                assert(buffer_bytes(v4) =~= compact_v4(peers@.subrange(0, i + 1)));
                assert(buffer_bytes(v6) =~= compact_v6(peers@.subrange(0, i + 1)));
            },
            PeerAddr::V6(addr) => {
                proof {
                    lemma_be_bytes_len(addr as nat, 16);
                }
                buffer_put_u128(&mut v6, addr);
                buffer_put_u16(&mut v6, peer.port);
                assert(buffer_bytes(v4) =~= compact_v4(peers@.subrange(0, i + 1)));
                assert(buffer_bytes(v6) =~= compact_v6(peers@.subrange(0, i + 1)));
            },
        }
        i += 1;
    }
    proof {
        assert(peers@.subrange(0, i as int) =~= peers@);
        lemma_compact_len(peers@);
    }
    (buffer_into_vec(v4), buffer_into_vec(v6))
}

} // verus!
