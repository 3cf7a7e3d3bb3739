//! The dictionary keys of tracker responses, as byte strings.

use vstd::prelude::*;
use crate::order::bytes_lt;

verus! {

/// The key `interval`, under which a response gives the announce interval.
pub open spec fn key_interval() -> Seq<u8> {
    seq![0x69u8, 0x6eu8, 0x74u8, 0x65u8, 0x72u8, 0x76u8, 0x61u8, 0x6cu8]
}

/// The key `interval` as a byte string.
pub fn interval_key() -> (key: Vec<u8>)
    ensures
        key@ == key_interval(),
{
    let key: Vec<u8> = vec![0x69u8, 0x6eu8, 0x74u8, 0x65u8, 0x72u8, 0x76u8, 0x61u8, 0x6cu8];
    assert(key@ =~= key_interval());
    key
}

/// The key `peers`, under which a response gives the IPv4 peers.
pub open spec fn key_peers() -> Seq<u8> {
    seq![0x70u8, 0x65u8, 0x65u8, 0x72u8, 0x73u8]
}

/// The key `peers` as a byte string.
pub fn peers_key() -> (key: Vec<u8>)
    ensures
        key@ == key_peers(),
{
    let key: Vec<u8> = vec![0x70u8, 0x65u8, 0x65u8, 0x72u8, 0x73u8];
    assert(key@ =~= key_peers());
    key
}

/// The key `peers6`, under which a response gives the IPv6 peers.
pub open spec fn key_peers6() -> Seq<u8> {
    seq![0x70u8, 0x65u8, 0x65u8, 0x72u8, 0x73u8, 0x36u8]
}

/// The key `peers6` as a byte string.
pub fn peers6_key() -> (key: Vec<u8>)
    ensures
        key@ == key_peers6(),
{
    let key: Vec<u8> = vec![0x70u8, 0x65u8, 0x65u8, 0x72u8, 0x73u8, 0x36u8];
    assert(key@ =~= key_peers6());
    key
}

/// The key `peer id`, under which a response gives the identifier of a peer.
pub open spec fn key_peer_id() -> Seq<u8> {
    seq![0x70u8, 0x65u8, 0x65u8, 0x72u8, 0x20u8, 0x69u8, 0x64u8]
}

/// The key `peer id` as a byte string.
pub fn peer_id_key() -> (key: Vec<u8>)
    ensures
        key@ == key_peer_id(),
{
    let key: Vec<u8> = vec![0x70u8, 0x65u8, 0x65u8, 0x72u8, 0x20u8, 0x69u8, 0x64u8];
    assert(key@ =~= key_peer_id());
    key
}

/// The key `ip`, under which a response gives the address of a peer.
pub open spec fn key_ip() -> Seq<u8> {
    seq![0x69u8, 0x70u8]
}

/// The key `ip` as a byte string.
pub fn ip_key() -> (key: Vec<u8>)
    ensures
        key@ == key_ip(),
{
    let key: Vec<u8> = vec![0x69u8, 0x70u8];
    assert(key@ =~= key_ip());
    key
}

/// The key `port`, under which a response gives the port of a peer.
pub open spec fn key_port() -> Seq<u8> {
    seq![0x70u8, 0x6fu8, 0x72u8, 0x74u8]
}

/// The key `port` as a byte string.
pub fn port_key() -> (key: Vec<u8>)
    ensures
        key@ == key_port(),
{
    let key: Vec<u8> = vec![0x70u8, 0x6fu8, 0x72u8, 0x74u8];
    assert(key@ =~= key_port());
    key
}

/// The key `files`, under which a response gives the statistics of each torrent.
pub open spec fn key_files() -> Seq<u8> {
    seq![0x66u8, 0x69u8, 0x6cu8, 0x65u8, 0x73u8]
}

/// The key `files` as a byte string.
pub fn files_key() -> (key: Vec<u8>)
    ensures
        key@ == key_files(),
{
    let key: Vec<u8> = vec![0x66u8, 0x69u8, 0x6cu8, 0x65u8, 0x73u8];
    assert(key@ =~= key_files());
    key
}

/// The key `complete`, under which a response gives the number of seeders.
pub open spec fn key_complete() -> Seq<u8> {
    seq![0x63u8, 0x6fu8, 0x6du8, 0x70u8, 0x6cu8, 0x65u8, 0x74u8, 0x65u8]
}

/// The key `complete` as a byte string.
pub fn complete_key() -> (key: Vec<u8>)
    ensures
        key@ == key_complete(),
{
    let key: Vec<u8> = vec![0x63u8, 0x6fu8, 0x6du8, 0x70u8, 0x6cu8, 0x65u8, 0x74u8, 0x65u8];
    assert(key@ =~= key_complete());
    key
}

/// The key `downloaded`, under which a response gives the number of completed downloads.
pub open spec fn key_downloaded() -> Seq<u8> {
    seq![0x64u8, 0x6fu8, 0x77u8, 0x6eu8, 0x6cu8, 0x6fu8, 0x61u8, 0x64u8, 0x65u8, 0x64u8]
}

/// The key `downloaded` as a byte string.
pub fn downloaded_key() -> (key: Vec<u8>)
    ensures
        key@ == key_downloaded(),
{
    let key: Vec<u8> = vec![0x64u8, 0x6fu8, 0x77u8, 0x6eu8, 0x6cu8, 0x6fu8, 0x61u8, 0x64u8, 0x65u8, 0x64u8];
    assert(key@ =~= key_downloaded());
    key
}

/// The key `incomplete`, under which a response gives the number of leechers.
pub open spec fn key_incomplete() -> Seq<u8> {
    seq![0x69u8, 0x6eu8, 0x63u8, 0x6fu8, 0x6du8, 0x70u8, 0x6cu8, 0x65u8, 0x74u8, 0x65u8]
}

/// The key `incomplete` as a byte string.
pub fn incomplete_key() -> (key: Vec<u8>)
    ensures
        key@ == key_incomplete(),
{
    let key: Vec<u8> = vec![0x69u8, 0x6eu8, 0x63u8, 0x6fu8, 0x6du8, 0x70u8, 0x6cu8, 0x65u8, 0x74u8, 0x65u8];
    assert(key@ =~= key_incomplete());
    key
}

/// The key `failure reason`, under which a response gives the reason of a failure.
pub open spec fn key_failure_reason() -> Seq<u8> {
    seq![0x66u8, 0x61u8, 0x69u8, 0x6cu8, 0x75u8, 0x72u8, 0x65u8, 0x20u8, 0x72u8, 0x65u8, 0x61u8, 0x73u8, 0x6fu8, 0x6eu8]
}

/// The key `failure reason` as a byte string.
pub fn failure_reason_key() -> (key: Vec<u8>)
    ensures
        key@ == key_failure_reason(),
{
    let key: Vec<u8> = vec![0x66u8, 0x61u8, 0x69u8, 0x6cu8, 0x75u8, 0x72u8, 0x65u8, 0x20u8, 0x72u8, 0x65u8, 0x61u8, 0x73u8, 0x6fu8, 0x6eu8];
    assert(key@ =~= key_failure_reason());
    key
}

/// The keys of each dictionary of a response, in the order in which they are
/// written here, are strictly ascending.
pub proof fn lemma_key_order()
    ensures
        bytes_lt(key_interval(), key_peers()),
        bytes_lt(key_peers(), key_peers6()),
        bytes_lt(key_interval(), key_peers6()),
        bytes_lt(key_ip(), key_peer_id()),
        bytes_lt(key_peer_id(), key_port()),
        bytes_lt(key_ip(), key_port()),
        bytes_lt(key_complete(), key_downloaded()),
        bytes_lt(key_downloaded(), key_incomplete()),
        bytes_lt(key_complete(), key_incomplete()),
{
    reveal_with_fuel(bytes_lt, 8);
    let peers = key_peers();
    let peers6 = key_peers6();
    assert(peers.drop_first().drop_first().drop_first().drop_first().drop_first().len() == 0);
    assert(peers6.drop_first().drop_first().drop_first().drop_first().drop_first().len() == 1);
}

} // verus!
