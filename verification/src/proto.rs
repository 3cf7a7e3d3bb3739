//! The typed requests and responses of the announce and scrape endpoints.

use vstd::prelude::*;
use crate::order::bytes_equal;
use crate::peer::{InfoHash, Peer, PeerId};

verus! {

/// Why a request or a response cannot be handled.
#[derive(Debug)]
pub enum Error {
    /// A failure described by its message.
    Other(String),
}

impl Error {
    /// The message of the error, as a view.
    pub open spec fn text(self) -> Seq<char> {
        match self {
            Error::Other(s) => s@,
        }
    }

    /// The message of the error.
    pub fn message(&self) -> (s: String)
        ensures
            s@ == self.text(),
    {
        match self {
            Error::Other(s) => s.clone(),
        }
    }
}

/// What a peer reports with an announce.
#[derive(Clone, Copy, Debug, PartialEq, Eq, Structural)]
pub enum Event {
    /// Nothing: a regular announce.
    Empty,
    /// The peer has started the download.
    Started,
    /// The peer has stopped.
    Stopped,
    /// The peer has completed the download.
    Completed,
}

/// The name `started`.
pub open spec fn name_started() -> Seq<u8> {
    seq![0x73u8, 0x74u8, 0x61u8, 0x72u8, 0x74u8, 0x65u8, 0x64u8]
}

/// The name `stopped`.
pub open spec fn name_stopped() -> Seq<u8> {
    seq![0x73u8, 0x74u8, 0x6fu8, 0x70u8, 0x70u8, 0x65u8, 0x64u8]
}

/// The name `completed`.
pub open spec fn name_completed() -> Seq<u8> {
    seq![0x63u8, 0x6fu8, 0x6du8, 0x70u8, 0x6cu8, 0x65u8, 0x74u8, 0x65u8, 0x64u8]
}

/// The event that a request names: none where the parameter is absent, the
/// event of that name where it is one of `started`, `stopped` and
/// `completed`, and no event at all for any other name.
pub open spec fn event_named(name: Option<Seq<u8>>) -> Option<Event> {
    match name {
        None => Some(Event::Empty),
        Some(n) => if n == name_started() {
            Some(Event::Started)
        } else if n == name_stopped() {
            Some(Event::Stopped)
        } else if n == name_completed() {
            Some(Event::Completed)
        } else {
            None
        },
    }
}

/// The view of an optional byte string.
pub open spec fn name_view(name: Option<&[u8]>) -> Option<Seq<u8>> {
    match name {
        None => None,
        Some(n) => Some(n@),
    }
}

impl Default for Event {
    fn default() -> (e: Event)
        ensures
            e == Event::Empty,
    {
        Event::Empty
    }
}

impl Event {
    /// Reads the `event` parameter of an announce.
    pub fn from_name(name: Option<&[u8]>) -> (r: Option<Event>)
        ensures
            r == event_named(name_view(name)),
    {
        match name {
            None => Some(Event::Empty),
            Some(n) => {
                let started: Vec<u8> = vec![0x73u8, 0x74u8, 0x61u8, 0x72u8, 0x74u8, 0x65u8, 0x64u8];
                let stopped: Vec<u8> = vec![0x73u8, 0x74u8, 0x6fu8, 0x70u8, 0x70u8, 0x65u8, 0x64u8];
                let completed: Vec<u8> = vec![
                    0x63u8,
                    0x6fu8,
                    0x6du8,
                    0x70u8,
                    0x6cu8,
                    0x65u8,
                    0x74u8,
                    0x65u8,
                    0x64u8,
                ];
                assert(started@ =~= name_started());
                assert(stopped@ =~= name_stopped());
                assert(completed@ =~= name_completed());
                if bytes_equal(n, started.as_slice()) {
                    Some(Event::Started)
                } else if bytes_equal(n, stopped.as_slice()) {
                    Some(Event::Stopped)
                } else if bytes_equal(n, completed.as_slice()) {
                    Some(Event::Completed)
                } else {
                    None
                }
            },
        }
    }
}

/// Copies 20 bytes into an identifier.
fn identifier(bytes: &[u8]) -> (id: [u8; 20])
    requires
        bytes@.len() == 20,
    ensures
        id@ == bytes@,
{
    let mut id: [u8; 20] = [0u8; 20];
    let mut i: usize = 0;
    while i < 20
        invariant
            0 <= i <= 20,
            bytes@.len() == 20,
            id@.len() == 20,
            forall|j: int| 0 <= j < i ==> id@[j] == bytes@[j],
        decreases 20 - i,
    {
        id[i] = bytes[i];
        i += 1;
    }
    assert(id@ =~= bytes@);
    id
}

impl InfoHash {
    /// The identifier that `bytes` holds, if they are 20.
    pub fn from_bytes(bytes: &[u8]) -> (r: Option<InfoHash>)
        ensures
            r is Some <==> bytes@.len() == 20,
            r matches Some(hash) ==> hash.0@ == bytes@,
    {
        if bytes.len() == 20 {
            Some(InfoHash(identifier(bytes)))
        } else {
            None
        }
    }
}

impl PeerId {
    /// The identifier that `bytes` holds, if they are 20.
    pub fn from_bytes(bytes: &[u8]) -> (r: Option<PeerId>)
        ensures
            r is Some <==> bytes@.len() == 20,
            r matches Some(id) ==> id.0@ == bytes@,
    {
        if bytes.len() == 20 {
            Some(PeerId(identifier(bytes)))
        } else {
            None
        }
    }
}

/// The statistics of a swarm.
#[derive(Clone, Copy, Debug, PartialEq, Eq, Structural)]
pub struct PeerStatistics {
    /// The number of peers that hold the whole torrent.
    pub complete: u32,
    /// The number of times the torrent was downloaded to the end.
    pub downloaded: u32,
    /// The number of peers that do not yet hold the whole torrent.
    pub incomplete: u32,
}

/// An announce: a peer tells the tracker where it stands and asks for peers.
#[derive(Debug)]
pub struct AnnounceRequest {
    /// The torrent.
    pub info_hash: InfoHash,
    /// The peer that announces.
    pub peer_id: PeerId,
    /// The port at which the peer listens.
    pub port: u16,
    /// The number of bytes that the peer has uploaded.
    pub uploaded: u64,
    /// The number of bytes that the peer has downloaded.
    pub downloaded: u64,
    /// The number of bytes that the peer still has to download.
    pub left: u64,
    /// What the peer reports.
    pub event: Event,
    /// The form of peer list asked for: `1` compact, `0` long, absent the
    /// default.
    pub compact: Option<u8>,
}

/// Whether the parameters of an announce are acceptable: both identifiers
/// are 20 bytes long, the event is a known one, and the compact flag, if
/// present, is `0` or `1`.
pub open spec fn announce_acceptable(
    info_hash: Seq<u8>,
    peer_id: Seq<u8>,
    event: Option<Seq<u8>>,
    compact: Option<u8>,
) -> bool {
    &&& info_hash.len() == 20
    &&& peer_id.len() == 20
    &&& event_named(event) is Some
    &&& (compact matches Some(flag) ==> flag <= 1)
}

/// The message of the error that names the first of the parameters of an
/// announce that is not acceptable.
pub open spec fn announce_rejection(
    info_hash: Seq<u8>,
    peer_id: Seq<u8>,
    event: Option<Seq<u8>>,
    compact: Option<u8>,
) -> Seq<char> {
    if info_hash.len() != 20 {
        "info_hash must be 20 bytes long"@
    } else if peer_id.len() != 20 {
        "peer_id must be 20 bytes long"@
    } else if event_named(event) is None {
        "event is not a known one"@
    } else {
        "compact must be 0 or 1"@
    }
}

impl AnnounceRequest {
    /// Builds an announce from the values of its parameters. Returns the
    /// request exactly where the parameters are acceptable, and otherwise
    /// the error that names the first parameter that is not.
    pub fn new(
        info_hash: &[u8],
        peer_id: &[u8],
        port: u16,
        uploaded: u64,
        downloaded: u64,
        left: u64,
        event: Option<&[u8]>,
        compact: Option<u8>,
    ) -> (r: Result<AnnounceRequest, Error>)
        ensures
            r is Ok <==> announce_acceptable(info_hash@, peer_id@, name_view(event), compact),
            r matches Ok(request) ==> {
                &&& request.info_hash.0@ == info_hash@
                &&& request.peer_id.0@ == peer_id@
                &&& request.port == port
                &&& request.uploaded == uploaded
                &&& request.downloaded == downloaded
                &&& request.left == left
                &&& Some(request.event) == event_named(name_view(event))
                &&& request.compact == compact
            },
            r matches Err(e) ==> e.text() == announce_rejection(
                info_hash@,
                peer_id@,
                name_view(event),
                compact,
            ),
    {
        let hash = match InfoHash::from_bytes(info_hash) {
            Some(hash) => hash,
            None => {
                return Err(Error::Other("info_hash must be 20 bytes long".to_owned()));
            },
        };
        let id = match PeerId::from_bytes(peer_id) {
            Some(id) => id,
            None => {
                return Err(Error::Other("peer_id must be 20 bytes long".to_owned()));
            },
        };
        let event = match Event::from_name(event) {
            Some(event) => event,
            None => {
                return Err(Error::Other("event is not a known one".to_owned()));
            },
        };
        match compact {
            Some(flag) => {
                if flag > 1 {
                    return Err(Error::Other("compact must be 0 or 1".to_owned()));
                }
            },
            None => {},
        }
        Ok(
            AnnounceRequest {
                info_hash: hash,
                peer_id: id,
                port,
                uploaded,
                downloaded,
                left,
                event,
                compact,
            },
        )
    }

    /// Whether the request asks for the compact form of the peer list: it
    /// does unless its flag is present and not `1`.
    pub fn wants_compact(&self) -> (r: bool)
        ensures
            r == (self.compact is None || self.compact == Some(1u8)),
    {
        match self.compact {
            None => true,
            Some(flag) => flag == 1,
        }
    }
}

/// A scrape: a request for the statistics of some torrents.
#[derive(Debug)]
pub struct ScrapeRequest {
    /// The torrents asked about.
    pub info_hash: Vec<InfoHash>,
}

/// Whether every one of `hashes` is 20 bytes long.
pub open spec fn hashes_acceptable(hashes: Seq<Vec<u8>>) -> bool {
    forall|i: int| 0 <= i < hashes.len() ==> (#[trigger] hashes[i])@.len() == 20
}

impl ScrapeRequest {
    /// Builds a scrape from the values of its `info_hash` parameters.
    /// Returns the request exactly where every value is 20 bytes long, and
    /// otherwise an error that says so.
    pub fn new(hashes: &Vec<Vec<u8>>) -> (r: Result<ScrapeRequest, Error>)
        ensures
            r is Ok <==> hashes_acceptable(hashes@),
            r matches Ok(request) ==> {
                &&& request.info_hash@.len() == hashes@.len()
                &&& forall|i: int|
                    0 <= i < hashes@.len() ==> (#[trigger] request.info_hash@[i]).0@ == hashes@[i]@
            },
            r matches Err(e) ==> e.text() == "info_hash must be 20 bytes long"@,
    {
        let mut out: Vec<InfoHash> = Vec::new();
        let mut i: usize = 0;
        while i < hashes.len()
            invariant
                0 <= i <= hashes.len(),
                out@.len() == i,
                forall|j: int| 0 <= j < i ==> (#[trigger] hashes@[j])@.len() == 20,
                forall|j: int| 0 <= j < i ==> (#[trigger] out@[j]).0@ == hashes@[j]@,
            decreases hashes.len() - i,
        {
            match InfoHash::from_bytes(hashes[i].as_slice()) {
                Some(hash) => {
                    out.push(hash);
                },
                None => {
                    return Err(Error::Other("info_hash must be 20 bytes long".to_owned()));
                },
            }
            i += 1;
        }
        Ok(ScrapeRequest { info_hash: out })
    }
}

/// The peers of one address family in a response: either a compact blob or
/// the peers themselves, never both.
#[derive(Debug, PartialEq)]
pub enum PeerData {
    /// The compact blob of the peers.
    Compact(Vec<u8>),
    /// The peers, to be written in long form.
    Long(Vec<Peer>),
}

/// The answer to an announce.
#[derive(Debug, PartialEq)]
pub struct AnnounceResponse {
    /// The number of seconds after which the peer should announce again.
    pub interval: u32,
    /// The IPv4 peers.
    pub peers: PeerData,
    /// The IPv6 peers.
    pub peers6: PeerData,
}

/// The answer to a scrape.
#[derive(Debug, PartialEq)]
pub struct ScrapeResponse {
    /// The statistics of each torrent asked about. Where a torrent occurs
    /// more than once, its last entry counts.
    pub files: Vec<(InfoHash, PeerStatistics)>,
}

} // verus!
