//! The assembly of responses: from the typed answer of the tracker to the
//! value that is encoded as the body of the HTTP response.

use vstd::prelude::*;
use crate::address::{addr_text, address_text};
use crate::encode::{encode, encoding};
use crate::keys::{
    complete_key,
    downloaded_key,
    failure_reason_key,
    files_key,
    incomplete_key,
    interval_key,
    ip_key,
    key_complete,
    key_downloaded,
    key_failure_reason,
    key_files,
    key_incomplete,
    key_interval,
    key_ip,
    key_peer_id,
    key_peers,
    key_peers6,
    key_port,
    lemma_key_order,
    peer_id_key,
    peers6_key,
    peers_key,
    port_key,
};
use crate::peer::{
    compact_peers,
    compact_v4,
    compact_v6,
    InfoHash,
    Peer,
    PeerAddr,
};
use crate::proto::{AnnounceResponse, Error, PeerData, PeerStatistics, ScrapeResponse};
use crate::text::append_bytes;
use crate::value::{
    entries_insert,
    lemma_insert_keeps_order,
    lemma_lower_bound,
    lower_bound,
    values_view,
    Bencode,
    Dict,
    Value,
};

verus! {

/// The IPv4 peers of a list, in the order of the list.
pub open spec fn family_v4(peers: Seq<Peer>) -> Seq<Peer>
    decreases peers.len(),
{
    if peers.len() == 0 {
        Seq::empty()
    } else if peers.last().ip is V4 {
        family_v4(peers.drop_last()).push(peers.last())
    } else {
        family_v4(peers.drop_last())
    }
}

/// The IPv6 peers of a list, in the order of the list.
pub open spec fn family_v6(peers: Seq<Peer>) -> Seq<Peer>
    decreases peers.len(),
{
    if peers.len() == 0 {
        Seq::empty()
    } else if peers.last().ip is V6 {
        family_v6(peers.drop_last()).push(peers.last())
    } else {
        family_v6(peers.drop_last())
    }
}

/// A peer in long form: a dictionary of its address as text, its identifier
/// and its port.
pub open spec fn peer_model(peer: Peer) -> Bencode {
    Bencode::Dict(
        seq![
            (key_ip(), Bencode::Str(addr_text(peer.ip))),
            (key_peer_id(), Bencode::Str(peer.peer_id.0@)),
            (key_port(), Bencode::Int(peer.port as int)),
        ],
    )
}

/// The peers of a list in long form, in the order of the list.
pub open spec fn peers_model(peers: Seq<Peer>) -> Seq<Bencode> {
    Seq::new(peers.len(), |i: int| peer_model(peers[i]))
}

/// The peers of one family as a value: the blob as a string, or the list of
/// the peers in long form.
pub open spec fn peer_data_model(data: PeerData) -> Bencode {
    match data {
        PeerData::Compact(blob) => Bencode::Str(blob@),
        PeerData::Long(peers) => Bencode::List(peers_model(peers@)),
    }
}

/// The answer to an announce as a value: a dictionary of the interval and
/// of the peers of each family.
pub open spec fn announce_model(response: AnnounceResponse) -> Bencode {
    Bencode::Dict(
        seq![
            (key_interval(), Bencode::Int(response.interval as int)),
            (key_peers(), peer_data_model(response.peers)),
            (key_peers6(), peer_data_model(response.peers6)),
        ],
    )
}

/// The statistics of a swarm as a value.
pub open spec fn stats_model(stats: PeerStatistics) -> Bencode {
    Bencode::Dict(
        seq![
            (key_complete(), Bencode::Int(stats.complete as int)),
            (key_downloaded(), Bencode::Int(stats.downloaded as int)),
            (key_incomplete(), Bencode::Int(stats.incomplete as int)),
        ],
    )
}

/// The entries of the dictionary of torrents: each torrent's identifier
/// bound to its statistics, the last entry of a torrent winning.
pub open spec fn files_model(files: Seq<(InfoHash, PeerStatistics)>) -> Seq<(Seq<u8>, Bencode)>
    decreases files.len(),
{
    if files.len() == 0 {
        Seq::empty()
    } else {
        entries_insert(
            files_model(files.drop_last()),
            files.last().0.0@,
            stats_model(files.last().1),
        )
    }
}

/// The answer to a scrape as a value: a dictionary that holds, under
/// `files`, the dictionary of torrents.
pub open spec fn scrape_model(response: ScrapeResponse) -> Bencode {
    Bencode::Dict(seq![(key_files(), Bencode::Dict(files_model(response.files@)))])
}

/// A failure as a value: a dictionary that holds the reason.
pub open spec fn failure_model(reason: Seq<u8>) -> Bencode {
    Bencode::Dict(seq![(key_failure_reason(), Bencode::Str(reason))])
}

/// Whether a counter can be written as an integer of a document.
pub open spec fn fits_int(n: u32) -> bool {
    n <= i32::MAX
}

/// Whether the statistics of every torrent can be written as integers.
pub open spec fn stats_fit(files: Seq<(InfoHash, PeerStatistics)>) -> bool {
    forall|i: int|
        0 <= i < files.len() ==> {
            &&& fits_int((#[trigger] files[i]).1.complete)
            &&& fits_int(files[i].1.downloaded)
            &&& fits_int(files[i].1.incomplete)
        }
}

/// A peer in long form is a canonical value.
pub proof fn lemma_peer_model_wf(peer: Peer)
    ensures
        peer_model(peer).wf(),
        peer_model(peer).fits_depth(1),
{
    lemma_key_order();
    let entries = peer_model(peer)->Dict_0;
    assert(entries[0].1.wf() && entries[1].1.wf() && entries[2].1.wf());
    assert(entries[0].1.fits_depth(0) && entries[1].1.fits_depth(0) && entries[2].1.fits_depth(
        0,
    ));
}

/// The answer to an announce is a canonical value that nests three levels
/// deep at most, if its interval can be written as an integer.
pub proof fn lemma_announce_model_wf(response: AnnounceResponse)
    requires
        fits_int(response.interval),
    ensures
        announce_model(response).wf(),
        announce_model(response).fits_depth(3),
{
    lemma_key_order();
    let entries = announce_model(response)->Dict_0;
    assert forall|i: int| 0 <= i < entries.len() implies (#[trigger] entries[i]).1.wf()
        && entries[i].1.fits_depth(2) by {
        if i > 0 {
            let data = if i == 1 {
                response.peers
            } else {
                response.peers6
            };
            assert(entries[i].1 == peer_data_model(data));
            match data {
                PeerData::Compact(blob) => {},
                PeerData::Long(peers) => {
                    let items = peers_model(peers@);
                    assert forall|j: int| 0 <= j < items.len() implies (#[trigger] items[j]).wf()
                        && items[j].fits_depth(1) by {
                        lemma_peer_model_wf(peers@[j]);
                    }
                },
            }
        }
    }
}

/// The dictionary of torrents has strictly ascending keys, and its values
/// are canonical where the statistics can be written as integers.
pub proof fn lemma_files_model_wf(files: Seq<(InfoHash, PeerStatistics)>)
    requires
        stats_fit(files),
    ensures
        Bencode::Dict(files_model(files)).wf(),
        Bencode::Dict(files_model(files)).fits_depth(2),
    decreases files.len(),
{
    if files.len() > 0 {
        let init = files.drop_last();
        let last = files.last();
        assert(stats_fit(init)) by {
            assert forall|i: int| 0 <= i < init.len() implies fits_int(
                (#[trigger] init[i]).1.complete,
            ) && fits_int(init[i].1.downloaded) && fits_int(init[i].1.incomplete) by {
                assert(init[i] == files[i]);
            }
        }
        lemma_files_model_wf(init);
        let before = files_model(init);
        let after = files_model(files);
        lemma_insert_keeps_order(before, last.0.0@, stats_model(last.1));
        lemma_lower_bound(before, last.0.0@);
        lemma_key_order();
        let stats = stats_model(last.1);
        assert(stats.wf() && stats.fits_depth(1)) by {
            let fields = stats->Dict_0;
            assert(files[files.len() - 1] == last);
            assert(fields[0].1.wf() && fields[1].1.wf() && fields[2].1.wf());
            assert(fields[0].1.fits_depth(0) && fields[1].1.fits_depth(0)
                && fields[2].1.fits_depth(0));
        }
        assert forall|i: int| 0 <= i < after.len() implies (#[trigger] after[i]).1.wf()
            && after[i].1.fits_depth(1) by {
            let p = lower_bound(before, last.0.0@);
            if p < before.len() && before[p].0 == last.0.0@ {
                if i != p {
                    assert(after[i] == before[i]);
                }
            } else {
                if i < p {
                    assert(after[i] == before[i]);
                } else if i > p {
                    assert(after[i] == before[i - 1]);
                }
            }
        }
    }
}

/// The answer to a scrape is a canonical value that nests three levels deep
/// at most, if its statistics can be written as integers.
pub proof fn lemma_scrape_model_wf(response: ScrapeResponse)
    requires
        stats_fit(response.files@),
    ensures
        scrape_model(response).wf(),
        scrape_model(response).fits_depth(3),
{
    lemma_files_model_wf(response.files@);
    let entries = scrape_model(response)->Dict_0;
    assert(entries[0].1 == Bencode::Dict(files_model(response.files@)));
}

/// Parts a peer list by address family, the IPv4 peers first. Peers keep
/// the order of the list.
pub fn split_families(peers: &Vec<Peer>) -> (parts: (Vec<Peer>, Vec<Peer>))
    ensures
        parts.0@ == family_v4(peers@),
        parts.1@ == family_v6(peers@),
{
    let mut v4: Vec<Peer> = Vec::new();
    let mut v6: Vec<Peer> = Vec::new();
    let mut i: usize = 0;
    assert(peers@.subrange(0, 0) =~= Seq::<Peer>::empty());
    while i < peers.len()
        invariant
            0 <= i <= peers.len(),
            v4@ == family_v4(peers@.subrange(0, i as int)),
            v6@ == family_v6(peers@.subrange(0, i as int)),
        decreases peers.len() - i,
    {
        let peer = peers[i];
        proof {
            let more = peers@.subrange(0, i + 1);
            assert(more.drop_last() =~= peers@.subrange(0, i as int));
            assert(more.last() == peer);
        }
        match peer.ip {
            PeerAddr::V4(_) => {
                v4.push(peer);
            },
            PeerAddr::V6(_) => {
                v6.push(peer);
            },
        }
        i += 1;
    }
    assert(peers@.subrange(0, i as int) =~= peers@);
    (v4, v6)
}

impl AnnounceResponse {
    /// The answer to an announce: the interval and the peers, parted by
    /// family, in compact form if `compact` and in long form otherwise. A
    /// list that is to be packed must be short enough for a blob of it to
    /// fit in the largest allocation, `isize::MAX` bytes.
    pub fn new(interval: u32, peers: &Vec<Peer>, compact: bool) -> (response: AnnounceResponse)
        requires
            compact ==> 18 * peers.len() <= isize::MAX,
        ensures
            response.interval == interval,
            compact ==> {
                &&& response.peers matches PeerData::Compact(blob) && blob@ == compact_v4(peers@)
                &&& response.peers6 matches PeerData::Compact(blob) && blob@ == compact_v6(
                    peers@,
                )
            },
            !compact ==> {
                &&& response.peers matches PeerData::Long(list) && list@ == family_v4(peers@)
                &&& response.peers6 matches PeerData::Long(list) && list@ == family_v6(peers@)
            },
    {
        if compact {
            let (v4, v6) = compact_peers(peers);
            AnnounceResponse {
                interval,
                peers: PeerData::Compact(v4),
                peers6: PeerData::Compact(v6),
            }
        } else {
            let (v4, v6) = split_families(peers);
            AnnounceResponse { interval, peers: PeerData::Long(v4), peers6: PeerData::Long(v6) }
        }
    }

    /// The response as a value. It is given exactly where the interval can
    /// be written as an integer.
    pub fn to_value(&self) -> (r: Result<Value, Error>)
        ensures
            r is Ok <==> fits_int(self.interval),
            r matches Ok(value) ==> value@ == announce_model(*self),
            r matches Err(e) ==> e.text() == "interval exceeds the range of an integer"@,
    {
        if self.interval > 2147483647 {
            return Err(Error::Other("interval exceeds the range of an integer".to_owned()));
        }
        let mut dict = Dict::new();
        proof {
            lemma_key_order();
        }
        dict.push_entry(interval_key(), Value::Int(self.interval as i32));
        dict.push_entry(peers_key(), peer_data_value(&self.peers));
        dict.push_entry(peers6_key(), peer_data_value(&self.peers6));
        assert(dict@ =~= announce_model(*self)->Dict_0);
        Ok(Value::Dict(dict))
    }
}

/// Copies an identifier into a byte string.
fn id_bytes(id: &[u8; 20]) -> (bytes: Vec<u8>)
    ensures
        bytes@ == id@,
{
    let mut bytes: Vec<u8> = Vec::new();
    let mut i: usize = 0;
    while i < 20
        invariant
            0 <= i <= 20,
            bytes@.len() == i,
            forall|j: int| 0 <= j < i ==> bytes@[j] == id@[j],
        decreases 20 - i,
    {
        bytes.push(id[i]);
        i += 1;
    }
    assert(bytes@ =~= id@);
    bytes
}

/// A peer in long form.
pub fn peer_value(peer: &Peer) -> (value: Value)
    ensures
        value@ == peer_model(*peer),
{
    let mut dict = Dict::new();
    proof {
        lemma_key_order();
    }
    dict.push_entry(ip_key(), Value::Str(address_text(&peer.ip)));
    dict.push_entry(peer_id_key(), Value::Str(id_bytes(&peer.peer_id.0)));
    dict.push_entry(port_key(), Value::Int(peer.port as i32));
    assert(dict@ =~= peer_model(*peer)->Dict_0);
    Value::Dict(dict)
}

/// The peers of one family as a value: the shape that is populated, and
/// nothing of the other.
pub fn peer_data_value(data: &PeerData) -> (value: Value)
    ensures
        value@ == peer_data_model(*data),
{
    match data {
        PeerData::Compact(blob) => {
            let mut bytes: Vec<u8> = Vec::new();
            append_bytes(&mut bytes, blob.as_slice());
            assert(bytes@ =~= blob@);
            Value::Str(bytes)
        },
        PeerData::Long(peers) => {
            let mut items: Vec<Value> = Vec::new();
            let mut i: usize = 0;
            while i < peers.len()
                invariant
                    0 <= i <= peers.len(),
                    items@.len() == i,
                    forall|j: int| 0 <= j < i ==> (#[trigger] items@[j])@ == peer_model(peers@[j]),
                decreases peers.len() - i,
            {
                items.push(peer_value(&peers[i]));
                i += 1;
            }
            assert(values_view(items) =~= peers_model(peers@));
            Value::List(items)
        },
    }
}

/// The statistics of a swarm as a value, where they can be written as
/// integers.
pub fn stats_value(stats: &PeerStatistics) -> (r: Option<Value>)
    ensures
        r is Some <==> fits_int(stats.complete) && fits_int(stats.downloaded) && fits_int(
            stats.incomplete,
        ),
        r matches Some(value) ==> value@ == stats_model(*stats),
{
    if stats.complete > 2147483647 || stats.downloaded > 2147483647 || stats.incomplete
        > 2147483647 {
        return None;
    }
    let mut dict = Dict::new();
    proof {
        lemma_key_order();
    }
    dict.push_entry(complete_key(), Value::Int(stats.complete as i32));
    dict.push_entry(downloaded_key(), Value::Int(stats.downloaded as i32));
    dict.push_entry(incomplete_key(), Value::Int(stats.incomplete as i32));
    assert(dict@ =~= stats_model(*stats)->Dict_0);
    Some(Value::Dict(dict))
}

impl ScrapeResponse {
    /// The response as a value. It is given exactly where the statistics of
    /// every torrent can be written as integers.
    pub fn to_value(&self) -> (r: Result<Value, Error>)
        ensures
            r is Ok <==> stats_fit(self.files@),
            r matches Ok(value) ==> value@ == scrape_model(*self),
            r matches Err(e) ==> e.text() == "statistics exceed the range of an integer"@,
    {
        let mut files = Dict::new();
        let mut i: usize = 0;
        assert(self.files@.subrange(0, 0) =~= Seq::<(InfoHash, PeerStatistics)>::empty());
        while i < self.files.len()
            invariant
                0 <= i <= self.files.len(),
                files@ == files_model(self.files@.subrange(0, i as int)),
                stats_fit(self.files@.subrange(0, i as int)),
            decreases self.files.len() - i,
        {
            let hash = &self.files[i].0;
            let stats = &self.files[i].1;
            proof {
                let more = self.files@.subrange(0, i + 1);
                assert(more.drop_last() =~= self.files@.subrange(0, i as int));
                assert(more.last() == self.files@[i as int]);
            }
            match stats_value(stats) {
                None => {
                    return Err(
                        Error::Other("statistics exceed the range of an integer".to_owned()),
                    );
                },
                Some(value) => {
                    files.insert(id_bytes(&hash.0), value);
                },
            }
            i += 1;
            assert(stats_fit(self.files@.subrange(0, i as int))) by {
                let more = self.files@.subrange(0, i as int);
                assert forall|j: int| 0 <= j < more.len() implies fits_int(
                    (#[trigger] more[j]).1.complete,
                ) && fits_int(more[j].1.downloaded) && fits_int(more[j].1.incomplete) by {
                    if j < i - 1 {
                        assert(more[j] == self.files@.subrange(0, i - 1)[j]);
                    }
                }
            }
        }
        assert(self.files@.subrange(0, i as int) =~= self.files@);
        let mut dict = Dict::new();
        dict.push_entry(files_key(), Value::Dict(files));
        assert(dict@ =~= scrape_model(*self)->Dict_0);
        Ok(Value::Dict(dict))
    }
}

/// A failure as a value.
pub fn failure_value(reason: &[u8]) -> (value: Value)
    ensures
        value@ == failure_model(reason@),
{
    let mut bytes: Vec<u8> = Vec::new();
    append_bytes(&mut bytes, reason);
    assert(bytes@ =~= reason@);
    let mut dict = Dict::new();
    dict.push_entry(failure_reason_key(), Value::Str(bytes));
    assert(dict@ =~= failure_model(reason@)->Dict_0);
    Value::Dict(dict)
}

/// The body of the answer to an announce: the encoding of the response as a
/// value, given exactly where the value is.
pub fn encode_announce(response: &AnnounceResponse) -> (r: Result<Vec<u8>, Error>)
    ensures
        r is Ok <==> fits_int(response.interval),
        r matches Ok(body) ==> body@ == encoding(announce_model(*response)),
        r matches Err(e) ==> e.text() == "interval exceeds the range of an integer"@,
{
    match response.to_value() {
        Ok(value) => Ok(encode(&value)),
        Err(e) => Err(e),
    }
}

/// The answer to an announce as a value, from what the tracker knows: the
/// interval and the peers of each family, as blobs if `compact` and in long
/// form otherwise.
pub open spec fn announce_model_of(interval: u32, peers: Seq<Peer>, compact: bool) -> Bencode {
    Bencode::Dict(
        seq![
            (key_interval(), Bencode::Int(interval as int)),
            (
                key_peers(),
                if compact {
                    Bencode::Str(compact_v4(peers))
                } else {
                    Bencode::List(peers_model(family_v4(peers)))
                },
            ),
            (
                key_peers6(),
                if compact {
                    Bencode::Str(compact_v6(peers))
                } else {
                    Bencode::List(peers_model(family_v6(peers)))
                },
            ),
        ],
    )
}

/// Whether an announce can be answered: the interval can be written as an
/// integer, and the peers, if they are to be packed, fit in the largest
/// allocation.
pub open spec fn announce_answerable(interval: u32, peers: Seq<Peer>, compact: bool) -> bool {
    &&& fits_int(interval)
    &&& (compact ==> 18 * peers.len() <= isize::MAX)
}

/// The body of the answer to an announce, from what the tracker knows. It
/// is given exactly where the announce can be answered.
pub fn announce_body(interval: u32, peers: &Vec<Peer>, compact: bool) -> (r: Result<
    Vec<u8>,
    Error,
>)
    ensures
        r is Ok <==> announce_answerable(interval, peers@, compact),
        r matches Ok(body) ==> body@ == encoding(announce_model_of(interval, peers@, compact)),
        r matches Err(e) ==> e.text() == if compact && 18 * peers@.len() > isize::MAX {
            "too many peers to pack"@
        } else {
            "interval exceeds the range of an integer"@
        },
{
    if compact && peers.len() > (isize::MAX as usize) / 18 {
        return Err(Error::Other("too many peers to pack".to_owned()));
    }
    let response = AnnounceResponse::new(interval, peers, compact);
    assert(announce_model(response) =~= announce_model_of(interval, peers@, compact)) by {
        assert(announce_model(response)->Dict_0 =~= announce_model_of(
            interval,
            peers@,
            compact,
        )->Dict_0);
    }
    encode_announce(&response)
}

/// The body of the answer to a scrape: the encoding of the response as a
/// value, given exactly where the value is.
pub fn encode_scrape(response: &ScrapeResponse) -> (r: Result<Vec<u8>, Error>)
    ensures
        r is Ok <==> stats_fit(response.files@),
        r matches Ok(body) ==> body@ == encoding(scrape_model(*response)),
        r matches Err(e) ==> e.text() == "statistics exceed the range of an integer"@,
{
    match response.to_value() {
        Ok(value) => Ok(encode(&value)),
        Err(e) => Err(e),
    }
}

/// The body of a failure response: the encoding of the failure as a value.
pub fn encode_failure(reason: &[u8]) -> (body: Vec<u8>)
    ensures
        body@ == encoding(failure_model(reason@)),
{
    encode(&failure_value(reason))
}

} // verus!
