use hanekawa::encode::encode;
use hanekawa::parse::parse;
use hanekawa::peer::{InfoHash, Peer, PeerAddr, PeerId};
use hanekawa::proto::{
    AnnounceRequest, AnnounceResponse, Error, Event, PeerData, PeerStatistics, ScrapeRequest,
    ScrapeResponse,
};
use hanekawa::response::{
    announce_body, encode_announce, encode_failure, encode_scrape, failure_value, peer_value,
};
use hanekawa::value::Value;

const ID: &str = "-TR2940-k8hj0wgej6ch";
const HASH: &str = "aaaaaaaaaaaaaaaaaaaa";

fn id(s: &str) -> [u8; 20] {
    let mut out = [0u8; 20];
    out.copy_from_slice(s.as_bytes());
    out
}

fn sample_peers() -> Vec<Peer> {
    vec![
        Peer {
            peer_id: PeerId(id(ID)),
            ip: PeerAddr::V4(0xc000_0201),
            port: 6881,
        },
        Peer {
            peer_id: PeerId(id(ID)),
            ip: PeerAddr::V6(0x2001_0db8_0000_0000_0000_0000_0000_0001),
            port: 51413,
        },
    ]
}

#[test]
fn announce_without_peers() {
    let compact = AnnounceResponse::new(30, &vec![], true);
    assert_eq!(
        "d8:intervali30e5:peers0:6:peers60:e".as_bytes(),
        encode_announce(&compact).unwrap()
    );
    let long = AnnounceResponse::new(30, &vec![], false);
    assert_eq!(
        "d8:intervali30e5:peersle6:peers6lee".as_bytes(),
        encode_announce(&long).unwrap()
    );
}

#[test]
fn announce_in_compact_form() {
    let response = AnnounceResponse::new(1800, &sample_peers(), true);
    assert_eq!(1800, response.interval);
    assert_eq!(
        PeerData::Compact(vec![192, 0, 2, 1, 0x1a, 0xe1]),
        response.peers
    );
    let mut expected = "d8:intervali1800e5:peers6:".as_bytes().to_vec();
    expected.extend_from_slice(&[192, 0, 2, 1, 0x1a, 0xe1]);
    expected.extend_from_slice("6:peers618:".as_bytes());
    expected.extend_from_slice(&[0x20, 0x01, 0x0d, 0xb8, 0, 0, 0, 0, 0, 0, 0, 0, 0, 0, 0, 1]);
    expected.extend_from_slice(&[0xc8, 0xd5]);
    expected.push(b'e');
    assert_eq!(expected, encode_announce(&response).unwrap());
}

#[test]
fn announce_in_long_form() {
    let peers = sample_peers();
    let response = AnnounceResponse::new(1800, &peers, false);
    assert_eq!(PeerData::Long(vec![peers[0]]), response.peers);
    assert_eq!(PeerData::Long(vec![peers[1]]), response.peers6);
    let expected = format!(
        "d8:intervali1800e5:peersld2:ip9:192.0.2.17:peer id20:{}4:porti6881eee6:peers6ld2:ip11:2001:db8::17:peer id20:{}4:porti51413eeee",
        ID, ID
    );
    assert_eq!(expected.as_bytes(), encode_announce(&response).unwrap());
}

#[test]
fn peer_in_long_form() {
    let value = peer_value(&sample_peers()[0]);
    let expected = format!("d2:ip9:192.0.2.17:peer id20:{}4:porti6881ee", ID);
    assert_eq!(expected.as_bytes(), encode(&value));
    match value {
        Value::Dict(d) => {
            assert_eq!(3, d.len());
            assert_eq!(Some(&Value::Int(6881)), d.get("port".as_bytes()));
            assert_eq!(
                Some(&Value::Str("192.0.2.1".as_bytes().to_vec())),
                d.get("ip".as_bytes())
            );
            assert_eq!(
                Some(&Value::Str(ID.as_bytes().to_vec())),
                d.get("peer id".as_bytes())
            );
        }
        _ => panic!("a peer is a dictionary"),
    }
}

#[test]
fn announce_with_an_interval_out_of_range() {
    let response = AnnounceResponse::new(2147483648, &vec![], true);
    assert!(matches!(encode_announce(&response), Err(Error::Other(_))));
    assert!(response.to_value().is_err());
    let largest = AnnounceResponse::new(2147483647, &vec![], true);
    assert_eq!(
        "d8:intervali2147483647e5:peers0:6:peers60:e".as_bytes(),
        encode_announce(&largest).unwrap()
    );
}

#[test]
fn responses_parse_back() {
    for compact in [true, false] {
        let response = AnnounceResponse::new(900, &sample_peers(), compact);
        let value = response.to_value().unwrap();
        assert_eq!(Ok(value.clone()), parse(&encode(&value)));
        assert_eq!(encode(&value), encode_announce(&response).unwrap());
    }
}

fn stats(complete: u32, downloaded: u32, incomplete: u32) -> PeerStatistics {
    PeerStatistics {
        complete,
        downloaded,
        incomplete,
    }
}

#[test]
fn scrape_without_torrents() {
    let response = ScrapeResponse { files: vec![] };
    assert_eq!("d5:filesdee".as_bytes(), encode_scrape(&response).unwrap());
}

#[test]
fn scrape_orders_torrents_and_keeps_the_last_entry() {
    let b = InfoHash(id("bbbbbbbbbbbbbbbbbbbb"));
    let a = InfoHash(id(HASH));
    let response = ScrapeResponse {
        files: vec![(b, stats(1, 2, 3)), (a, stats(4, 5, 6)), (b, stats(7, 8, 9))],
    };
    let expected = "d5:filesd20:aaaaaaaaaaaaaaaaaaaad8:completei4e10:downloadedi5e10:incompletei6ee20:bbbbbbbbbbbbbbbbbbbbd8:completei7e10:downloadedi8e10:incompletei9eeee";
    let body = encode_scrape(&response).unwrap();
    assert_eq!(expected.as_bytes(), body);
    assert_eq!(Ok(response.to_value().unwrap()), parse(&body));
}

#[test]
fn scrape_with_statistics_out_of_range() {
    let a = InfoHash(id(HASH));
    for bad in [
        stats(2147483648, 0, 0),
        stats(0, u32::MAX, 0),
        stats(0, 0, 2147483648),
    ] {
        let response = ScrapeResponse {
            files: vec![(a, stats(1, 1, 1)), (a, bad)],
        };
        assert!(matches!(encode_scrape(&response), Err(Error::Other(_))));
    }
    let response = ScrapeResponse {
        files: vec![(a, stats(2147483647, 2147483647, 2147483647))],
    };
    assert!(encode_scrape(&response).is_ok());
}

#[test]
fn failure_response() {
    assert_eq!(
        "d14:failure reason15:invalid requeste".as_bytes(),
        encode_failure("invalid request".as_bytes())
    );
    assert_eq!(
        encode(&failure_value("x".as_bytes())),
        encode_failure("x".as_bytes())
    );
}

#[test]
fn errors_say_what_was_wrong() {
    let message = |r: Result<AnnounceRequest, Error>| r.unwrap_err().message();
    assert_eq!(
        "info_hash must be 20 bytes long",
        message(announce(&[], &[], Some("x".as_bytes()), Some(9)))
    );
    assert_eq!(
        "peer_id must be 20 bytes long",
        message(announce(HASH.as_bytes(), &[], Some("x".as_bytes()), Some(9)))
    );
    assert_eq!(
        "event is not a known one",
        message(announce(HASH.as_bytes(), ID.as_bytes(), Some("x".as_bytes()), Some(9)))
    );
    assert_eq!(
        "compact must be 0 or 1",
        message(announce(HASH.as_bytes(), ID.as_bytes(), None, Some(9)))
    );
    assert_eq!(
        "info_hash must be 20 bytes long",
        ScrapeRequest::new(&vec![vec![]]).unwrap_err().message()
    );
    assert_eq!(
        "interval exceeds the range of an integer",
        announce_body(u32::MAX, &vec![], false).unwrap_err().message()
    );
    assert_eq!(
        "statistics exceed the range of an integer",
        encode_scrape(&ScrapeResponse {
            files: vec![(InfoHash(id(HASH)), stats(u32::MAX, 0, 0))]
        })
        .unwrap_err()
        .message()
    );
}

#[test]
fn error_message() {
    let error = Error::Other("something failed".to_string());
    assert_eq!("something failed", error.message());
}

#[test]
fn events_by_name() {
    assert_eq!(Some(Event::Empty), Event::from_name(None));
    assert_eq!(Some(Event::Started), Event::from_name(Some("started".as_bytes())));
    assert_eq!(Some(Event::Stopped), Event::from_name(Some("stopped".as_bytes())));
    assert_eq!(
        Some(Event::Completed),
        Event::from_name(Some("completed".as_bytes()))
    );
    assert_eq!(None, Event::from_name(Some("paused".as_bytes())));
    assert_eq!(None, Event::from_name(Some("".as_bytes())));
    assert_eq!(None, Event::from_name(Some("Started".as_bytes())));
    assert_eq!(Event::Empty, Event::default());
}

#[test]
fn identifiers_are_20_bytes_long() {
    assert_eq!(Some(InfoHash(id(HASH))), InfoHash::from_bytes(HASH.as_bytes()));
    assert_eq!(Some(PeerId(id(ID))), PeerId::from_bytes(ID.as_bytes()));
    assert_eq!(None, InfoHash::from_bytes(&HASH.as_bytes()[..19]));
    assert_eq!(None, PeerId::from_bytes(&[0u8; 21]));
    assert_eq!(None, InfoHash::from_bytes(&[]));
}

fn announce(
    hash: &[u8],
    peer: &[u8],
    event: Option<&[u8]>,
    compact: Option<u8>,
) -> Result<AnnounceRequest, Error> {
    AnnounceRequest::new(hash, peer, 6881, 10, 20, 30, event, compact)
}

#[test]
fn announce_request_from_parameters() {
    let request = announce(HASH.as_bytes(), ID.as_bytes(), Some("started".as_bytes()), Some(0)).unwrap();
    assert_eq!(InfoHash(id(HASH)), request.info_hash);
    assert_eq!(PeerId(id(ID)), request.peer_id);
    assert_eq!(6881, request.port);
    assert_eq!(10, request.uploaded);
    assert_eq!(20, request.downloaded);
    assert_eq!(30, request.left);
    assert_eq!(Event::Started, request.event);
    assert_eq!(Some(0), request.compact);
    assert!(!request.wants_compact());
}

#[test]
fn announce_request_defaults() {
    let request = announce(HASH.as_bytes(), ID.as_bytes(), None, None).unwrap();
    assert_eq!(Event::Empty, request.event);
    assert_eq!(None, request.compact);
    assert!(request.wants_compact());
    let request = announce(HASH.as_bytes(), ID.as_bytes(), None, Some(1)).unwrap();
    assert!(request.wants_compact());
}

#[test]
fn announce_request_rejects_bad_parameters() {
    assert!(announce(&HASH.as_bytes()[1..], ID.as_bytes(), None, None).is_err());
    assert!(announce(HASH.as_bytes(), &[], None, None).is_err());
    assert!(announce(HASH.as_bytes(), ID.as_bytes(), Some("begun".as_bytes()), None).is_err());
    assert!(announce(HASH.as_bytes(), ID.as_bytes(), None, Some(2)).is_err());
}

#[test]
fn scrape_request_from_parameters() {
    let request = ScrapeRequest::new(&vec![]).unwrap();
    assert!(request.info_hash.is_empty());
    let request =
        ScrapeRequest::new(&vec![HASH.as_bytes().to_vec(), ID.as_bytes().to_vec()]).unwrap();
    assert_eq!(vec![InfoHash(id(HASH)), InfoHash(id(ID))], request.info_hash);
    assert!(ScrapeRequest::new(&vec![HASH.as_bytes().to_vec(), vec![1, 2, 3]]).is_err());
}

#[test]
fn announce_body_from_peers() {
    let peers = sample_peers();
    for compact in [true, false] {
        let response = AnnounceResponse::new(1800, &peers, compact);
        assert_eq!(
            encode_announce(&response).unwrap(),
            announce_body(1800, &peers, compact).unwrap()
        );
    }
    assert_eq!(
        "d8:intervali30e5:peers0:6:peers60:e".as_bytes(),
        announce_body(30, &vec![], true).unwrap()
    );
    assert!(matches!(
        announce_body(4000000000, &peers, true),
        Err(Error::Other(_))
    ));
}
