use hanekawa::address::address_text;
use hanekawa::peer::{compact_peers, Peer, PeerAddr, PeerId};
use hanekawa::response::split_families;

fn peer(ip: PeerAddr, port: u16) -> Peer {
    Peer {
        peer_id: PeerId([7u8; 20]),
        ip,
        port,
    }
}

#[test]
fn compact_record_of_an_ipv4_peer() {
    // 192.0.2.1, port 6881
    let (v4, v6) = compact_peers(&vec![peer(PeerAddr::V4(0xc000_0201), 6881)]);
    assert_eq!(vec![192, 0, 2, 1, 0x1a, 0xe1], v4);
    assert!(v6.is_empty());
    let addr = u32::from_be_bytes([v4[0], v4[1], v4[2], v4[3]]);
    let port = u16::from_be_bytes([v4[4], v4[5]]);
    assert_eq!(0xc000_0201, addr);
    assert_eq!(6881, port);
}

#[test]
fn compact_record_of_an_ipv6_peer() {
    // 2001:db8::1, port 6881
    let addr: u128 = 0x2001_0db8_0000_0000_0000_0000_0000_0001;
    let (v4, v6) = compact_peers(&vec![peer(PeerAddr::V6(addr), 6881)]);
    assert!(v4.is_empty());
    assert_eq!(
        vec![0x20, 0x01, 0x0d, 0xb8, 0, 0, 0, 0, 0, 0, 0, 0, 0, 0, 0, 1, 0x1a, 0xe1],
        v6
    );
    let mut bytes = [0u8; 16];
    bytes.copy_from_slice(&v6[..16]);
    assert_eq!(addr, u128::from_be_bytes(bytes));
    assert_eq!(6881, u16::from_be_bytes([v6[16], v6[17]]));
}

#[test]
fn compact_blobs_keep_the_order_of_the_list() {
    let peers = vec![
        peer(PeerAddr::V4(0x0a00_0001), 1),
        peer(PeerAddr::V6(1), 2),
        peer(PeerAddr::V4(0x0a00_0002), 0xffff),
        peer(PeerAddr::V6(u128::MAX), 0),
        peer(PeerAddr::V4(0), 256),
    ];
    let (v4, v6) = compact_peers(&peers);
    assert_eq!(
        vec![10, 0, 0, 1, 0, 1, 10, 0, 0, 2, 0xff, 0xff, 0, 0, 0, 0, 1, 0],
        v4
    );
    let mut expected6 = vec![0u8; 15];
    expected6.extend_from_slice(&[1, 0, 2]);
    expected6.extend_from_slice(&[0xff; 16]);
    expected6.extend_from_slice(&[0, 0]);
    assert_eq!(expected6, v6);
}

#[test]
fn compact_blob_lengths() {
    let (v4, v6) = compact_peers(&vec![]);
    assert!(v4.is_empty() && v6.is_empty());
    for n in [1usize, 2, 7, 50] {
        let fours: Vec<Peer> = (0..n).map(|i| peer(PeerAddr::V4(i as u32), i as u16)).collect();
        let (v4, v6) = compact_peers(&fours);
        assert_eq!(6 * n, v4.len());
        assert_eq!(0, v6.len());
        let sixes: Vec<Peer> = (0..n).map(|i| peer(PeerAddr::V6(i as u128), i as u16)).collect();
        let (v4, v6) = compact_peers(&sixes);
        assert_eq!(0, v4.len());
        assert_eq!(18 * n, v6.len());
    }
}

#[test]
fn families_are_parted_in_order() {
    let a = peer(PeerAddr::V4(1), 1);
    let b = peer(PeerAddr::V6(2), 2);
    let c = peer(PeerAddr::V4(3), 3);
    let (v4, v6) = split_families(&vec![a, b, c]);
    assert_eq!(vec![a, c], v4);
    assert_eq!(vec![b], v6);
}

fn text_of(addr: PeerAddr) -> String {
    String::from_utf8(address_text(&addr)).unwrap()
}

#[test]
fn ipv4_text() {
    assert_eq!("192.0.2.1", text_of(PeerAddr::V4(0xc000_0201)));
    assert_eq!("0.0.0.0", text_of(PeerAddr::V4(0)));
    assert_eq!("255.255.255.255", text_of(PeerAddr::V4(u32::MAX)));
    assert_eq!("127.0.0.1", text_of(PeerAddr::V4(0x7f00_0001)));
    assert_eq!("10.20.30.40", text_of(PeerAddr::V4(0x0a14_1e28)));
}

#[test]
fn ipv6_text() {
    assert_eq!(
        "2001:db8::1",
        text_of(PeerAddr::V6(0x2001_0db8_0000_0000_0000_0000_0000_0001))
    );
    assert_eq!("::", text_of(PeerAddr::V6(0)));
    assert_eq!("::1", text_of(PeerAddr::V6(1)));
    assert_eq!(
        "1::",
        text_of(PeerAddr::V6(0x0001_0000_0000_0000_0000_0000_0000_0000))
    );
    assert_eq!(
        "fe80::1ff:fe23:4567:890a",
        text_of(PeerAddr::V6(0xfe80_0000_0000_0000_01ff_fe23_4567_890a))
    );
    assert_eq!(
        "ffff:ffff:ffff:ffff:ffff:ffff:ffff:ffff",
        text_of(PeerAddr::V6(u128::MAX))
    );
}

#[test]
fn ipv6_text_shortens_the_leftmost_longest_run() {
    assert_eq!(
        "2001:db8::1:0:0:1",
        text_of(PeerAddr::V6(0x2001_0db8_0000_0000_0001_0000_0000_0001))
    );
    assert_eq!(
        "2001:0:0:1::1",
        text_of(PeerAddr::V6(0x2001_0000_0000_0001_0000_0000_0000_0001))
    );
    assert_eq!(
        "2001:db8:0:1:1:1:1:1",
        text_of(PeerAddr::V6(0x2001_0db8_0000_0001_0001_0001_0001_0001))
    );
    assert_eq!(
        "1:0:1:0:1:0:1:0",
        text_of(PeerAddr::V6(0x0001_0000_0001_0000_0001_0000_0001_0000))
    );
    assert_eq!(
        "1:2:3:4:5:6::",
        text_of(PeerAddr::V6(0x0001_0002_0003_0004_0005_0006_0000_0000))
    );
}

#[test]
fn ipv6_text_of_a_mapped_ipv4_address() {
    assert_eq!(
        "::ffff:192.0.2.1",
        text_of(PeerAddr::V6(0xffff_c000_0201))
    );
    assert_eq!("::ffff:0.0.0.0", text_of(PeerAddr::V6(0xffff_0000_0000)));
    assert_eq!("::c000:201", text_of(PeerAddr::V6(0xc000_0201)));
}
