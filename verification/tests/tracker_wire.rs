use bittorrent::tracker::{PeerAddr, Peers, TrackerRequest, url_encode};

#[test]
fn tracker_request_defaults() {
    let r = TrackerRequest::new(String::from("00112233445566778899"), 1234);
    assert_eq!(r.peer_id, "00112233445566778899");
    assert_eq!(r.port, 6881);
    assert_eq!(r.uploaded, 0);
    assert_eq!(r.downloaded, 0);
    assert_eq!(r.left, 1234);
    assert!(r.compact);
}

#[test]
fn url_encode_percent_encodes_each_byte() {
    let mut hash = [0u8; 20];
    hash[0] = 0x12;
    hash[1] = 0xab;
    hash[19] = 0xff;
    let encoded = url_encode(&hash);
    let mut expected = String::new();
    for byte in hash.iter() {
        expected.push('%');
        expected.push_str(&hex::encode([*byte]));
    }
    assert_eq!(encoded, expected);
    assert!(encoded.starts_with("%12%ab%00"));
    assert!(encoded.ends_with("%ff"));
}

#[test]
fn peers_compact_decode() {
    let bytes = [127, 0, 0, 1, 0x1a, 0xe1, 10, 0, 0, 2, 0, 80];
    let peers = Peers::from_bytes(&bytes).expect("multiple of 6");
    assert_eq!(peers.0.len(), 2);
    assert_eq!(peers.0[0].ip, [127, 0, 0, 1]);
    assert_eq!(peers.0[0].port, 6881);
    assert_eq!(peers.0[1].ip, [10, 0, 0, 2]);
    assert_eq!(peers.0[1].port, 80);
}

#[test]
fn peers_compact_rejects_bad_length() {
    assert!(Peers::from_bytes(&[1, 2, 3, 4, 5]).is_none());
    assert!(Peers::from_bytes(&[1, 2, 3, 4, 5, 6, 7]).is_none());
}

#[test]
fn peers_compact_round_trip() {
    let bytes = vec![192, 168, 1, 9, 0x00, 0x50, 8, 8, 8, 8, 0xff, 0xff];
    let peers = Peers::from_bytes(&bytes).unwrap();
    assert_eq!(peers.to_bytes(), bytes);
    let rebuilt = Peers(vec![PeerAddr { ip: [192, 168, 1, 9], port: 80 }, PeerAddr {
        ip: [8, 8, 8, 8],
        port: 65535,
    }]);
    assert_eq!(rebuilt.to_bytes(), bytes);
}
