use bittorrent::peer::Handshake;

#[test]
fn to_bytes() {
    let info_hash = [1_u8; 20];
    let handshake = Handshake::new(info_hash);

    let handshake_bytes = handshake.to_bytes();

    assert_eq!(handshake_bytes.len(), Handshake::SIZE, "Wrong length");
}

#[test]
fn from_bytes() {
    let info_hash = [1_u8; 20];
    let handshake = Handshake::new(info_hash);

    let handshake_bytes = handshake.to_bytes();

    let handshake = Handshake::from_bytes(&handshake_bytes);

    assert!(handshake.is_ok());

    let handshake = handshake.unwrap();
    assert_eq!(handshake.info_hash, info_hash, "Wrong info hash");
    assert_eq!(handshake.length, 19, "Wrong len");
    assert_eq!(handshake.bit_torrent, *b"BitTorrent protocol", "Wrong bitorrent");
    assert_eq!(handshake.peer_id, *b"00112233445566778890", "Wrong peer id");
    assert_eq!(handshake.reserved, [0; 8], "Wrong reserved");
}

#[test]
fn from_bytes_rejects_wrong_length() {
    let mut bytes = Handshake::new([7_u8; 20]).to_bytes();
    bytes.pop();
    assert!(Handshake::from_bytes(&bytes).is_err());
    bytes.push(0);
    bytes.push(0);
    assert!(Handshake::from_bytes(&bytes).is_err());
}
