use bittorrent::hashes::Hashes;

#[test]
fn hashes_round_trip() {
    // Any byte buffer whose length is a multiple of 20 decodes into piece
    // hashes and re-encodes to the original bytes exactly.
    let mut bytes = Vec::new();
    for i in 0..60 {
        bytes.push(i as u8);
    }
    let hashes = Hashes::from_bytes(&bytes).expect("length is a multiple of 20");
    assert_eq!(hashes.0.len(), 3);
    assert_eq!(hashes.0[0], {
        let mut h = [0u8; 20];
        for i in 0..20 {
            h[i] = i as u8;
        }
        h
    });
    assert_eq!(hashes.to_bytes(), bytes);
}

#[test]
fn hashes_round_trip_empty() {
    let hashes = Hashes::from_bytes(&[]).expect("zero is a multiple of 20");
    assert!(hashes.0.is_empty());
    assert!(hashes.to_bytes().is_empty());
}

#[test]
fn hashes_reject_partial_chunk() {
    assert!(Hashes::from_bytes(&[0u8; 21]).is_none());
    assert!(Hashes::from_bytes(&[0u8; 19]).is_none());
}
