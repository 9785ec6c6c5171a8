use bittorrent::peer::Bitfield;

#[test]
fn has_piece_reads_high_bit_first() {
    let bf = Bitfield::from_bytes(&[0b1010_0000]);
    assert!(bf.has_piece(0));
    assert!(!bf.has_piece(1));
    assert!(bf.has_piece(2));
    assert!(!bf.has_piece(3));
}

#[test]
fn has_piece_beyond_capacity_is_false() {
    let bf = Bitfield::from_bytes(&[0xff]);
    for i in 8..64 {
        assert!(!bf.has_piece(i));
    }
    assert!(!bf.has_piece(1_000_000));
}

#[test]
fn pieces_yields_ascending_set_indices() {
    let bf = Bitfield::from_bytes(&[0b1010_0000, 0b0000_0001]);
    let pieces = bf.pieces();
    assert_eq!(pieces, vec![0, 2, 15]);
    for &i in &pieces {
        assert!(bf.has_piece(i as u32));
    }
}

#[test]
fn pieces_count_equals_set_bits() {
    let bf = Bitfield::from_bytes(&[0xff, 0x01]);
    assert_eq!(bf.pieces().len(), 9);
    let empty = Bitfield::from_bytes(&[]);
    assert_eq!(empty.pieces().len(), 0);
}
