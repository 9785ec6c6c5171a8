use bittorrent::BLOCK_MAX;
use bittorrent::error::{PeerError, ProtocolError};
use bittorrent::peer::{Message, MessageTag, PeerConnection, PeerRequest, PeerState, PieceMessage};

#[test]
fn lifecycle_reaches_ready_state() {
    let mut conn = PeerConnection::new();
    assert_eq!(conn.state, PeerState::Connecting);

    let hello = conn.start_handshake([7u8; 20]);
    assert_eq!(conn.state, PeerState::Handshaking);
    assert_eq!(hello.len(), 68);
    assert_eq!(hello[0], 19);
    assert_eq!(&hello[1..20], b"BitTorrent protocol");
    assert_eq!(&hello[28..48], &[7u8; 20]);

    conn.on_handshake(&hello).expect("68 bytes are accepted");
    assert_eq!(conn.state, PeerState::AwaitingBitfield);

    let reply = conn
        .on_first_message(&Message { tag: MessageTag::Bitfield, payload: vec![0b1000_0000] })
        .expect("first message is the bitfield");
    assert_eq!(reply.tag, MessageTag::Interested);
    assert!(reply.payload.is_empty());
    assert_eq!(conn.state, PeerState::InterestedChoked);
    assert!(conn.has_piece(0));
    assert!(!conn.has_piece(1));

    conn.on_second_message(&Message { tag: MessageTag::UnChoke, payload: vec![] })
        .expect("second message is the unchoke");
    assert_eq!(conn.state, PeerState::Unchoked);
}

#[test]
fn short_handshake_is_fatal() {
    let mut conn = PeerConnection::new();
    conn.start_handshake([7u8; 20]);
    let r = conn.on_handshake(&[19u8; 67]);
    assert_eq!(r.unwrap_err(), PeerError::Handshake);
    assert_eq!(conn.state, PeerState::Handshaking);
}

#[test]
fn first_message_must_be_bitfield() {
    let mut conn = PeerConnection::new();
    let hello = conn.start_handshake([7u8; 20]);
    conn.on_handshake(&hello).unwrap();
    let r = conn.on_first_message(&Message { tag: MessageTag::Have, payload: vec![0, 0, 0, 0] });
    assert_eq!(r.unwrap_err(), PeerError::Protocol(ProtocolError::UnexpectedMessage));
    assert_eq!(conn.state, PeerState::AwaitingBitfield);
}

#[test]
fn choke_instead_of_unchoke_aborts() {
    let mut conn = PeerConnection::new();
    let hello = conn.start_handshake([7u8; 20]);
    conn.on_handshake(&hello).unwrap();
    conn.on_first_message(&Message { tag: MessageTag::Bitfield, payload: vec![0xff] }).unwrap();
    let r = conn.on_second_message(&Message { tag: MessageTag::Choke, payload: vec![] });
    assert_eq!(r.unwrap_err(), PeerError::Protocol(ProtocolError::UnexpectedMessage));
    assert_eq!(conn.state, PeerState::InterestedChoked);
}

#[test]
fn request_message_encodes_block_coordinates() {
    let msg = PeerConnection::request_message(3, 2, 500);
    assert_eq!(msg.tag, MessageTag::Request);
    let req = PeerRequest::new(3, 2 * BLOCK_MAX, 500);
    assert_eq!(msg.payload, req.to_bytes());
}

#[test]
fn peer_request_fields_round_trip() {
    let req = PeerRequest::new(1, 2, 3);
    assert_eq!(req.index(), 1);
    assert_eq!(req.begin(), 2);
    assert_eq!(req.length(), 3);
    let bytes = req.to_bytes();
    assert_eq!(bytes, vec![0, 0, 0, 1, 0, 0, 0, 2, 0, 0, 0, 3]);
}

#[test]
fn piece_message_decodes_explicitly() {
    let mut payload = vec![0, 0, 0, 7, 0, 0, 64, 0];
    payload.extend_from_slice(b"data!");
    let piece = PieceMessage::from_bytes(&payload).expect("at least 8 bytes");
    assert_eq!(piece.index(), 7);
    assert_eq!(piece.begin(), 16384);
    assert_eq!(piece.block().as_slice(), b"data!");
    assert!(PieceMessage::from_bytes(&[0, 0, 0]).is_none());
}

#[test]
fn validate_block_accepts_matching_response() {
    let piece_i = 7u32;
    let block_i = 1u32;
    let block = vec![9u8; 100];
    let mut payload = Vec::new();
    payload.extend_from_slice(&piece_i.to_be_bytes());
    payload.extend_from_slice(&(block_i * BLOCK_MAX).to_be_bytes());
    payload.extend_from_slice(&block);
    let msg = Message { tag: MessageTag::Piece, payload };
    let got = PeerConnection::validate_block(piece_i, block_i, 100, &msg).expect("fields match");
    assert_eq!(got, block);
}

#[test]
fn validate_block_rejects_mismatches() {
    let block = vec![9u8; 100];
    let mut payload = Vec::new();
    payload.extend_from_slice(&7u32.to_be_bytes());
    payload.extend_from_slice(&BLOCK_MAX.to_be_bytes());
    payload.extend_from_slice(&block);

    let wrong_tag = Message { tag: MessageTag::Have, payload: payload.clone() };
    assert_eq!(
        PeerConnection::validate_block(7, 1, 100, &wrong_tag).unwrap_err(),
        PeerError::Protocol(ProtocolError::UnexpectedMessage)
    );

    let empty = Message { tag: MessageTag::Piece, payload: vec![] };
    assert_eq!(
        PeerConnection::validate_block(7, 1, 100, &empty).unwrap_err(),
        PeerError::Protocol(ProtocolError::EmptyPayload)
    );

    let msg = Message { tag: MessageTag::Piece, payload };
    assert_eq!(
        PeerConnection::validate_block(8, 1, 100, &msg).unwrap_err(),
        PeerError::Protocol(ProtocolError::MismatchedResponse),
        "wrong piece index"
    );
    assert_eq!(
        PeerConnection::validate_block(7, 0, 100, &msg).unwrap_err(),
        PeerError::Protocol(ProtocolError::MismatchedResponse),
        "wrong offset"
    );
    assert_eq!(
        PeerConnection::validate_block(7, 1, 99, &msg).unwrap_err(),
        PeerError::Protocol(ProtocolError::MismatchedResponse),
        "wrong length"
    );
}
