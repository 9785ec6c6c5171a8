use bittorrent::error::ProtocolError;
use bittorrent::peer::{Message, MessageFramer, MessageTag};

fn encode_frame(tag: MessageTag, payload: Vec<u8>) -> Vec<u8> {
    let mut framer = MessageFramer;
    let mut out = Vec::new();
    framer
        .encode(Message { tag, payload }, &mut out)
        .expect("frame fits");
    out
}

#[test]
fn encode_layout() {
    let bytes = encode_frame(MessageTag::Have, vec![0, 0, 0, 7]);
    assert_eq!(bytes, vec![0, 0, 0, 5, 4, 0, 0, 0, 7]);
}

#[test]
fn encode_rejects_oversized_payload() {
    let mut framer = MessageFramer;
    let mut out = Vec::new();
    let r = framer.encode(
        Message { tag: MessageTag::Piece, payload: vec![0u8; 65536] },
        &mut out,
    );
    assert_eq!(r, Err(ProtocolError::FrameTooLong));
    assert!(out.is_empty());
}

#[test]
fn decode_whole_frame() {
    let mut framer = MessageFramer;
    let mut buf = encode_frame(MessageTag::Piece, vec![1, 2, 3]);
    let msg = framer.decode(&mut buf).unwrap().unwrap();
    assert_eq!(msg.tag, MessageTag::Piece);
    assert_eq!(msg.payload, vec![1, 2, 3]);
    assert!(buf.is_empty());
}

#[test]
fn decode_needs_more_bytes_on_partial_frame() {
    let mut framer = MessageFramer;
    let full = encode_frame(MessageTag::Bitfield, vec![0xff, 0x01]);
    for cut in 0..full.len() {
        let mut buf = full[..cut].to_vec();
        let r = framer.decode(&mut buf).unwrap();
        assert!(r.is_none(), "prefix of {} bytes must ask for more", cut);
    }
}

#[test]
fn decode_skips_keepalives() {
    let mut framer = MessageFramer;
    let mut buf = vec![0, 0, 0, 0, 0, 0, 0, 0];
    buf.extend(encode_frame(MessageTag::UnChoke, vec![]));
    let msg = framer.decode(&mut buf).unwrap().unwrap();
    assert_eq!(msg.tag, MessageTag::UnChoke);
    assert!(msg.payload.is_empty());
    assert!(buf.is_empty());
}

#[test]
fn decode_rejects_oversized_frame() {
    let mut framer = MessageFramer;
    // declared length 65537 > maximum frame size
    let mut buf = vec![0, 1, 0, 1, 5];
    let r = framer.decode(&mut buf);
    assert_eq!(r.unwrap_err(), ProtocolError::FrameTooLong);
}

#[test]
fn decode_rejects_unknown_tag() {
    let mut framer = MessageFramer;
    let mut buf = vec![0, 0, 0, 1, 9];
    let r = framer.decode(&mut buf);
    assert_eq!(r.unwrap_err(), ProtocolError::UnknownTag);
}

#[test]
fn byte_at_a_time_stream_reassembly() {
    // An encoded frame sequence fed one byte at a time yields exactly the
    // original messages in order, across all chunk boundaries.
    let messages = vec![
        (MessageTag::Bitfield, vec![0b1010_0000u8]),
        (MessageTag::Interested, vec![]),
        (MessageTag::Request, vec![0, 0, 0, 1, 0, 0, 0, 0, 0, 0, 64, 0]),
        (MessageTag::Piece, vec![9u8; 300]),
    ];
    let mut stream = Vec::new();
    for (tag, payload) in &messages {
        stream.extend(encode_frame(*tag, payload.clone()));
    }

    let mut framer = MessageFramer;
    let mut buf: Vec<u8> = Vec::new();
    let mut seen: Vec<Message> = Vec::new();
    for byte in stream {
        buf.push(byte);
        while let Some(msg) = framer.decode(&mut buf).unwrap() {
            seen.push(msg);
        }
    }
    assert!(buf.is_empty());
    assert_eq!(seen.len(), messages.len());
    for (got, (tag, payload)) in seen.iter().zip(messages.iter()) {
        assert_eq!(got.tag, *tag);
        assert_eq!(&got.payload, payload);
    }
}

#[test]
fn keepalive_between_frames_yields_no_message() {
    let mut stream = encode_frame(MessageTag::Choke, vec![]);
    stream.extend([0, 0, 0, 0]); // keep-alive
    stream.extend(encode_frame(MessageTag::Have, vec![0, 0, 0, 2]));

    let mut framer = MessageFramer;
    let mut buf = stream;
    let first = framer.decode(&mut buf).unwrap().unwrap();
    assert_eq!(first.tag, MessageTag::Choke);
    let second = framer.decode(&mut buf).unwrap().unwrap();
    assert_eq!(second.tag, MessageTag::Have);
    assert_eq!(second.payload, vec![0, 0, 0, 2]);
    assert!(buf.is_empty());
}

#[test]
fn irregular_chunks_reassemble_in_order() {
    let messages = vec![
        (MessageTag::Choke, vec![]),
        (MessageTag::Piece, vec![3u8; 40]),
        (MessageTag::Cancel, vec![1, 2, 3]),
    ];
    let mut stream = Vec::new();
    for (tag, payload) in &messages {
        stream.extend(encode_frame(*tag, payload.clone()));
    }

    for chunk_size in [1usize, 2, 3, 7, 11, 64] {
        let mut framer = MessageFramer;
        let mut buf: Vec<u8> = Vec::new();
        let mut seen: Vec<Message> = Vec::new();
        for chunk in stream.chunks(chunk_size) {
            buf.extend_from_slice(chunk);
            while let Some(msg) = framer.decode(&mut buf).unwrap() {
                seen.push(msg);
            }
        }
        assert!(buf.is_empty());
        assert_eq!(seen.len(), messages.len());
        for (got, (tag, payload)) in seen.iter().zip(messages.iter()) {
            assert_eq!(got.tag, *tag);
            assert_eq!(&got.payload, payload);
        }
    }
}

#[test]
fn tag_byte_mapping_is_range_checked() {
    for b in 0u8..=8 {
        let tag = MessageTag::from_byte(b).expect("tags 0..=8 exist");
        assert_eq!(tag.to_byte(), b);
    }
    assert!(MessageTag::from_byte(9).is_none());
    assert!(MessageTag::from_byte(255).is_none());
}
