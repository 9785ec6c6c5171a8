use bittorrent::BLOCK_MAX;
use sha1::Digest;
use bittorrent::downloaded::{
    DownloadSession, Downloaded, DownloadedIter, block_count, block_size_at, build_pieces,
    commit_piece,
};
use bittorrent::error::PieceFailure;
use bittorrent::hashes::Hashes;
use bittorrent::peer::{Bitfield, PeerConnection, PeerState};
use bittorrent::piece::schedule_order;
use bittorrent::torrent::{File, Info, Keys, Torrent};

fn sha1(bytes: &[u8]) -> [u8; 20] {
    let mut hasher = sha1::Sha1::new();
    hasher.update(bytes);
    hasher.finalize().into()
}

#[test]
fn block_arithmetic() {
    assert_eq!(block_count(1), 1);
    assert_eq!(block_count(BLOCK_MAX), 1);
    assert_eq!(block_count(BLOCK_MAX + 1), 2);
    assert_eq!(block_count(3 * BLOCK_MAX), 3);
    assert_eq!(block_size_at(BLOCK_MAX + 1, 0), BLOCK_MAX);
    assert_eq!(block_size_at(BLOCK_MAX + 1, 1), 1);
    assert_eq!(block_size_at(4, 0), 4);
}

#[test]
fn single_file_small_pieces_downloads_byte_exactly() {
    // Scenario: single-file content, piece length 4, total length 10
    // (pieces of length 4, 4, 2), one peer holding all pieces, block size
    // at least the piece length: each piece takes exactly one block
    // request, every hash verifies, and the output equals the content.
    let content = b"abcdefghij";
    let piece_length = 4usize;
    let mut hashes = Vec::new();
    for chunk in content.chunks(piece_length) {
        hashes.push(sha1(chunk));
    }
    let torrent = Torrent {
        announce: String::from("http://tracker.example/announce"),
        info: Info {
            name: String::from("content.bin"),
            length: content.len(),
            piece_length,
            pieces: Hashes(hashes),
            keys: Keys::SingleFile { length: content.len() },
        },
    };
    let peers = vec![PeerConnection {
        state: PeerState::Unchoked,
        bitfield: Bitfield::from_bytes(&[0b1110_0000]),
    }];
    let (pieces, unschedulable) = build_pieces(&torrent, &peers, &vec![0, 0, 0]);
    assert!(unschedulable.is_empty());

    let mut output = vec![0u8; content.len()];
    for piece in schedule_order(pieces) {
        let nblocks = block_count(piece.length() as u32);
        assert_eq!(nblocks, 1, "each piece fits in one block request");
        let offset = piece.index() as usize * piece_length;
        let block = &content[offset..offset + piece.length()];
        let mut session = DownloadSession::new(piece.length());
        session.apply_block(0, &block.to_vec()).expect("block fits");
        assert!(session.is_complete());
        let bytes = session.finish(&piece.hash()).expect("hash verifies");
        commit_piece(&mut output, offset, &bytes);
    }
    assert_eq!(output.as_slice(), &content[..]);

    let downloaded = Downloaded::new(
        output,
        vec![File { length: content.len(), path: vec![String::from("content.bin")] }],
    );
    let mut iter = DownloadedIter::new(&downloaded);
    let file = iter.next().expect("one file");
    assert_eq!(file.path(), &vec![String::from("content.bin")]);
    assert_eq!(file.bytes(), &content[..]);
    assert!(iter.next().is_none());
}

#[test]
fn lost_peer_leaves_piece_incomplete_not_verified() {
    // Scenario: the only eligible peer disconnects after delivering 1 of 3
    // required blocks; the piece ends incomplete, not verified, and the
    // round ends instead of blocking.
    let piece_len = 3 * BLOCK_MAX as usize;
    let mut session = DownloadSession::new(piece_len);
    let first_block = vec![5u8; BLOCK_MAX as usize];
    session.apply_block(0, &first_block).expect("block fits");
    assert_eq!(session.received(), BLOCK_MAX as usize);
    assert!(!session.is_complete());
    let expected = sha1(&vec![5u8; piece_len]);
    assert_eq!(session.finish(&expected), Err(PieceFailure::Incomplete));
}

#[test]
fn altered_block_fails_whole_piece_hash() {
    // Scenario: a delivered block has altered content but still passes its
    // length/offset checks; the whole-piece hash comparison fails and the
    // piece is not committed.
    let content = b"abcd";
    let expected = sha1(content);
    let mut session = DownloadSession::new(content.len());
    let altered = b"abXd".to_vec();
    session.apply_block(0, &altered).expect("length and offset are fine");
    assert!(session.is_complete());
    assert_eq!(session.finish(&expected), Err(PieceFailure::Integrity));
}

#[test]
fn apply_block_rejects_out_of_range_writes() {
    let mut session = DownloadSession::new(4);
    assert!(session.apply_block(3, &vec![1, 2]).is_err());
    assert!(session.apply_block(0, &vec![0u8; 5]).is_err());
    assert_eq!(session.received(), 0);
    assert!(session.apply_block(2, &vec![1, 2]).is_ok());
}

#[test]
fn blocks_may_arrive_in_any_order() {
    let content = b"abcdefgh";
    let mut session = DownloadSession::new(content.len());
    session.apply_block(4, &content[4..].to_vec()).unwrap();
    session.apply_block(0, &content[..4].to_vec()).unwrap();
    assert!(session.is_complete());
    let bytes = session.finish(&sha1(content)).expect("hash verifies");
    assert_eq!(bytes.as_slice(), &content[..]);
}

#[test]
fn multi_file_slicing_follows_cumulative_boundaries() {
    let bytes = b"aaabbccccc".to_vec();
    let files = vec![
        File { length: 3, path: vec![String::from("dir"), String::from("a.txt")] },
        File { length: 2, path: vec![String::from("b.txt")] },
        File { length: 5, path: vec![String::from("c.txt")] },
    ];
    let downloaded = Downloaded::new(bytes, files);
    let mut iter = DownloadedIter::new(&downloaded);
    let a = iter.next().unwrap();
    assert_eq!(a.bytes(), &b"aaa"[..]);
    assert_eq!(a.path().len(), 2);
    let b = iter.next().unwrap();
    assert_eq!(b.bytes(), &b"bb"[..]);
    let c = iter.next().unwrap();
    assert_eq!(c.bytes(), &b"ccccc"[..]);
    assert!(iter.next().is_none());
}

#[test]
fn torrent_len_sums_files() {
    let torrent = Torrent {
        announce: String::from("http://tracker.example/announce"),
        info: Info {
            name: String::from("multi"),
            length: 0,
            piece_length: 4,
            pieces: Hashes(Vec::new()),
            keys: Keys::MultiFile {
                files: vec![
                    File { length: 3, path: vec![String::from("a")] },
                    File { length: 7, path: vec![String::from("b")] },
                ],
            },
        },
    };
    assert_eq!(torrent.len(), 10);
    let single = Torrent {
        announce: torrent.announce.clone(),
        info: Info {
            name: String::from("single"),
            length: 42,
            piece_length: 4,
            pieces: Hashes(Vec::new()),
            keys: Keys::SingleFile { length: 42 },
        },
    };
    assert_eq!(single.len(), 42);
}
