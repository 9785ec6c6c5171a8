use bittorrent::downloaded::build_pieces;
use sha1::Digest;
use bittorrent::hashes::Hashes;
use bittorrent::peer::{Bitfield, PeerConnection, PeerState};
use bittorrent::piece::{Piece, schedule_order};
use bittorrent::torrent::{Info, Keys, Torrent};

fn sha1(bytes: &[u8]) -> [u8; 20] {
    let mut hasher = sha1::Sha1::new();
    hasher.update(bytes);
    hasher.finalize().into()
}

fn torrent_of(piece_length: usize, content: &[u8]) -> Torrent {
    let mut hashes = Vec::new();
    for chunk in content.chunks(piece_length) {
        hashes.push(sha1(chunk));
    }
    Torrent {
        announce: String::from("http://tracker.example/announce"),
        info: Info {
            name: String::from("content.bin"),
            length: content.len(),
            piece_length,
            pieces: Hashes(hashes),
            keys: Keys::SingleFile { length: content.len() },
        },
    }
}

fn peer_with(bits: &[u8]) -> PeerConnection {
    PeerConnection { state: PeerState::Unchoked, bitfield: Bitfield::from_bytes(bits) }
}

#[test]
fn selection_order_is_deterministic() {
    // With fixed per-piece tie-break values and a fixed roster, repeated
    // runs order the pieces identically.
    let torrent = torrent_of(4, b"abcdefghijklmnopqrst");
    let peers = vec![peer_with(&[0b1111_1000]), peer_with(&[0b1010_1000])];
    let seeds = vec![3, 1, 4, 1, 5];
    let (pieces, unschedulable) = build_pieces(&torrent, &peers, &seeds);
    assert!(unschedulable.is_empty());

    let first: Vec<u64> = schedule_order(pieces.clone()).iter().map(|p| p.index()).collect();
    let second: Vec<u64> = schedule_order(pieces).iter().map(|p| p.index()).collect();
    assert_eq!(first, second);
}

#[test]
fn rarest_pieces_come_first() {
    let torrent = torrent_of(4, b"abcdefgh");
    // piece 0 is held by both peers, piece 1 only by the first
    let peers = vec![peer_with(&[0b1100_0000]), peer_with(&[0b1000_0000])];
    let seeds = vec![0, 0];
    let (pieces, unschedulable) = build_pieces(&torrent, &peers, &seeds);
    assert!(unschedulable.is_empty());
    let order: Vec<u64> = schedule_order(pieces).iter().map(|p| p.index()).collect();
    assert_eq!(order, vec![1, 0]);
}

#[test]
fn seed_breaks_ties_between_equally_rare_pieces() {
    let torrent = torrent_of(4, b"abcdefgh");
    let peers = vec![peer_with(&[0b1100_0000])];
    let seeds = vec![9, 2];
    let (pieces, _) = build_pieces(&torrent, &peers, &seeds);
    let order: Vec<u64> = schedule_order(pieces).iter().map(|p| p.index()).collect();
    assert_eq!(order, vec![1, 0]);
}

#[test]
fn unschedulable_piece_is_reported_not_fatal() {
    // A piece with zero eligible peers is surfaced as unschedulable and the
    // remaining pieces are still scheduled.
    let torrent = torrent_of(4, b"abcdefghij");
    let peers = vec![peer_with(&[0b1010_0000])];
    let seeds = vec![0, 0, 0];
    let (pieces, unschedulable) = build_pieces(&torrent, &peers, &seeds);
    assert_eq!(unschedulable, vec![1]);
    let order: Vec<u64> = schedule_order(pieces).iter().map(|p| p.index()).collect();
    assert_eq!(order.len(), 2);
    assert!(order.contains(&0));
    assert!(order.contains(&2));
}

#[test]
fn descriptor_records_metadata() {
    let content = b"abcdefghij"; // piece length 4: pieces of 4, 4, 2 bytes
    let torrent = torrent_of(4, content);
    let peers = vec![peer_with(&[0b1110_0000])];
    let seeds = vec![7, 7, 7];
    let (pieces, _) = build_pieces(&torrent, &peers, &seeds);
    assert_eq!(pieces.len(), 3);
    assert_eq!(pieces[0].index(), 0);
    assert_eq!(pieces[0].length(), 4);
    assert_eq!(pieces[2].length(), 2, "last piece carries the remainder");
    assert_eq!(pieces[1].hash(), sha1(b"efgh"));
    assert_eq!(pieces[0].peers(), &vec![0]);
}

#[test]
fn descriptors_ignore_peers_without_the_piece() {
    let torrent = torrent_of(4, b"abcd");
    let peers = vec![peer_with(&[0b0000_0000]), peer_with(&[0b1000_0000])];
    let (pieces, unschedulable) = build_pieces(&torrent, &peers, &vec![0]);
    assert!(unschedulable.is_empty());
    assert_eq!(pieces[0].peers(), &vec![1]);
    let lone: Vec<Piece> = pieces;
    assert_eq!(lone.len(), 1);
}
