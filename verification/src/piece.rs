//! Per-piece download descriptors and the total order used to pick the next
//! piece: fewest eligible peers first (rarest first), ties broken by a
//! per-piece injected tie-break value, then piece index, length and hash
//! bytes for determinism.

use vstd::prelude::*;

use vstd::multiset::Multiset;

use crate::peer::PeerConnection;
use crate::peer::spec_has_piece;
use crate::torrent::Torrent;
use crate::torrent::spec_total_len;

verus! {

broadcast use vstd::seq_lib::group_to_multiset_ensures, vstd::multiset::group_multiset_axioms;

// ---------------------------------------------------------------------------
// Lexicographic order on equal-length byte strings
// ---------------------------------------------------------------------------
/// Lexicographic "at most" on byte strings of equal length.
pub open spec fn spec_bytes_leq(a: Seq<u8>, b: Seq<u8>) -> bool
    decreases a.len(),
{
    if a.len() == 0 || b.len() == 0 {
        true
    } else if a[0] != b[0] {
        a[0] < b[0]
    } else {
        spec_bytes_leq(a.skip(1), b.skip(1))
    }
}

pub proof fn lemma_bytes_leq_refl(a: Seq<u8>)
    ensures
        spec_bytes_leq(a, a),
    decreases a.len(),
{
    if a.len() > 0 {
        lemma_bytes_leq_refl(a.skip(1));
    }
}

pub proof fn lemma_bytes_leq_total(a: Seq<u8>, b: Seq<u8>)
    ensures
        spec_bytes_leq(a, b) || spec_bytes_leq(b, a),
    decreases a.len(),
{
    if a.len() > 0 && b.len() > 0 && a[0] == b[0] {
        lemma_bytes_leq_total(a.skip(1), b.skip(1));
    }
}

pub proof fn lemma_bytes_leq_trans(a: Seq<u8>, b: Seq<u8>, c: Seq<u8>)
    requires
        a.len() == b.len(),
        b.len() == c.len(),
        spec_bytes_leq(a, b),
        spec_bytes_leq(b, c),
    ensures
        spec_bytes_leq(a, c),
    decreases a.len(),
{
    if a.len() > 0 && a[0] == b[0] && b[0] == c[0] {
        lemma_bytes_leq_trans(a.skip(1), b.skip(1), c.skip(1));
    }
}

// ---------------------------------------------------------------------------
// Piece descriptors
// ---------------------------------------------------------------------------
/// The ascending roster indices, from `j` on, of peers that advertise
/// piece `piece_i`.
pub open spec fn spec_eligible_from(peers: Seq<PeerConnection>, piece_i: u32, j: nat) -> Seq<usize>
    decreases peers.len() - j,
{
    if j >= peers.len() {
        Seq::empty()
    } else if spec_has_piece(peers[j as int].bitfield@, piece_i as nat) {
        seq![j as usize] + spec_eligible_from(peers, piece_i, j + 1)
    } else {
        spec_eligible_from(peers, piece_i, j + 1)
    }
}

/// The byte length of piece `piece_i`: the nominal piece length, except that
/// the last piece carries only the remainder when the total length is not a
/// multiple of the piece length.
pub open spec fn spec_piece_size(total: int, plen: int, npieces: int, piece_i: int) -> int {
    if piece_i == npieces - 1 && total % plen != 0 {
        total % plen
    } else {
        plen
    }
}

/// Per-piece metadata fixed when scheduling begins: index, byte length,
/// expected hash, the roster indices of the peers that hold it, and a
/// per-piece tie-break value from an injected randomness source.
#[derive(Debug, Clone)]
pub struct Piece {
    peers: Vec<usize>,
    piece_i: u64,
    length: usize,
    info_hash: [u8; 20],
    seed: u8,
}

impl Piece {
    pub closed spec fn spec_peers(&self) -> Seq<usize> {
        self.peers@
    }

    pub closed spec fn spec_index(&self) -> u64 {
        self.piece_i
    }

    pub closed spec fn spec_length(&self) -> usize {
        self.length
    }

    pub closed spec fn spec_hash(&self) -> [u8; 20] {
        self.info_hash
    }

    pub closed spec fn spec_seed(&self) -> u8 {
        self.seed
    }

    /// Builds the descriptor of piece `piece_i` from the metadata, the
    /// roster of currently-connected peers, and an injected tie-break value.
    /// Peers connecting later are not retroactively added.
    pub fn new(piece_i: u64, torrent: &Torrent, peers: &Vec<PeerConnection>, seed: u8) -> (r:
        Piece)
        requires
            piece_i < torrent.info.pieces.0@.len(),
            piece_i <= u32::MAX,
            torrent.info.piece_length > 0,
            0 <= spec_total_len(torrent.info.keys) <= usize::MAX,
        ensures
            r.spec_index() == piece_i,
            r.spec_seed() == seed,
            r.spec_hash() == torrent.info.pieces.0@[piece_i as int],
            r.spec_length() == spec_piece_size(
                spec_total_len(torrent.info.keys),
                torrent.info.piece_length as int,
                torrent.info.pieces.0@.len() as int,
                piece_i as int,
            ),
            r.spec_peers() == spec_eligible_from(peers@, piece_i as u32, 0),
    {
        let total = torrent.len();
        let plen = torrent.info.piece_length;
        let npieces = torrent.info.pieces.0.len();
        let length: usize = if piece_i == (npieces as u64) - 1 && total % plen != 0 {
            total % plen
        } else {
            plen
        };
        let mut eligible: Vec<usize> = Vec::new();
        let mut j: usize = 0;
        while j < peers.len()
            invariant
                j <= peers@.len(),
                piece_i <= u32::MAX,
                spec_eligible_from(peers@, piece_i as u32, 0) == eligible@ + spec_eligible_from(
                    peers@,
                    piece_i as u32,
                    j as nat,
                ),
            decreases peers@.len() - j,
        {
            let ghost old_eligible = eligible@;
            if peers[j].has_piece(piece_i as u32) {
                eligible.push(j);
            }
            proof {
                if spec_has_piece(peers@[j as int].bitfield@, (piece_i as u32) as nat) {
                    assert(spec_eligible_from(peers@, piece_i as u32, j as nat) == seq![j]
                        + spec_eligible_from(peers@, piece_i as u32, (j + 1) as nat));
                    assert(eligible@ =~= old_eligible.push(j));
                    assert(old_eligible + (seq![j] + spec_eligible_from(
                        peers@,
                        piece_i as u32,
                        (j + 1) as nat,
                    )) =~= old_eligible.push(j) + spec_eligible_from(
                        peers@,
                        piece_i as u32,
                        (j + 1) as nat,
                    ));
                } else {
                    assert(spec_eligible_from(peers@, piece_i as u32, j as nat)
                        == spec_eligible_from(peers@, piece_i as u32, (j + 1) as nat));
                }
            }
            j = j + 1;
        }
        proof {
            assert(spec_eligible_from(peers@, piece_i as u32, peers@.len()) == Seq::<
                usize,
            >::empty());
            assert(eligible@ + Seq::<usize>::empty() =~= eligible@);
        }
        let hash = torrent.info.pieces.0[piece_i as usize];
        Piece { peers: eligible, piece_i, length, info_hash: hash, seed }
    }

    /// The roster indices of the peers known to hold this piece.
    pub fn peers(&self) -> (r: &Vec<usize>)
        ensures
            r@ == self.spec_peers(),
    {
        &self.peers
    }

    pub fn length(&self) -> (r: usize)
        ensures
            r == self.spec_length(),
    {
        self.length
    }

    pub fn index(&self) -> (r: u64)
        ensures
            r == self.spec_index(),
    {
        self.piece_i
    }

    pub fn hash(&self) -> (r: [u8; 20])
        ensures
            r == self.spec_hash(),
    {
        self.info_hash
    }

    /// Whether this piece is selected no later than `other`: fewer eligible
    /// peers first, ties broken by tie-break value, then piece index, then
    /// length, then hash bytes.
    pub fn le(&self, other: &Piece) -> (r: bool)
        ensures
            r == spec_piece_leq(*self, *other),
    {
        if self.peers.len() != other.peers.len() {
            self.peers.len() < other.peers.len()
        } else if self.seed != other.seed {
            self.seed < other.seed
        } else if self.piece_i != other.piece_i {
            self.piece_i < other.piece_i
        } else if self.length != other.length {
            self.length < other.length
        } else {
            let r = bytes_leq_from(&self.info_hash, &other.info_hash, 0);
            proof {
                assert(self.info_hash@.skip(0) =~= self.info_hash@);
                assert(other.info_hash@.skip(0) =~= other.info_hash@);
            }
            r
        }
    }
}

/// Compares two 20-byte strings lexicographically from position `i` on.
fn bytes_leq_from(a: &[u8; 20], b: &[u8; 20], i: usize) -> (r: bool)
    requires
        i <= 20,
    ensures
        r == spec_bytes_leq(a@.skip(i as int), b@.skip(i as int)),
    decreases 20 - i,
{
    if i == 20 {
        assert(a@.skip(20) =~= Seq::<u8>::empty());
        true
    } else if a[i] != b[i] {
        assert(a@.skip(i as int)[0] == a@[i as int]);
        assert(b@.skip(i as int)[0] == b@[i as int]);
        a[i] < b[i]
    } else {
        let r = bytes_leq_from(a, b, i + 1);
        proof {
            assert(a@.skip(i as int)[0] == a@[i as int]);
            assert(b@.skip(i as int)[0] == b@[i as int]);
            assert(a@.skip(i as int).skip(1) =~= a@.skip(i + 1));
            assert(b@.skip(i as int).skip(1) =~= b@.skip(i + 1));
        }
        r
    }
}

// ---------------------------------------------------------------------------
// The selection order
// ---------------------------------------------------------------------------
/// The total selection order on piece descriptors.
pub open spec fn spec_piece_leq(a: Piece, b: Piece) -> bool {
    if a.spec_peers().len() != b.spec_peers().len() {
        a.spec_peers().len() < b.spec_peers().len()
    } else if a.spec_seed() != b.spec_seed() {
        a.spec_seed() < b.spec_seed()
    } else if a.spec_index() != b.spec_index() {
        a.spec_index() < b.spec_index()
    } else if a.spec_length() != b.spec_length() {
        a.spec_length() < b.spec_length()
    } else {
        spec_bytes_leq(a.spec_hash()@, b.spec_hash()@)
    }
}

/// A sequence of descriptors in selection order.
pub open spec fn spec_schedule_sorted(s: Seq<Piece>) -> bool {
    forall|i: int, j: int| 0 <= i < j < s.len() ==> spec_piece_leq(#[trigger] s[i], #[trigger] s[j])
}

/// No two descriptors in the sequence describe the same piece index.
pub open spec fn spec_distinct_indices(s: Seq<Piece>) -> bool {
    forall|i: int, j: int|
        0 <= i < j < s.len() ==> (#[trigger] s[i]).spec_index() != (#[trigger] s[j]).spec_index()
}

pub proof fn lemma_piece_leq_refl(a: Piece)
    ensures
        spec_piece_leq(a, a),
{
    lemma_bytes_leq_refl(a.spec_hash()@);
}

pub proof fn lemma_piece_leq_total(a: Piece, b: Piece)
    ensures
        spec_piece_leq(a, b) || spec_piece_leq(b, a),
{
    lemma_bytes_leq_total(a.spec_hash()@, b.spec_hash()@);
}

pub proof fn lemma_piece_leq_trans(a: Piece, b: Piece, c: Piece)
    requires
        spec_piece_leq(a, b),
        spec_piece_leq(b, c),
    ensures
        spec_piece_leq(a, c),
{
    if a.spec_peers().len() == c.spec_peers().len() && a.spec_seed() == c.spec_seed()
        && a.spec_index() == c.spec_index() && a.spec_length() == c.spec_length() {
        if a.spec_peers().len() == b.spec_peers().len() && a.spec_seed() == b.spec_seed()
            && a.spec_index() == b.spec_index() && a.spec_length() == b.spec_length() {
            lemma_bytes_leq_trans(a.spec_hash()@, b.spec_hash()@, c.spec_hash()@);
        }
    }
}

/// Two descriptors each selected no later than the other describe the same
/// piece index.
pub proof fn lemma_piece_leq_both(a: Piece, b: Piece)
    requires
        spec_piece_leq(a, b),
        spec_piece_leq(b, a),
    ensures
        a.spec_index() == b.spec_index(),
{
}

/// Sorts the descriptors into selection order: the result is a permutation
/// of the input, ascending under the selection order.
pub fn schedule_order(pieces: Vec<Piece>) -> (r: Vec<Piece>)
    ensures
        r@.to_multiset() == pieces@.to_multiset(),
        spec_schedule_sorted(r@),
{
    let mut rem = pieces;
    let mut out: Vec<Piece> = Vec::new();
    while rem.len() > 0
        invariant
            out@.to_multiset().add(rem@.to_multiset()) == pieces@.to_multiset(),
            spec_schedule_sorted(out@),
            forall|i: int, j: int|
                0 <= i < out@.len() && 0 <= j < rem@.len() ==> spec_piece_leq(
                    #[trigger] out@[i],
                    #[trigger] rem@[j],
                ),
        decreases rem@.len(),
    {
        let mut m: usize = 0;
        let mut t: usize = 1;
        proof {
            lemma_piece_leq_refl(rem@[0]);
        }
        while t < rem.len()
            invariant
                0 < rem@.len(),
                m < t,
                t <= rem@.len(),
                forall|u: int| 0 <= u < t ==> spec_piece_leq(rem@[m as int], #[trigger] rem@[u]),
            decreases rem@.len() - t,
        {
            if !rem[m].le(&rem[t]) {
                proof {
                    lemma_piece_leq_total(rem@[m as int], rem@[t as int]);
                    assert forall|u: int| 0 <= u < t + 1 implies spec_piece_leq(
                        rem@[t as int],
                        #[trigger] rem@[u],
                    ) by {
                        if u < t {
                            lemma_piece_leq_trans(rem@[t as int], rem@[m as int], rem@[u]);
                        } else {
                            lemma_piece_leq_refl(rem@[t as int]);
                        }
                    }
                }
                m = t;
            } else {
                proof {
                    assert(spec_piece_leq(rem@[m as int], rem@[t as int]));
                }
            }
            t = t + 1;
        }
        let ghost old_rem = rem@;
        let ghost old_out = out@;
        let x = rem.remove(m);
        out.push(x);
        proof {
            old_rem.remove_ensures(m as int);
            // the removed element was minimal among the remaining ones
            assert forall|j: int| 0 <= j < rem@.len() implies spec_piece_leq(
                x,
                #[trigger] rem@[j],
            ) by {
                if j < m {
                    assert(rem@[j] == old_rem[j]);
                } else {
                    assert(rem@[j] == old_rem[j + 1]);
                }
            }
            // the new tail of `out` respects the order against everything left
            assert forall|i: int, j: int|
                0 <= i < out@.len() && 0 <= j < rem@.len() implies spec_piece_leq(
                #[trigger] out@[i],
                #[trigger] rem@[j],
            ) by {
                if i < old_out.len() {
                    assert(out@[i] == old_out[i]);
                    if j < m {
                        assert(rem@[j] == old_rem[j]);
                    } else {
                        assert(rem@[j] == old_rem[j + 1]);
                    }
                } else {
                    assert(out@[i] == x);
                }
            }
            assert forall|i: int, j: int| 0 <= i < j < out@.len() implies spec_piece_leq(
                #[trigger] out@[i],
                #[trigger] out@[j],
            ) by {
                if j < old_out.len() {
                    assert(out@[i] == old_out[i] && out@[j] == old_out[j]);
                } else {
                    assert(out@[j] == x);
                    assert(out@[i] == old_out[i]);
                    assert(spec_piece_leq(old_out[i], old_rem[m as int]));
                }
            }
            // multiset bookkeeping: moving one element keeps the union
            assert(old_rem.to_multiset().count(x) >= 1) by {
                assert(old_rem[m as int] == x);
                assert(old_rem.contains(x));
            }
            assert(out@.to_multiset() == old_out.to_multiset().insert(x)) by {
                assert(out@ =~= old_out.push(x));
            }
            assert(rem@.to_multiset() == old_rem.to_multiset().remove(x));
            assert(out@.to_multiset().add(rem@.to_multiset()) =~= old_out.to_multiset().add(
                old_rem.to_multiset(),
            ));
        }
    }
    proof {
        assert(rem@.to_multiset() =~= Multiset::<Piece>::empty()) by {
            assert(rem@ =~= Seq::<Piece>::empty());
        }
        assert(out@.to_multiset().add(Multiset::<Piece>::empty()) =~= out@.to_multiset());
    }
    out
}

/// Piece selection order is a function of the descriptors alone: two
/// selection orders that are sorted and hold the same descriptors, with
/// pairwise-distinct piece indices, are identical. With a fixed per-piece
/// tie-break value and a fixed peer roster, repeated runs therefore select
/// pieces in the same order.
pub proof fn lemma_schedule_deterministic(x: Seq<Piece>, y: Seq<Piece>)
    requires
        spec_schedule_sorted(x),
        spec_schedule_sorted(y),
        spec_distinct_indices(x),
        x.to_multiset() == y.to_multiset(),
    ensures
        x == y,
    decreases x.len(),
{
    x.to_multiset_ensures();
    y.to_multiset_ensures();
    if x.len() == 0 {
        assert(y.to_multiset().len() == 0);
        assert(x =~= y);
    } else {
        assert(x.to_multiset().len() == y.to_multiset().len());
        assert(y.len() > 0);
        assert(x.contains(x[0])) by {
            assert(x[0] == x[0]);
        }
        assert(y.to_multiset().count(x[0]) > 0);
        assert(y.contains(x[0]));
        let j = choose|j: int| 0 <= j < y.len() && y[j] == x[0];
        assert(x.to_multiset().count(y[0]) > 0);
        assert(x.contains(y[0]));
        let i = choose|i: int| 0 <= i < x.len() && x[i] == y[0];
        if i == 0 || j == 0 {
            assert(x[0] == y[0]);
        } else {
            assert(spec_piece_leq(x[0], x[i]));
            assert(spec_piece_leq(y[0], y[j]));
            lemma_piece_leq_both(x[0], y[0]);
            assert(x[i].spec_index() == x[0].spec_index());
            assert(false);
        }
        let xt = x.drop_first();
        let yt = y.drop_first();
        assert(xt =~= x.remove(0));
        assert(yt =~= y.remove(0));
        x.remove_ensures(0);
        y.remove_ensures(0);
        assert(x.remove(0).to_multiset() == x.to_multiset().remove(x[0]));
        assert(y.remove(0).to_multiset() == y.to_multiset().remove(y[0]));
        assert(xt.to_multiset() == yt.to_multiset());
        assert(forall|i: int| 0 <= i < xt.len() ==> #[trigger] xt[i] == x[i + 1]);
        assert(forall|i: int| 0 <= i < yt.len() ==> #[trigger] yt[i] == y[i + 1]);
        assert(spec_schedule_sorted(xt)) by {
            assert(forall|i: int| 0 <= i < xt.len() ==> #[trigger] xt[i] == x[i + 1]);
        }
        assert(spec_schedule_sorted(yt)) by {
            assert(forall|i: int| 0 <= i < yt.len() ==> #[trigger] yt[i] == y[i + 1]);
        }
        assert(spec_distinct_indices(xt)) by {
            assert(forall|i: int| 0 <= i < xt.len() ==> #[trigger] xt[i] == x[i + 1]);
        }
        lemma_schedule_deterministic(xt, yt);
        assert forall|i: int| 0 <= i < x.len() implies x[i] == y[i] by {
            if i > 0 {
                assert(x[i] == xt[i - 1]);
                assert(y[i] == yt[i - 1]);
            }
        }
        assert(x =~= y);
    }
}

} // verus!
