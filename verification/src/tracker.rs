//! The tracker collaborator contract: the announce request parameters, the
//! percent-encoding of the info hash, and the compact peer list format of
//! the announce response (6 bytes per peer: 4 address bytes, then a
//! big-endian port). The HTTP exchange itself is outside this library.

use vstd::prelude::*;

use vstd::string::StringExecFns;

verus! {

/// One announce request to the tracker; the info hash travels separately,
/// percent-encoded into the URL.
#[derive(Debug, Clone)]
pub struct TrackerRequest {
    pub peer_id: String,
    pub port: u16,
    pub uploaded: usize,
    pub downloaded: usize,
    pub left: usize,
    pub compact: bool,
}

impl TrackerRequest {
    /// A fresh announce: nothing uploaded or downloaded yet, the whole
    /// content length left, compact peer format, the conventional port.
    pub fn new(peer_id: String, left: usize) -> (r: TrackerRequest)
        ensures
            r.peer_id == peer_id,
            r.port == 6881,
            r.uploaded == 0,
            r.downloaded == 0,
            r.left == left,
            r.compact == true,
    {
        TrackerRequest { peer_id, port: 6881, uploaded: 0, downloaded: 0, left, compact: true }
    }
}

/// The lowercase hex digit of a value below 16.
pub open spec fn spec_hex_digit(n: u8) -> char
    recommends
        n < 16,
{
    if n == 0 {
        '0'
    } else if n == 1 {
        '1'
    } else if n == 2 {
        '2'
    } else if n == 3 {
        '3'
    } else if n == 4 {
        '4'
    } else if n == 5 {
        '5'
    } else if n == 6 {
        '6'
    } else if n == 7 {
        '7'
    } else if n == 8 {
        '8'
    } else if n == 9 {
        '9'
    } else if n == 10 {
        'a'
    } else if n == 11 {
        'b'
    } else if n == 12 {
        'c'
    } else if n == 13 {
        'd'
    } else if n == 14 {
        'e'
    } else {
        'f'
    }
}

/// The two lowercase hex digits of one byte, high nibble first.
pub open spec fn spec_hex_byte(b: u8) -> Seq<char> {
    seq![spec_hex_digit(b / 16), spec_hex_digit(b % 16)]
}

/// The percent-encoding of a byte string: each byte becomes '%' followed by
/// its two lowercase hex digits.
pub open spec fn spec_url_encode(t: Seq<u8>) -> Seq<char>
    decreases t.len(),
{
    if t.len() == 0 {
        Seq::empty()
    } else {
        seq!['%'] + spec_hex_byte(t[0]) + spec_url_encode(t.skip(1))
    }
}

/// Encoding one more byte extends the encoding by its three characters.
pub proof fn lemma_url_encode_take_snoc(t: Seq<u8>, i: int)
    requires
        0 <= i < t.len(),
    ensures
        spec_url_encode(t.take(i + 1)) == spec_url_encode(t.take(i)) + seq!['%'] + spec_hex_byte(
            t[i],
        ),
    decreases i,
{
    if i == 0 {
        assert(t.take(1).skip(1) =~= Seq::<u8>::empty());
        assert(t.take(1)[0] == t[0]);
        assert(t.take(0) =~= Seq::<u8>::empty());
        assert(spec_url_encode(t.take(1)) =~= spec_url_encode(t.take(0)) + seq!['%']
            + spec_hex_byte(t[0]));
    } else {
        lemma_url_encode_take_snoc(t.skip(1), i - 1);
        assert(t.take(i + 1).skip(1) =~= t.skip(1).take(i));
        assert(t.take(i).skip(1) =~= t.skip(1).take(i - 1));
        assert(t.take(i + 1)[0] == t[0]);
        assert(t.take(i)[0] == t[0]);
        assert(t.skip(1)[i - 1] == t[i]);
        assert(spec_url_encode(t.take(i + 1)) =~= spec_url_encode(t.take(i)) + seq!['%']
            + spec_hex_byte(t[i]));
    }
}

/// Relies on hex::encode: one byte becomes exactly its two lowercase hex
/// digits, high nibble first.
#[verifier::external_body]
fn hex_byte(b: u8) -> (r: String)
    ensures
        r@ == spec_hex_byte(b),
{
    hex::encode([b])
}

/// Percent-encodes a 20-byte info hash for the announce URL.
pub fn url_encode(t: &[u8; 20]) -> (r: String)
    ensures
        r@ == spec_url_encode(t@),
{
    let mut out = String::new();
    let mut i: usize = 0;
    while i < 20
        invariant
            i <= 20,
            out@ == spec_url_encode(t@.take(i as int)),
        decreases 20 - i,
    {
        out.append("%");
        let h = hex_byte(t[i]);
        out.append(h.as_str());
        proof {
            reveal_strlit("%");
            assert("%"@ =~= seq!['%']);
            lemma_url_encode_take_snoc(t@, i as int);
        }
        i = i + 1;
    }
    proof {
        assert(t@.take(20) =~= t@);
    }
    out
}

// ---------------------------------------------------------------------------
// Compact peer lists
// ---------------------------------------------------------------------------
/// The 16-bit integer read from two big-endian bytes.
pub open spec fn spec_from_be16(b: Seq<u8>) -> u16
    recommends
        b.len() == 2,
{
    ((b[0] as u16) << 8) | (b[1] as u16)
}

/// One peer candidate: four address bytes and a port.
#[derive(Debug, Clone, Copy, PartialEq, Eq)]
pub struct PeerAddr {
    pub ip: [u8; 4],
    pub port: u16,
}

/// The 6-byte wire form of each peer, concatenated in order.
pub open spec fn spec_peers_bytes(ps: Seq<PeerAddr>) -> Seq<u8>
    decreases ps.len(),
{
    if ps.len() == 0 {
        Seq::empty()
    } else {
        ps[0].ip@ + seq![(ps[0].port >> 8) as u8, ps[0].port as u8] + spec_peers_bytes(ps.skip(1))
    }
}

/// Serializing one more peer extends the bytes by its six.
pub proof fn lemma_peers_bytes_take_snoc(ps: Seq<PeerAddr>, i: int)
    requires
        0 <= i < ps.len(),
    ensures
        spec_peers_bytes(ps.take(i + 1)) == spec_peers_bytes(ps.take(i)) + ps[i].ip@ + seq![
            (ps[i].port >> 8) as u8,
            ps[i].port as u8,
        ],
    decreases i,
{
    if i == 0 {
        assert(ps.take(1).skip(1) =~= Seq::<PeerAddr>::empty());
        assert(ps.take(1)[0] == ps[0]);
        assert(ps.take(0) =~= Seq::<PeerAddr>::empty());
        assert(spec_peers_bytes(ps.take(1)) =~= spec_peers_bytes(ps.take(0)) + ps[0].ip@ + seq![
            (ps[0].port >> 8) as u8,
            ps[0].port as u8,
        ]);
    } else {
        lemma_peers_bytes_take_snoc(ps.skip(1), i - 1);
        assert(ps.take(i + 1).skip(1) =~= ps.skip(1).take(i));
        assert(ps.take(i).skip(1) =~= ps.skip(1).take(i - 1));
        assert(ps.take(i + 1)[0] == ps[0]);
        assert(ps.take(i)[0] == ps[0]);
        assert(ps.skip(1)[i - 1] == ps[i]);
        assert(spec_peers_bytes(ps.take(i + 1)) =~= spec_peers_bytes(ps.take(i)) + ps[i].ip@
            + seq![(ps[i].port >> 8) as u8, ps[i].port as u8]);
    }
}

/// The ordered peer candidates of one announce response.
#[derive(Debug, Clone)]
pub struct Peers(pub Vec<PeerAddr>);

impl Peers {
    /// Decodes the compact peer format: consecutive 6-byte entries, four
    /// address bytes then a big-endian port. Any length that is not a
    /// multiple of 6 is rejected.
    pub fn from_bytes(v: &[u8]) -> (r: Option<Peers>)
        ensures
            v@.len() % 6 == 0 <==> r is Some,
            r matches Some(p) ==> {
                &&& p.0@.len() == v@.len() / 6
                &&& forall|k: int|
                    0 <= k < p.0@.len() ==> (#[trigger] p.0@[k]).ip@ == v@.subrange(
                        6 * k,
                        6 * k + 4,
                    ) && p.0@[k].port == spec_from_be16(v@.subrange(6 * k + 4, 6 * k + 6))
            },
    {
        if v.len() % 6 != 0 {
            return None;
        }
        proof {
            vstd::arithmetic::div_mod::lemma_fundamental_div_mod(v@.len() as int, 6);
        }
        let mut out: Vec<PeerAddr> = Vec::new();
        let mut i: usize = 0;
        while i < v.len()
            invariant
                v@.len() == 6 * (v@.len() as int / 6),
                i == 6 * out@.len(),
                i <= v@.len(),
                v@.len() <= usize::MAX,
                forall|k: int|
                    0 <= k < out@.len() ==> (#[trigger] out@[k]).ip@ == v@.subrange(
                        6 * k,
                        6 * k + 4,
                    ) && out@[k].port == spec_from_be16(v@.subrange(6 * k + 4, 6 * k + 6)),
            decreases v@.len() - i,
        {
            assert(i + 6 <= v@.len());
            let mut ip: [u8; 4] = [0u8; 4];
            ip[0] = v[i];
            ip[1] = v[i + 1];
            ip[2] = v[i + 2];
            ip[3] = v[i + 3];
            let port = ((v[i + 4] as u16) << 8) | (v[i + 5] as u16);
            proof {
                assert(ip@ =~= v@.subrange(i as int, i + 4));
                assert(v@.subrange(i + 4, i + 6) =~= seq![v@[i + 4], v@[i + 5]]);
            }
            out.push(PeerAddr { ip, port });
            i = i + 6;
        }
        Some(Peers(out))
    }

    /// Serializes the peers back into the compact 6-byte-per-peer form.
    pub fn to_bytes(&self) -> (r: Vec<u8>)
        ensures
            r@ == spec_peers_bytes(self.0@),
    {
        let mut out: Vec<u8> = Vec::new();
        let mut i: usize = 0;
        while i < self.0.len()
            invariant
                i <= self.0@.len(),
                out@ == spec_peers_bytes(self.0@.take(i as int)),
            decreases self.0@.len() - i,
        {
            let p = &self.0[i];
            out.push(p.ip[0]);
            out.push(p.ip[1]);
            out.push(p.ip[2]);
            out.push(p.ip[3]);
            out.push(#[verifier::truncate] ((p.port >> 8) as u8));
            out.push(#[verifier::truncate] (p.port as u8));
            proof {
                lemma_peers_bytes_take_snoc(self.0@, i as int);
                assert(p.ip@ =~= seq![p.ip@[0], p.ip@[1], p.ip@[2], p.ip@[3]]);
                assert(out@ =~= spec_peers_bytes(self.0@.take(i as int)) + p.ip@ + seq![
                    (p.port >> 8) as u8,
                    p.port as u8,
                ]);
            }
            i = i + 1;
        }
        proof {
            assert(self.0@.take(self.0@.len() as int) =~= self.0@);
        }
        out
    }
}

/// One announce response: the re-announce interval in seconds and the peer
/// candidates, in the order the tracker sent them.
#[derive(Debug, Clone)]
pub struct TrackerResponse {
    pub interval: usize,
    pub peers: Peers,
}

} // verus!
