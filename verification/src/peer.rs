//! Wire-level peer protocol: the length-prefixed message framing, the fixed
//! 68-byte handshake, block request/response records, the per-peer bitfield,
//! and the peer connection state machine.
//!
//! Framing: a 4-byte big-endian length prefix counting tag byte plus payload,
//! then one tag byte in [0, 8], then the payload. A zero length is a
//! keep-alive: its 4 bytes are consumed and no message is emitted. Decoding
//! reports "need more bytes" for incomplete frames and a protocol error for
//! an over-long frame or an unknown tag.

use vstd::prelude::*;

use crate::error::PeerError;
use crate::error::ProtocolError;

verus! {

/// Fixed maximum frame size (tag byte + payload), in bytes.
pub const MAX: usize = 65536;

// ---------------------------------------------------------------------------
// Big-endian 32-bit integers
// ---------------------------------------------------------------------------
/// The four big-endian bytes of a 32-bit integer.
pub open spec fn spec_be32(n: u32) -> Seq<u8> {
    seq![(n >> 24) as u8, (n >> 16) as u8, (n >> 8) as u8, n as u8]
}

/// The 32-bit integer read from four big-endian bytes.
pub open spec fn spec_from_be32(b: Seq<u8>) -> u32
    recommends
        b.len() == 4,
{
    ((b[0] as u32) << 24) | ((b[1] as u32) << 16) | ((b[2] as u32) << 8) | (b[3] as u32)
}

pub proof fn lemma_be32_round_trip(n: u32)
    ensures
        spec_be32(n).len() == 4,
        spec_from_be32(spec_be32(n)) == n,
{
    let b0 = (n >> 24) as u8;
    let b1 = (n >> 16) as u8;
    let b2 = (n >> 8) as u8;
    let b3 = n as u8;
    assert((((b0 as u32) << 24) | ((b1 as u32) << 16) | ((b2 as u32) << 8) | (b3 as u32)) == n)
        by (bit_vector)
        requires
            b0 == (n >> 24) as u8,
            b1 == (n >> 16) as u8,
            b2 == (n >> 8) as u8,
            b3 == n as u8,
    ;
}

/// Reads one 32-bit integer from four big-endian bytes.
pub fn u32_from_be(b0: u8, b1: u8, b2: u8, b3: u8) -> (r: u32)
    ensures
        r == spec_from_be32(seq![b0, b1, b2, b3]),
{
    ((b0 as u32) << 24) | ((b1 as u32) << 16) | ((b2 as u32) << 8) | (b3 as u32)
}

/// Writes one 32-bit integer as four big-endian bytes.
pub fn u32_to_be(n: u32) -> (r: [u8; 4])
    ensures
        r@ == spec_be32(n),
{
    let mut r: [u8; 4] = [0u8; 4];
    r[0] = #[verifier::truncate] ((n >> 24) as u8);
    r[1] = #[verifier::truncate] ((n >> 16) as u8);
    r[2] = #[verifier::truncate] ((n >> 8) as u8);
    r[3] = #[verifier::truncate] (n as u8);
    proof {
        assert(r@ =~= spec_be32(n));
    }
    r
}

// ---------------------------------------------------------------------------
// Message tags
// ---------------------------------------------------------------------------
/// The tag of one framed protocol message; a single byte in [0, 8] on the
/// wire.
#[derive(Debug, Clone, Copy, PartialEq, Eq, Structural)]
pub enum MessageTag {
    Choke,
    UnChoke,
    Interested,
    NonInterested,
    Have,
    Bitfield,
    Request,
    Piece,
    Cancel,
}

/// The wire byte of each message tag.
pub open spec fn spec_tag_byte(t: MessageTag) -> u8 {
    match t {
        MessageTag::Choke => 0,
        MessageTag::UnChoke => 1,
        MessageTag::Interested => 2,
        MessageTag::NonInterested => 3,
        MessageTag::Have => 4,
        MessageTag::Bitfield => 5,
        MessageTag::Request => 6,
        MessageTag::Piece => 7,
        MessageTag::Cancel => 8,
    }
}

/// The message tag of a wire byte in [0, 8].
pub open spec fn spec_tag_of_byte(b: u8) -> MessageTag
    recommends
        b <= 8,
{
    if b == 0 {
        MessageTag::Choke
    } else if b == 1 {
        MessageTag::UnChoke
    } else if b == 2 {
        MessageTag::Interested
    } else if b == 3 {
        MessageTag::NonInterested
    } else if b == 4 {
        MessageTag::Have
    } else if b == 5 {
        MessageTag::Bitfield
    } else if b == 6 {
        MessageTag::Request
    } else if b == 7 {
        MessageTag::Piece
    } else {
        MessageTag::Cancel
    }
}

impl MessageTag {
    /// The byte this tag is written as.
    pub fn to_byte(&self) -> (r: u8)
        ensures
            r == spec_tag_byte(*self),
            r <= 8,
    {
        match self {
            MessageTag::Choke => 0,
            MessageTag::UnChoke => 1,
            MessageTag::Interested => 2,
            MessageTag::NonInterested => 3,
            MessageTag::Have => 4,
            MessageTag::Bitfield => 5,
            MessageTag::Request => 6,
            MessageTag::Piece => 7,
            MessageTag::Cancel => 8,
        }
    }

    /// Range-checked mapping from a wire byte to a tag: every byte outside
    /// [0, 8] is rejected.
    pub fn from_byte(b: u8) -> (r: Option<MessageTag>)
        ensures
            b <= 8 <==> r is Some,
            b <= 8 ==> r == Some(spec_tag_of_byte(b)),
    {
        if b == 0 {
            Some(MessageTag::Choke)
        } else if b == 1 {
            Some(MessageTag::UnChoke)
        } else if b == 2 {
            Some(MessageTag::Interested)
        } else if b == 3 {
            Some(MessageTag::NonInterested)
        } else if b == 4 {
            Some(MessageTag::Have)
        } else if b == 5 {
            Some(MessageTag::Bitfield)
        } else if b == 6 {
            Some(MessageTag::Request)
        } else if b == 7 {
            Some(MessageTag::Piece)
        } else if b == 8 {
            Some(MessageTag::Cancel)
        } else {
            None
        }
    }
}

// ---------------------------------------------------------------------------
// Messages and framing
// ---------------------------------------------------------------------------
/// One typed protocol message: a tag and its payload bytes.
#[derive(Debug, Clone)]
pub struct Message {
    pub tag: MessageTag,
    pub payload: Vec<u8>,
}

/// A message whose frame fits under the maximum frame size.
pub open spec fn valid_frame(payload: Seq<u8>) -> bool {
    payload.len() + 1 <= MAX
}

/// The framed encoding of one message: big-endian length of (tag + payload),
/// the tag byte, then the payload.
pub open spec fn spec_encode_message(tag: MessageTag, payload: Seq<u8>) -> Seq<u8> {
    spec_be32((payload.len() + 1) as u32) + seq![spec_tag_byte(tag)] + payload
}

/// What one decode attempt on a buffer (with no leading keep-alive) yields.
pub enum FrameStep {
    /// The buffer holds an incomplete frame; retry with more bytes.
    NeedMore,
    /// The declared length exceeds the maximum frame size.
    TooLong,
    /// The tag byte is outside [0, 8].
    BadTag,
    /// A complete frame: its tag, payload, and total size in bytes.
    Frame { tag: MessageTag, payload: Seq<u8>, used: nat },
}

/// How many leading bytes of the buffer belong to keep-alive frames (frames
/// with a declared length of zero).
pub open spec fn spec_skip_keepalives(b: Seq<u8>) -> nat
    decreases b.len(),
{
    if b.len() >= 4 && spec_from_be32(b.take(4)) == 0 {
        (4 + spec_skip_keepalives(b.skip(4))) as nat
    } else {
        0
    }
}

pub proof fn lemma_skip_keepalives_le_len(b: Seq<u8>)
    ensures
        spec_skip_keepalives(b) <= b.len(),
    decreases b.len(),
{
    if b.len() >= 4 && spec_from_be32(b.take(4)) == 0 {
        lemma_skip_keepalives_le_len(b.skip(4));
    }
}

/// One frame-decode attempt on a buffer whose front is not a keep-alive.
pub open spec fn spec_frame(b: Seq<u8>) -> FrameStep {
    if b.len() < 4 {
        FrameStep::NeedMore
    } else {
        let n = spec_from_be32(b.take(4)) as int;
        if n == 0 {
            FrameStep::NeedMore
        } else if b.len() < 5 {
            FrameStep::NeedMore
        } else if n > MAX {
            FrameStep::TooLong
        } else if b.len() < 4 + n {
            FrameStep::NeedMore
        } else if b[4] > 8 {
            FrameStep::BadTag
        } else {
            FrameStep::Frame {
                tag: spec_tag_of_byte(b[4]),
                payload: b.subrange(5, 4 + n),
                used: (4 + n) as nat,
            }
        }
    }
}

/// The full decode relation on a buffer: skip leading keep-alives, then
/// attempt one frame.
pub open spec fn spec_decode(b: Seq<u8>) -> FrameStep {
    spec_frame(b.skip(spec_skip_keepalives(b) as int))
}

/// Removes the first `k` bytes of a byte buffer.
fn drop_front(v: &mut Vec<u8>, k: usize)
    requires
        k <= old(v)@.len(),
    ensures
        final(v)@ == old(v)@.skip(k as int),
{
    let mut out: Vec<u8> = Vec::new();
    let mut i: usize = k;
    while i < v.len()
        invariant
            k <= i <= v@.len(),
            v@ == old(v)@,
            out@ == v@.subrange(k as int, i as int),
        decreases v@.len() - i,
    {
        let b = v[i];
        out.push(b);
        assert(v@.subrange(k as int, i + 1) =~= v@.subrange(k as int, i as int).push(v@[i as int]));
        i = i + 1;
    }
    assert(out@ =~= old(v)@.skip(k as int));
    *v = out;
}

/// Copies the bytes of `v` in `[from, to)` into a fresh buffer.
fn copy_range(v: &Vec<u8>, from: usize, to: usize) -> (r: Vec<u8>)
    requires
        from <= to <= v@.len(),
    ensures
        r@ == v@.subrange(from as int, to as int),
{
    let mut out: Vec<u8> = Vec::new();
    let mut i: usize = from;
    while i < to
        invariant
            from <= i <= to <= v@.len(),
            out@ == v@.subrange(from as int, i as int),
        decreases to - i,
    {
        let b = v[i];
        out.push(b);
        assert(v@.subrange(from as int, i + 1) =~= v@.subrange(from as int, i as int).push(
            v@[i as int],
        ));
        i = i + 1;
    }
    out
}

/// Stateless codec between a raw byte buffer and typed protocol messages.
#[derive(Debug)]
pub struct MessageFramer;

impl MessageFramer {
    /// Decodes the next message out of `src`, consuming its frame bytes and
    /// any keep-alive frames before it. Returns `Ok(None)` when the buffer
    /// holds an incomplete frame: the caller keeps the unread bytes and
    /// retries once more bytes arrive.
    pub fn decode(&mut self, src: &mut Vec<u8>) -> (r: Result<Option<Message>, ProtocolError>)
        ensures
            ({
                let rest = old(src)@.skip(spec_skip_keepalives(old(src)@) as int);
                match spec_decode(old(src)@) {
                    FrameStep::NeedMore => r matches Ok(m) && m is None && final(src)@ == rest,
                    FrameStep::TooLong => r == Err::<Option<Message>, ProtocolError>(
                        ProtocolError::FrameTooLong,
                    ) && final(src)@ == rest,
                    FrameStep::BadTag => r == Err::<Option<Message>, ProtocolError>(
                        ProtocolError::UnknownTag,
                    ) && final(src)@ == rest,
                    FrameStep::Frame { tag, payload, used } => r matches Ok(m) && m matches Some(
                        msg,
                    ) && msg.tag == tag && msg.payload@ == payload && final(src)@ == rest.skip(
                        used as int,
                    ),
                }
            }),
    {
        proof {
            lemma_skip_keepalives_le_len(old(src)@);
        }
        // Consume leading keep-alive frames.
        loop
            invariant
                src@.len() <= old(src)@.len(),
                old(src)@.skip((old(src)@.len() - src@.len()) as int) == src@,
                spec_skip_keepalives(old(src)@) == old(src)@.len() - src@.len()
                    + spec_skip_keepalives(src@),
            ensures
                src@ == old(src)@.skip(spec_skip_keepalives(old(src)@) as int),
                spec_skip_keepalives(src@) == 0,
            decreases src@.len(),
        {
            if src.len() < 4 {
                break;
            }
            let n = u32_from_be(src[0], src[1], src[2], src[3]);
            proof {
                assert(src@.take(4) =~= seq![src@[0], src@[1], src@[2], src@[3]]);
            }
            if n != 0 {
                break;
            }
            let ghost before = src@;
            drop_front(src, 4);
            proof {
                let done = old(src)@.len() - before.len();
                assert(old(src)@.skip(done as int).skip(4) =~= old(src)@.skip(done + 4));
            }
        }
        let ghost rest = src@;
        if src.len() < 4 {
            return Ok(None);
        }
        let n32 = u32_from_be(src[0], src[1], src[2], src[3]);
        proof {
            assert(src@.take(4) =~= seq![src@[0], src@[1], src@[2], src@[3]]);
        }
        let n = n32 as usize;
        assert(n != 0);
        if src.len() < 5 {
            return Ok(None);
        }
        if n > MAX {
            return Err(ProtocolError::FrameTooLong);
        }
        if src.len() < 4 + n {
            return Ok(None);
        }
        let tb = src[4];
        if tb > 8 {
            return Err(ProtocolError::UnknownTag);
        }
        let tag = match MessageTag::from_byte(tb) {
            Some(t) => t,
            // unreachable: the tag byte was range-checked just above
            None => {
                proof {
                    assert(false);
                }
                MessageTag::Choke
            },
        };
        let payload = copy_range(src, 5, 4 + n);
        drop_front(src, 4 + n);
        Ok(Some(Message { tag, payload }))
    }

    /// Encodes one message as a frame appended to `dst`; a message whose
    /// tag and payload would exceed the maximum frame size is rejected and
    /// `dst` is left unchanged.
    pub fn encode(&mut self, item: Message, dst: &mut Vec<u8>) -> (r: Result<(), ProtocolError>)
        ensures
            valid_frame(item.payload@) ==> (r matches Ok(u) && final(dst)@ == old(dst)@
                + spec_encode_message(item.tag, item.payload@)),
            !valid_frame(item.payload@) ==> r == Err::<(), ProtocolError>(
                ProtocolError::FrameTooLong,
            ) && final(dst)@ == old(dst)@,
    {
        if item.payload.len() >= MAX {
            return Err(ProtocolError::FrameTooLong);
        }
        let n32 = (item.payload.len() + 1) as u32;
        let len_bytes = u32_to_be(n32);
        dst.push(len_bytes[0]);
        dst.push(len_bytes[1]);
        dst.push(len_bytes[2]);
        dst.push(len_bytes[3]);
        dst.push(item.tag.to_byte());
        let mut i: usize = 0;
        while i < item.payload.len()
            invariant
                i <= item.payload@.len(),
                dst@ == old(dst)@ + spec_be32((item.payload@.len() + 1) as u32) + seq![
                    spec_tag_byte(item.tag),
                ] + item.payload@.take(i as int),
            decreases item.payload@.len() - i,
        {
            dst.push(item.payload[i]);
            assert(item.payload@.take(i + 1) =~= item.payload@.take(i as int).push(
                item.payload@[i as int],
            ));
            i = i + 1;
        }
        proof {
            assert(spec_be32((item.payload@.len() + 1) as u32) =~= seq![
                len_bytes@[0],
                len_bytes@[1],
                len_bytes@[2],
                len_bytes@[3],
            ]);
            assert(item.payload@.take(item.payload@.len() as int) =~= item.payload@);
            assert(dst@ =~= old(dst)@ + spec_encode_message(item.tag, item.payload@));
        }
        Ok(())
    }
}

// ---------------------------------------------------------------------------
// Bitfield
// ---------------------------------------------------------------------------
/// Whether bit `i` is set in the big-endian-per-byte bit layout: bit 0 of
/// byte 0 is piece 0, the most significant bit first.
pub open spec fn spec_has_piece(bytes: Seq<u8>, i: nat) -> bool {
    i / 8 < bytes.len() && ((bytes[(i / 8) as int] >> ((7 - (i % 8)) as u32)) & 1) == 1
}

/// The ascending set-bit indices of `bytes` from bit position `k` on.
pub open spec fn spec_pieces_from(bytes: Seq<u8>, k: nat) -> Seq<usize>
    decreases 8 * bytes.len() - k,
{
    if k >= 8 * bytes.len() {
        Seq::empty()
    } else if spec_has_piece(bytes, k) {
        seq![k as usize] + spec_pieces_from(bytes, k + 1)
    } else {
        spec_pieces_from(bytes, k + 1)
    }
}

/// The number of set bits of `bytes` from bit position `k` on.
pub open spec fn spec_count_bits_from(bytes: Seq<u8>, k: nat) -> nat
    decreases 8 * bytes.len() - k,
{
    if k >= 8 * bytes.len() {
        0
    } else if spec_has_piece(bytes, k) {
        1 + spec_count_bits_from(bytes, k + 1)
    } else {
        spec_count_bits_from(bytes, k + 1)
    }
}

/// The number of set bits of `bytes`.
pub open spec fn spec_num_set_bits(bytes: Seq<u8>) -> nat {
    spec_count_bits_from(bytes, 0)
}

/// Compact per-peer record of which pieces that peer holds. Derived fresh
/// from each incoming presence update; never patched in place.
#[derive(Debug, Clone)]
pub struct Bitfield {
    payload: Vec<u8>,
}

impl View for Bitfield {
    type V = Seq<u8>;

    closed spec fn view(&self) -> Seq<u8> {
        self.payload@
    }
}

impl Bitfield {
    /// Builds a bitfield from the payload of a presence update.
    pub fn from_bytes(payload: &[u8]) -> (r: Bitfield)
        ensures
            r@ == payload@,
    {
        let mut v: Vec<u8> = Vec::new();
        let mut i: usize = 0;
        while i < payload.len()
            invariant
                i <= payload@.len(),
                v@ == payload@.take(i as int),
            decreases payload@.len() - i,
        {
            v.push(payload[i]);
            assert(payload@.take(i + 1) =~= payload@.take(i as int).push(payload@[i as int]));
            i = i + 1;
        }
        assert(payload@.take(payload@.len() as int) =~= payload@);
        Bitfield { payload: v }
    }

    /// Whether this peer holds piece `piece_i`. Queries at or beyond the
    /// stored bit capacity return false; they never error.
    pub fn has_piece(&self, piece_i: u32) -> (r: bool)
        ensures
            r == spec_has_piece(self@, piece_i as nat),
            piece_i as nat >= 8 * self@.len() ==> r == false,
    {
        let byte_i = (piece_i / 8) as usize;
        let bit = piece_i % 8;
        if byte_i >= self.payload.len() {
            return false;
        }
        let b = self.payload[byte_i];
        let r = (b & (0x80u8 >> bit)) != 0;
        proof {
            assert(((b & (0x80u8 >> bit)) != 0) == (((b >> ((7 - bit) as u32)) & 1) == 1))
                by (bit_vector)
                requires
                    bit < 8,
            ;
            assert(piece_i as nat % 8 == bit as nat);
            assert(piece_i as nat / 8 == byte_i as nat);
        }
        r
    }

    /// The ascending indices of all pieces this peer holds.
    pub fn pieces(&self) -> (r: Vec<usize>)
        requires
            8 * self@.len() <= u32::MAX,
        ensures
            r@ == spec_pieces_from(self@, 0),
    {
        let mut out: Vec<usize> = Vec::new();
        let n = self.payload.len();
        let mut byte_i: usize = 0;
        while byte_i < n
            invariant
                8 * self@.len() <= u32::MAX,
                n == self@.len(),
                byte_i <= n,
                spec_pieces_from(self@, 0) == out@ + spec_pieces_from(self@, (8 * byte_i) as nat),
            decreases n - byte_i,
        {
            let mut bit: u32 = 0;
            while bit < 8
                invariant
                    8 * self@.len() <= u32::MAX,
                    n == self@.len(),
                    byte_i < n,
                    bit <= 8,
                    spec_pieces_from(self@, 0) == out@ + spec_pieces_from(
                        self@,
                        (8 * byte_i + bit) as nat,
                    ),
                decreases 8 - bit,
            {
                let ghost old_out = out@;
                let ghost kk = (8 * byte_i + bit) as nat;
                let k = 8 * byte_i + (bit as usize);
                if self.has_piece(k as u32) {
                    out.push(k);
                }
                proof {
                    assert(kk < 8 * self@.len());
                    if spec_has_piece(self@, kk) {
                        assert(spec_pieces_from(self@, kk) == seq![kk as usize]
                            + spec_pieces_from(self@, kk + 1));
                        assert(out@ =~= old_out.push(kk as usize));
                        assert(old_out + (seq![kk as usize] + spec_pieces_from(self@, kk + 1))
                            =~= old_out.push(kk as usize) + spec_pieces_from(self@, kk + 1));
                    } else {
                        assert(spec_pieces_from(self@, kk) == spec_pieces_from(self@, kk + 1));
                    }
                }
                bit = bit + 1;
            }
            byte_i = byte_i + 1;
        }
        proof {
            assert(spec_pieces_from(self@, (8 * n) as nat) == Seq::<usize>::empty());
            assert(out@ + Seq::<usize>::empty() =~= out@);
        }
        out
    }
}

/// Every index yielded from bit position `k` on lies at or above `k`.
pub proof fn lemma_pieces_from_lower_bound(bytes: Seq<u8>, k: nat)
    requires
        8 * bytes.len() <= usize::MAX,
    ensures
        forall|t: int|
            0 <= t < spec_pieces_from(bytes, k).len() ==> #[trigger] spec_pieces_from(bytes, k)[t]
                >= k,
    decreases 8 * bytes.len() - k,
{
    if k >= 8 * bytes.len() {
    } else {
        lemma_pieces_from_lower_bound(bytes, k + 1);
        let s = spec_pieces_from(bytes, k);
        let tail = spec_pieces_from(bytes, k + 1);
        if spec_has_piece(bytes, k) {
            assert forall|t: int| 0 <= t < s.len() implies s[t] >= k by {
                if t == 0 {
                    assert(s[0] == k as usize);
                } else {
                    assert(s[t] == tail[t - 1]);
                }
            }
        } else {
            assert forall|t: int| 0 <= t < s.len() implies s[t] >= k by {
                assert(s[t] == tail[t]);
            }
        }
    }
}

/// `pieces()` yields strictly ascending indices.
pub proof fn lemma_pieces_from_ascending(bytes: Seq<u8>, k: nat)
    requires
        8 * bytes.len() <= usize::MAX,
    ensures
        forall|i: int, j: int|
            0 <= i < j < spec_pieces_from(bytes, k).len() ==> #[trigger] spec_pieces_from(
                bytes,
                k,
            )[i] < #[trigger] spec_pieces_from(bytes, k)[j],
    decreases 8 * bytes.len() - k,
{
    if k >= 8 * bytes.len() {
    } else {
        lemma_pieces_from_ascending(bytes, k + 1);
        lemma_pieces_from_lower_bound(bytes, k + 1);
        let s = spec_pieces_from(bytes, k);
        let tail = spec_pieces_from(bytes, k + 1);
        if spec_has_piece(bytes, k) {
            assert forall|i: int, j: int| 0 <= i < j < s.len() implies s[i] < s[j] by {
                if i == 0 {
                    assert(s[0] == k as usize);
                    assert(s[j] == tail[j - 1]);
                    assert(tail[j - 1] >= k + 1);
                } else {
                    assert(s[i] == tail[i - 1]);
                    assert(s[j] == tail[j - 1]);
                }
            }
        } else {
            assert forall|i: int, j: int| 0 <= i < j < s.len() implies s[i] < s[j] by {
                assert(s[i] == tail[i]);
                assert(s[j] == tail[j]);
            }
        }
    }
}

/// `pieces()` yields exactly the indices `i` with `has_piece(i)` true.
pub proof fn lemma_pieces_from_contains(bytes: Seq<u8>, k: nat, i: usize)
    requires
        8 * bytes.len() <= usize::MAX,
        i >= k,
    ensures
        spec_pieces_from(bytes, k).contains(i) <==> spec_has_piece(bytes, i as nat),
    decreases 8 * bytes.len() - k,
{
    if k >= 8 * bytes.len() {
        assert(!spec_pieces_from(bytes, k).contains(i));
        assert(i as nat / 8 >= bytes.len());
    } else {
        if i == k {
            if spec_has_piece(bytes, k) {
                assert(spec_pieces_from(bytes, k)[0] == i);
                assert(spec_pieces_from(bytes, k).contains(i));
            } else {
                lemma_pieces_from_lower_bound(bytes, k + 1);
                if spec_pieces_from(bytes, k).contains(i) {
                    let t = choose|t: int|
                        0 <= t < spec_pieces_from(bytes, k).len() && spec_pieces_from(bytes, k)[t]
                            == i;
                    assert(spec_pieces_from(bytes, k + 1)[t] == i);
                    assert(false);
                }
            }
        } else {
            lemma_pieces_from_contains(bytes, k + 1, i);
            if spec_has_piece(bytes, k) {
                let tail = spec_pieces_from(bytes, k + 1);
                assert(spec_pieces_from(bytes, k) == seq![k as usize] + tail);
                if tail.contains(i) {
                    let t = choose|t: int| 0 <= t < tail.len() && tail[t] == i;
                    assert(spec_pieces_from(bytes, k)[t + 1] == i);
                }
                if spec_pieces_from(bytes, k).contains(i) {
                    let t = choose|t: int|
                        0 <= t < spec_pieces_from(bytes, k).len() && spec_pieces_from(bytes, k)[t]
                            == i;
                    assert(t >= 1);
                    assert(tail[t - 1] == i);
                }
            }
        }
    }
}

/// The count of yielded indices equals the number of set bits.
pub proof fn lemma_pieces_from_count(bytes: Seq<u8>, k: nat)
    ensures
        spec_pieces_from(bytes, k).len() == spec_count_bits_from(bytes, k),
    decreases 8 * bytes.len() - k,
{
    if k >= 8 * bytes.len() {
    } else {
        lemma_pieces_from_count(bytes, k + 1);
    }
}

// ---------------------------------------------------------------------------
// Handshake
// ---------------------------------------------------------------------------
/// The 19 bytes of the literal protocol name "BitTorrent protocol".
pub open spec fn spec_protocol_name() -> Seq<u8> {
    seq![
        66u8,
        105,
        116,
        84,
        111,
        114,
        114,
        101,
        110,
        116,
        32,
        112,
        114,
        111,
        116,
        111,
        99,
        111,
        108,
    ]
}

/// The 20 bytes of the fixed local peer identifier.
pub open spec fn spec_default_peer_id() -> Seq<u8> {
    seq![48u8, 48, 49, 49, 50, 50, 51, 51, 52, 52, 53, 53, 54, 54, 55, 55, 56, 56, 57, 48]
}

/// The 68-byte wire form of a handshake.
pub open spec fn spec_handshake_bytes(h: Handshake) -> Seq<u8> {
    seq![h.length] + h.bit_torrent@ + h.reserved@ + h.info_hash@ + h.peer_id@
}

/// The 68 bytes this side sends for `info_hash`: protocol-name length 19,
/// the protocol name, 8 zero reserved bytes, the info hash, and the fixed
/// local peer identifier.
pub open spec fn spec_local_handshake(info_hash: [u8; 20]) -> Seq<u8> {
    seq![19u8] + spec_protocol_name() + seq![0u8, 0, 0, 0, 0, 0, 0, 0] + info_hash@
        + spec_default_peer_id()
}

/// The fixed 68-byte exchange that precedes the framed stream: a 1-byte
/// protocol-name length, the 19-byte protocol name, 8 reserved bytes, the
/// 20-byte info hash, and the 20-byte peer id.
#[derive(Debug, Clone, Copy)]
pub struct Handshake {
    pub length: u8,
    pub bit_torrent: [u8; 19],
    pub reserved: [u8; 8],
    pub info_hash: [u8; 20],
    pub peer_id: [u8; 20],
}

impl Handshake {
    /// The fixed wire size of a handshake, in bytes.
    pub const SIZE: usize = 68;

    /// A handshake for `info_hash` under the fixed local peer identifier.
    pub fn new(info_hash: [u8; 20]) -> (r: Handshake)
        ensures
            r.length == 19,
            r.bit_torrent@ == spec_protocol_name(),
            r.reserved@ == seq![0u8, 0, 0, 0, 0, 0, 0, 0],
            r.info_hash == info_hash,
            r.peer_id@ == spec_default_peer_id(),
    {
        let mut name: [u8; 19] = [0u8; 19];
        name[0] = 66;
        name[1] = 105;
        name[2] = 116;
        name[3] = 84;
        name[4] = 111;
        name[5] = 114;
        name[6] = 114;
        name[7] = 101;
        name[8] = 110;
        name[9] = 116;
        name[10] = 32;
        name[11] = 112;
        name[12] = 114;
        name[13] = 111;
        name[14] = 116;
        name[15] = 111;
        name[16] = 99;
        name[17] = 111;
        name[18] = 108;
        let mut id: [u8; 20] = [0u8; 20];
        id[0] = 48;
        id[1] = 48;
        id[2] = 49;
        id[3] = 49;
        id[4] = 50;
        id[5] = 50;
        id[6] = 51;
        id[7] = 51;
        id[8] = 52;
        id[9] = 52;
        id[10] = 53;
        id[11] = 53;
        id[12] = 54;
        id[13] = 54;
        id[14] = 55;
        id[15] = 55;
        id[16] = 56;
        id[17] = 56;
        id[18] = 57;
        id[19] = 48;
        let reserved: [u8; 8] = [0u8; 8];
        proof {
            assert(name@ =~= spec_protocol_name());
            assert(id@ =~= spec_default_peer_id());
            assert(reserved@ =~= seq![0u8, 0, 0, 0, 0, 0, 0, 0]);
        }
        Handshake { length: 19, bit_torrent: name, reserved, info_hash, peer_id: id }
    }

    /// The 68 bytes both sides send before reading the other's handshake.
    pub fn to_bytes(&self) -> (r: Vec<u8>)
        ensures
            r@ == spec_handshake_bytes(*self),
            r@.len() == 68,
    {
        let mut out: Vec<u8> = Vec::new();
        out.push(self.length);
        push_all(&mut out, self.bit_torrent.as_slice());
        push_all(&mut out, self.reserved.as_slice());
        push_all(&mut out, self.info_hash.as_slice());
        push_all(&mut out, self.peer_id.as_slice());
        proof {
            assert(out@ =~= spec_handshake_bytes(*self));
        }
        out
    }

    /// Parses a handshake response. A response whose length is not exactly
    /// 68 bytes is a fatal handshake error for that peer.
    pub fn from_bytes(bytes: &[u8]) -> (r: Result<Handshake, PeerError>)
        ensures
            bytes@.len() == 68 <==> r is Ok,
            r matches Ok(h) ==> {
                &&& h.length == bytes@[0]
                &&& h.bit_torrent@ == bytes@.subrange(1, 20)
                &&& h.reserved@ == bytes@.subrange(20, 28)
                &&& h.info_hash@ == bytes@.subrange(28, 48)
                &&& h.peer_id@ == bytes@.subrange(48, 68)
            },
            r matches Err(e) ==> e == PeerError::Handshake,
    {
        if bytes.len() != 68 {
            return Err(PeerError::Handshake);
        }
        let mut bit_torrent: [u8; 19] = [0u8; 19];
        fill_from(&mut bit_torrent, bytes, 1, 19);
        let mut reserved: [u8; 8] = [0u8; 8];
        fill_from(&mut reserved, bytes, 20, 8);
        let mut info_hash: [u8; 20] = [0u8; 20];
        fill_from(&mut info_hash, bytes, 28, 20);
        let mut peer_id: [u8; 20] = [0u8; 20];
        fill_from(&mut peer_id, bytes, 48, 20);
        Ok(Handshake { length: bytes[0], bit_torrent, reserved, info_hash, peer_id })
    }
}

/// Appends all of `src` to `dst`.
fn push_all(dst: &mut Vec<u8>, src: &[u8])
    ensures
        final(dst)@ == old(dst)@ + src@,
{
    let mut i: usize = 0;
    while i < src.len()
        invariant
            i <= src@.len(),
            dst@ == old(dst)@ + src@.take(i as int),
        decreases src@.len() - i,
    {
        dst.push(src[i]);
        assert(src@.take(i + 1) =~= src@.take(i as int).push(src@[i as int]));
        i = i + 1;
    }
    assert(old(dst)@ + src@.take(src@.len() as int) =~= old(dst)@ + src@);
}

/// Overwrites the first `count` cells of `dst` with
/// `src[start..start + count]`.
fn fill_from<const N: usize>(dst: &mut [u8; N], src: &[u8], start: usize, count: usize)
    requires
        count == N,
        start + count <= src@.len(),
    ensures
        final(dst)@ == src@.subrange(start as int, start + count),
{
    let src_len = src.len();
    assert(src_len <= usize::MAX);
    let mut i: usize = 0;
    while i < count
        invariant
            count == N,
            i <= count,
            start + count <= src@.len(),
            src@.len() <= usize::MAX,
            forall|t: int| 0 <= t < i ==> dst@[t] == src@[start + t],
        decreases count - i,
    {
        dst[i] = src[start + i];
        i = i + 1;
    }
    assert(dst@ =~= src@.subrange(start as int, start + count));
}

// ---------------------------------------------------------------------------
// Block requests and block responses
// ---------------------------------------------------------------------------
/// The 12-byte payload of a Request message: piece index, byte offset
/// within the piece, and block length, each big-endian.
pub open spec fn spec_request_payload(index: u32, begin: u32, length: u32) -> Seq<u8> {
    spec_be32(index) + spec_be32(begin) + spec_be32(length)
}

/// One block request: index, begin and length as big-endian bytes.
#[derive(Debug, Clone, Copy)]
pub struct PeerRequest {
    index: [u8; 4],
    begin: [u8; 4],
    length: [u8; 4],
}

impl View for PeerRequest {
    type V = Seq<u8>;

    closed spec fn view(&self) -> Seq<u8> {
        self.index@ + self.begin@ + self.length@
    }
}

impl PeerRequest {
    pub fn new(index: u32, begin: u32, length: u32) -> (r: PeerRequest)
        ensures
            r@ == spec_request_payload(index, begin, length),
            spec_from_be32(r@.subrange(0, 4)) == index,
            spec_from_be32(r@.subrange(4, 8)) == begin,
            spec_from_be32(r@.subrange(8, 12)) == length,
    {
        let r = PeerRequest {
            index: u32_to_be(index),
            begin: u32_to_be(begin),
            length: u32_to_be(length),
        };
        proof {
            assert(r@.subrange(0, 4) =~= spec_be32(index));
            assert(r@.subrange(4, 8) =~= spec_be32(begin));
            assert(r@.subrange(8, 12) =~= spec_be32(length));
            lemma_be32_round_trip(index);
            lemma_be32_round_trip(begin);
            lemma_be32_round_trip(length);
        }
        r
    }

    pub fn index(&self) -> (r: u32)
        ensures
            r == spec_from_be32(self@.subrange(0, 4)),
    {
        let r = u32_from_be(self.index[0], self.index[1], self.index[2], self.index[3]);
        proof {
            assert(self@.subrange(0, 4) =~= seq![
                self.index@[0],
                self.index@[1],
                self.index@[2],
                self.index@[3],
            ]);
        }
        r
    }

    pub fn begin(&self) -> (r: u32)
        ensures
            r == spec_from_be32(self@.subrange(4, 8)),
    {
        let r = u32_from_be(self.begin[0], self.begin[1], self.begin[2], self.begin[3]);
        proof {
            assert(self@.subrange(4, 8) =~= seq![
                self.begin@[0],
                self.begin@[1],
                self.begin@[2],
                self.begin@[3],
            ]);
        }
        r
    }

    pub fn length(&self) -> (r: u32)
        ensures
            r == spec_from_be32(self@.subrange(8, 12)),
    {
        let r = u32_from_be(self.length[0], self.length[1], self.length[2], self.length[3]);
        proof {
            assert(self@.subrange(8, 12) =~= seq![
                self.length@[0],
                self.length@[1],
                self.length@[2],
                self.length@[3],
            ]);
        }
        r
    }

    /// The 12 payload bytes of this request.
    pub fn to_bytes(&self) -> (r: Vec<u8>)
        ensures
            r@ == self@,
    {
        let mut out: Vec<u8> = Vec::new();
        push_all(&mut out, self.index.as_slice());
        push_all(&mut out, self.begin.as_slice());
        push_all(&mut out, self.length.as_slice());
        out
    }
}

/// One block response: the piece index and byte offset it answers, and the
/// block bytes, decoded field by field from a Piece message payload.
#[derive(Debug, Clone)]
pub struct PieceMessage {
    index: [u8; 4],
    begin: [u8; 4],
    block: Vec<u8>,
}

impl PieceMessage {
    /// Decodes a Piece message payload: 4 index bytes, 4 begin bytes, then
    /// the block. Payloads shorter than 8 bytes are rejected.
    pub fn from_bytes(bytes: &[u8]) -> (r: Option<PieceMessage>)
        ensures
            bytes@.len() >= 8 <==> r is Some,
            r matches Some(p) ==> {
                &&& p.spec_index() == bytes@.subrange(0, 4)
                &&& p.spec_begin() == bytes@.subrange(4, 8)
                &&& p.spec_block() == bytes@.skip(8)
            },
    {
        if bytes.len() < 8 {
            return None;
        }
        let mut index: [u8; 4] = [0u8; 4];
        fill_from(&mut index, bytes, 0, 4);
        let mut begin: [u8; 4] = [0u8; 4];
        fill_from(&mut begin, bytes, 4, 4);
        let mut block: Vec<u8> = Vec::new();
        let mut i: usize = 8;
        while i < bytes.len()
            invariant
                8 <= i <= bytes@.len(),
                block@ == bytes@.subrange(8, i as int),
            decreases bytes@.len() - i,
        {
            block.push(bytes[i]);
            assert(bytes@.subrange(8, i + 1) =~= bytes@.subrange(8, i as int).push(
                bytes@[i as int],
            ));
            i = i + 1;
        }
        assert(block@ =~= bytes@.skip(8));
        Some(PieceMessage { index, begin, block })
    }

    pub fn index(&self) -> (r: u32)
        ensures
            r == spec_from_be32(self.spec_index()),
    {
        let r = u32_from_be(self.index[0], self.index[1], self.index[2], self.index[3]);
        proof {
            assert(self.index@ =~= seq![
                self.index@[0],
                self.index@[1],
                self.index@[2],
                self.index@[3],
            ]);
        }
        r
    }

    pub fn begin(&self) -> (r: u32)
        ensures
            r == spec_from_be32(self.spec_begin()),
    {
        let r = u32_from_be(self.begin[0], self.begin[1], self.begin[2], self.begin[3]);
        proof {
            assert(self.begin@ =~= seq![
                self.begin@[0],
                self.begin@[1],
                self.begin@[2],
                self.begin@[3],
            ]);
        }
        r
    }

    /// The block bytes carried by this response.
    pub fn block(&self) -> (r: &Vec<u8>)
        ensures
            r@ == self.spec_block(),
    {
        &self.block
    }

    /// The index bytes of this response.
    pub closed spec fn spec_index(&self) -> Seq<u8> {
        self.index@
    }

    /// The begin bytes of this response.
    pub closed spec fn spec_begin(&self) -> Seq<u8> {
        self.begin@
    }

    /// The block bytes of this response.
    pub closed spec fn spec_block(&self) -> Seq<u8> {
        self.block@
    }
}

// ---------------------------------------------------------------------------
// Peer connection state machine
// ---------------------------------------------------------------------------
/// Lifecycle of one live link to a remote peer: connect the transport, send
/// the handshake, read the peer's handshake, read the mandatory first
/// Bitfield message, send Interested, read the mandatory Unchoke.
#[derive(Debug, Clone, Copy, PartialEq, Eq, Structural)]
pub enum PeerState {
    Connecting,
    Handshaking,
    AwaitingBitfield,
    InterestedChoked,
    Unchoked,
}

/// The protocol decisions of one peer connection: which bytes to send next
/// and how each incoming handshake or message moves the state. The caller
/// owns the transport and feeds events in; any error drops the peer.
#[derive(Debug)]
pub struct PeerConnection {
    pub state: PeerState,
    pub bitfield: Bitfield,
}

impl PeerConnection {
    /// A connection that has just opened its transport.
    pub fn new() -> (r: PeerConnection)
        ensures
            r.state == PeerState::Connecting,
            r.bitfield@ == Seq::<u8>::empty(),
    {
        let empty: [u8; 0] = [0u8; 0];
        let bf = Bitfield::from_bytes(empty.as_slice());
        proof {
            assert(empty@ =~= Seq::<u8>::empty());
        }
        PeerConnection { state: PeerState::Connecting, bitfield: bf }
    }

    /// The 68 handshake bytes to send first; the connection then waits for
    /// the peer's handshake.
    pub fn start_handshake(&mut self, info_hash: [u8; 20]) -> (r: Vec<u8>)
        requires
            old(self).state == PeerState::Connecting,
        ensures
            final(self).state == PeerState::Handshaking,
            final(self).bitfield@ == old(self).bitfield@,
            r@ == spec_local_handshake(info_hash),
            r@.len() == 68,
    {
        let hs = Handshake::new(info_hash);
        self.state = PeerState::Handshaking;
        let r = hs.to_bytes();
        proof {
            assert(spec_handshake_bytes(hs) =~= spec_local_handshake(info_hash));
        }
        r
    }

    /// Takes the peer's handshake response. Exactly 68 bytes advance the
    /// connection; any other length is a fatal handshake error.
    pub fn on_handshake(&mut self, bytes: &[u8]) -> (r: Result<Handshake, PeerError>)
        requires
            old(self).state == PeerState::Handshaking,
        ensures
            bytes@.len() == 68 <==> r is Ok,
            r is Ok ==> final(self).state == PeerState::AwaitingBitfield,
            r matches Err(e) ==> e == PeerError::Handshake && *final(self) == *old(self),
            final(self).bitfield@ == old(self).bitfield@,
    {
        match Handshake::from_bytes(bytes) {
            Ok(h) => {
                self.state = PeerState::AwaitingBitfield;
                Ok(h)
            },
            Err(e) => Err(e),
        }
    }

    /// Takes the first framed message, which must be a Bitfield: the peer's
    /// piece inventory replaces the empty one and the Interested message to
    /// send back is returned. Any other tag is a fatal protocol error.
    pub fn on_first_message(&mut self, msg: &Message) -> (r: Result<Message, PeerError>)
        requires
            old(self).state == PeerState::AwaitingBitfield,
        ensures
            msg.tag == MessageTag::Bitfield <==> r is Ok,
            r matches Ok(reply) ==> {
                &&& final(self).state == PeerState::InterestedChoked
                &&& final(self).bitfield@ == msg.payload@
                &&& reply.tag == MessageTag::Interested
                &&& reply.payload@ == Seq::<u8>::empty()
            },
            r matches Err(e) ==> e == PeerError::Protocol(ProtocolError::UnexpectedMessage)
                && *final(self) == *old(self),
    {
        if !matches!(msg.tag, MessageTag::Bitfield) {
            return Err(PeerError::Protocol(ProtocolError::UnexpectedMessage));
        }
        self.bitfield = Bitfield::from_bytes(msg.payload.as_slice());
        self.state = PeerState::InterestedChoked;
        Ok(Message { tag: MessageTag::Interested, payload: Vec::new() })
    }

    /// Takes the second framed message, which must be an Unchoke; the
    /// connection is then ready to request blocks. Choke or anything else
    /// aborts the connection, with no retry at this layer.
    pub fn on_second_message(&mut self, msg: &Message) -> (r: Result<(), PeerError>)
        requires
            old(self).state == PeerState::InterestedChoked,
        ensures
            msg.tag == MessageTag::UnChoke <==> r is Ok,
            r is Ok ==> final(self).state == PeerState::Unchoked,
            r matches Err(e) ==> e == PeerError::Protocol(ProtocolError::UnexpectedMessage)
                && *final(self) == *old(self),
            final(self).bitfield@ == old(self).bitfield@,
    {
        if !matches!(msg.tag, MessageTag::UnChoke) {
            return Err(PeerError::Protocol(ProtocolError::UnexpectedMessage));
        }
        self.state = PeerState::Unchoked;
        Ok(())
    }

    /// Whether this peer advertised piece `piece_i`; false at or beyond the
    /// bitfield's capacity.
    pub fn has_piece(&self, piece_i: u32) -> (r: bool)
        ensures
            r == spec_has_piece(self.bitfield@, piece_i as nat),
    {
        self.bitfield.has_piece(piece_i)
    }

    /// The Request message asking for block `block_i` of piece `piece_i`,
    /// `block_size` bytes at offset `block_i * BLOCK_MAX`.
    pub fn request_message(piece_i: u32, block_i: u32, block_size: u32) -> (r: Message)
        requires
            block_i * crate::BLOCK_MAX <= u32::MAX,
            block_size <= crate::BLOCK_MAX,
        ensures
            r.tag == MessageTag::Request,
            r.payload@ == spec_request_payload(
                piece_i,
                (block_i * crate::BLOCK_MAX) as u32,
                block_size,
            ),
    {
        let begin = block_i * crate::BLOCK_MAX;
        let request = PeerRequest::new(piece_i, begin, block_size);
        Message { tag: MessageTag::Request, payload: request.to_bytes() }
    }

    /// Validates one block response against the request it answers: the
    /// message must be a Piece, its payload non-empty, and its index, offset
    /// and block length must equal the requested ones; the block bytes are
    /// returned. Any mismatch is a fatal protocol error for this peer.
    pub fn validate_block(piece_i: u32, block_i: u32, block_size: u32, msg: &Message) -> (r: Result<
        Vec<u8>,
        PeerError,
    >)
        requires
            block_i * crate::BLOCK_MAX <= u32::MAX,
        ensures
            !(msg.tag == MessageTag::Piece) ==> r == Err::<Vec<u8>, PeerError>(
                PeerError::Protocol(ProtocolError::UnexpectedMessage),
            ),
            msg.tag == MessageTag::Piece && msg.payload@.len() == 0 ==> r == Err::<
                Vec<u8>,
                PeerError,
            >(PeerError::Protocol(ProtocolError::EmptyPayload)),
            msg.tag == MessageTag::Piece && msg.payload@.len() > 0 ==> {
                let good = {
                    &&& msg.payload@.len() >= 8
                    &&& spec_from_be32(msg.payload@.subrange(0, 4)) == piece_i
                    &&& spec_from_be32(msg.payload@.subrange(4, 8)) == block_i * crate::BLOCK_MAX
                    &&& msg.payload@.len() - 8 == block_size
                };
                if good {
                    r matches Ok(block) && block@ == msg.payload@.skip(8)
                } else {
                    r == Err::<Vec<u8>, PeerError>(
                        PeerError::Protocol(ProtocolError::MismatchedResponse),
                    )
                }
            },
    {
        if !matches!(msg.tag, MessageTag::Piece) {
            return Err(PeerError::Protocol(ProtocolError::UnexpectedMessage));
        }
        if msg.payload.len() == 0 {
            return Err(PeerError::Protocol(ProtocolError::EmptyPayload));
        }
        let piece = match PieceMessage::from_bytes(msg.payload.as_slice()) {
            Some(p) => p,
            None => {
                return Err(PeerError::Protocol(ProtocolError::MismatchedResponse));
            },
        };
        let begin = block_i * crate::BLOCK_MAX;
        if piece.index() != piece_i || piece.begin() != begin {
            return Err(PeerError::Protocol(ProtocolError::MismatchedResponse));
        }
        let block = piece.block();
        if block.len() != block_size as usize {
            return Err(PeerError::Protocol(ProtocolError::MismatchedResponse));
        }
        let mut out: Vec<u8> = Vec::new();
        push_all(&mut out, block.as_slice());
        proof {
            assert(Seq::<u8>::empty() + piece.spec_block() =~= piece.spec_block());
        }
        Ok(out)
    }
}

// ---------------------------------------------------------------------------
// Stream reassembly: decoding a chunked frame stream
// ---------------------------------------------------------------------------
/// Every message in the sequence fits under the maximum frame size.
pub open spec fn all_frames_valid(msgs: Seq<(MessageTag, Seq<u8>)>) -> bool {
    forall|i: int| 0 <= i < msgs.len() ==> valid_frame(#[trigger] msgs[i].1)
}

/// The concatenated framed encoding of a message sequence.
pub open spec fn spec_encode_all(msgs: Seq<(MessageTag, Seq<u8>)>) -> Seq<u8>
    decreases msgs.len(),
{
    if msgs.len() == 0 {
        Seq::empty()
    } else {
        spec_encode_message(msgs[0].0, msgs[0].1) + spec_encode_all(msgs.skip(1))
    }
}

/// The concatenation of a sequence of received byte chunks.
pub open spec fn spec_concat_chunks(chunks: Seq<Seq<u8>>) -> Seq<u8>
    decreases chunks.len(),
{
    if chunks.len() == 0 {
        Seq::empty()
    } else {
        spec_concat_chunks(chunks.drop_last()) + chunks.last()
    }
}

/// Repeatedly decodes complete frames out of a buffer: the messages decoded
/// in order, and the leftover bytes of the trailing incomplete frame.
pub open spec fn spec_drain(b: Seq<u8>) -> (Seq<(MessageTag, Seq<u8>)>, Seq<u8>)
    decreases b.len(),
{
    let k = spec_skip_keepalives(b);
    if k <= b.len() {
        let rest = b.skip(k as int);
        match spec_frame(rest) {
            FrameStep::Frame { tag, payload, used } => {
                if 0 < used <= rest.len() {
                    let r = spec_drain(rest.skip(used as int));
                    (seq![(tag, payload)] + r.0, r.1)
                } else {
                    (Seq::<(MessageTag, Seq<u8>)>::empty(), rest)
                }
            },
            _ => (Seq::<(MessageTag, Seq<u8>)>::empty(), rest),
        }
    } else {
        (Seq::<(MessageTag, Seq<u8>)>::empty(), b)
    }
}

/// Feeding a sequence of chunks through the decoder: each chunk is appended
/// to the leftover bytes of the previous step and all complete frames are
/// drained.
pub open spec fn spec_feed(chunks: Seq<Seq<u8>>) -> (Seq<(MessageTag, Seq<u8>)>, Seq<u8>)
    decreases chunks.len(),
{
    if chunks.len() == 0 {
        (Seq::<(MessageTag, Seq<u8>)>::empty(), Seq::<u8>::empty())
    } else {
        let prev = spec_feed(chunks.drop_last());
        let d = spec_drain(prev.1 + chunks.last());
        (prev.0 + d.0, d.1)
    }
}

/// A buffer that starts with one complete encoded frame decodes to exactly
/// that frame, whatever follows it.
pub proof fn lemma_frame_of_encoded(tag: MessageTag, payload: Seq<u8>, rest: Seq<u8>)
    requires
        valid_frame(payload),
    ensures
        ({
            let b = spec_encode_message(tag, payload) + rest;
            &&& spec_skip_keepalives(b) == 0
            &&& spec_frame(b) == (FrameStep::Frame {
                tag,
                payload,
                used: (5 + payload.len()) as nat,
            })
        }),
{
    let n = (payload.len() + 1) as u32;
    let b = spec_encode_message(tag, payload) + rest;
    lemma_be32_round_trip(n);
    assert(b.take(4) =~= spec_be32(n));
    assert(spec_from_be32(b.take(4)) == n);
    assert(n != 0);
    assert(spec_skip_keepalives(b) == 0);
    assert(b.len() >= 5 + payload.len());
    assert(b[4] == spec_tag_byte(tag));
    assert(spec_tag_byte(tag) <= 8);
    assert(spec_tag_of_byte(spec_tag_byte(tag)) == tag);
    assert(b.subrange(5, 4 + (n as int)) =~= payload);
}

/// A strict prefix of one encoded frame asks for more bytes: it is neither
/// an error nor a message.
pub proof fn lemma_prefix_needs_more(tag: MessageTag, payload: Seq<u8>, p: Seq<u8>)
    requires
        valid_frame(payload),
        p.len() < spec_encode_message(tag, payload).len(),
        p == spec_encode_message(tag, payload).take(p.len() as int),
    ensures
        spec_skip_keepalives(p) == 0,
        spec_frame(p) == FrameStep::NeedMore,
{
    let e = spec_encode_message(tag, payload);
    let n = (payload.len() + 1) as u32;
    if p.len() >= 4 {
        lemma_be32_round_trip(n);
        assert(p.take(4) =~= spec_be32(n));
        assert(spec_from_be32(p.take(4)) == n);
        assert(n != 0);
        assert(e.len() == 5 + payload.len());
        assert(p.len() < 4 + (n as int));
    }
}

/// The encoding of a message sequence splits at any message boundary.
pub proof fn lemma_encode_all_split(msgs: Seq<(MessageTag, Seq<u8>)>, k: int)
    requires
        0 <= k <= msgs.len(),
    ensures
        spec_encode_all(msgs) == spec_encode_all(msgs.take(k)) + spec_encode_all(msgs.skip(k)),
    decreases k,
{
    if k == 0 {
        assert(msgs.take(0) =~= Seq::<(MessageTag, Seq<u8>)>::empty());
        assert(msgs.skip(0) =~= msgs);
        assert(spec_encode_all(msgs.take(0)) + spec_encode_all(msgs) =~= spec_encode_all(msgs));
    } else {
        lemma_encode_all_split(msgs.skip(1), k - 1);
        assert(msgs.skip(1).take(k - 1) =~= msgs.take(k).skip(1));
        assert(msgs.skip(1).skip(k - 1) =~= msgs.skip(k));
        assert(msgs.take(k)[0] == msgs[0]);
        let e0 = spec_encode_message(msgs[0].0, msgs[0].1);
        assert(spec_encode_all(msgs.take(k)) == e0 + spec_encode_all(msgs.take(k).skip(1)));
        assert(e0 + (spec_encode_all(msgs.take(k).skip(1)) + spec_encode_all(msgs.skip(k))) =~= (e0
            + spec_encode_all(msgs.take(k).skip(1))) + spec_encode_all(msgs.skip(k)));
    }
}

/// What draining a prefix of an encoded stream yields: the first `k` whole
/// messages, and a leftover that is a strict prefix of the next frame.
pub open spec fn drain_prefix_shape(
    msgs: Seq<(MessageTag, Seq<u8>)>,
    p: Seq<u8>,
    k: int,
) -> bool {
    &&& 0 <= k <= msgs.len()
    &&& spec_drain(p).0 == msgs.take(k)
    &&& spec_encode_all(msgs.take(k)) + spec_drain(p).1 == p
    &&& (k < msgs.len() ==> spec_drain(p).1.len() < spec_encode_message(
        msgs[k].0,
        msgs[k].1,
    ).len())
    &&& (k == msgs.len() ==> spec_drain(p).1.len() == 0)
}

/// A buffer on which one decode attempt asks for more bytes drains to no
/// messages and keeps all its bytes.
pub proof fn lemma_drain_when_needmore(p: Seq<u8>)
    requires
        spec_skip_keepalives(p) == 0,
        spec_frame(p) == FrameStep::NeedMore,
    ensures
        spec_drain(p) == (Seq::<(MessageTag, Seq<u8>)>::empty(), p),
{
    assert(p.skip(0) =~= p);
}

/// Draining a buffer that starts with one complete encoded frame yields that
/// frame followed by whatever the remaining bytes drain to.
#[verifier::rlimit(100)]
pub proof fn lemma_drain_step(tag: MessageTag, payload: Seq<u8>, rest: Seq<u8>)
    requires
        valid_frame(payload),
    ensures
        ({
            let b = spec_encode_message(tag, payload) + rest;
            &&& spec_drain(b).0 == seq![(tag, payload)] + spec_drain(rest).0
            &&& spec_drain(b).1 == spec_drain(rest).1
        }),
{
    let b = spec_encode_message(tag, payload) + rest;
    lemma_frame_of_encoded(tag, payload, rest);
    let used = (5 + payload.len()) as nat;
    assert(spec_skip_keepalives(b) == 0);
    assert(b.skip(0) =~= b);
    assert(spec_frame(b) == (FrameStep::Frame { tag, payload, used }));
    assert(0 < used <= b.len());
    assert(b.skip(used as int) =~= rest);
    assert(spec_drain(b).0 == seq![(tag, payload)] + spec_drain(rest).0);
    assert(spec_drain(b).1 == spec_drain(rest).1);
}

/// Draining any prefix of a valid encoded stream yields exactly the whole
/// frames the prefix covers, in order, and keeps the trailing partial frame.
#[verifier::rlimit(100)]
pub proof fn lemma_drain_of_prefix(msgs: Seq<(MessageTag, Seq<u8>)>, p: Seq<u8>)
    requires
        all_frames_valid(msgs),
        p.len() <= spec_encode_all(msgs).len(),
        p == spec_encode_all(msgs).take(p.len() as int),
    ensures
        exists|k: int| drain_prefix_shape(msgs, p, k),
    decreases msgs.len(),
{
    if msgs.len() == 0 {
        assert(p =~= Seq::<u8>::empty());
        assert(spec_skip_keepalives(p) == 0);
        assert(spec_frame(p) == FrameStep::NeedMore);
        lemma_drain_when_needmore(p);
        assert(msgs.take(0) =~= Seq::<(MessageTag, Seq<u8>)>::empty());
        assert(spec_encode_all(msgs.take(0)) + p =~= p);
        assert(drain_prefix_shape(msgs, p, 0));
    } else {
        let e0 = spec_encode_message(msgs[0].0, msgs[0].1);
        assert(valid_frame(msgs[0].1));
        assert(spec_encode_all(msgs) == e0 + spec_encode_all(msgs.skip(1)));
        assert(e0.len() == 5 + msgs[0].1.len());
        if p.len() < e0.len() {
            assert(p == e0.take(p.len() as int)) by {
                assert(p =~= e0.take(p.len() as int));
            }
            lemma_prefix_needs_more(msgs[0].0, msgs[0].1, p);
            lemma_drain_when_needmore(p);
            assert(msgs.take(0) =~= Seq::<(MessageTag, Seq<u8>)>::empty());
            assert(spec_encode_all(msgs.take(0)) + p =~= p);
            assert(drain_prefix_shape(msgs, p, 0));
        } else {
            let pr = p.skip(e0.len() as int);
            assert(p =~= e0 + pr);
            lemma_drain_step(msgs[0].0, msgs[0].1, pr);
            assert(spec_drain(p).0 == seq![(msgs[0].0, msgs[0].1)] + spec_drain(pr).0);
            assert(spec_drain(p).1 == spec_drain(pr).1);
            assert(all_frames_valid(msgs.skip(1))) by {
                assert(forall|i: int|
                    0 <= i < msgs.skip(1).len() ==> #[trigger] msgs.skip(1)[i] == msgs[i + 1]);
            }
            assert(pr.len() <= spec_encode_all(msgs.skip(1)).len());
            assert forall|i: int|
                0 <= i < pr.len() implies pr[i] == spec_encode_all(msgs.skip(1))[i] by {
                assert((e0 + pr)[e0.len() + i] == pr[i]);
                assert((e0 + spec_encode_all(msgs.skip(1)))[e0.len() + i] == spec_encode_all(
                    msgs.skip(1),
                )[i]);
            }
            assert(pr =~= spec_encode_all(msgs.skip(1)).take(pr.len() as int));
            lemma_drain_of_prefix(msgs.skip(1), pr);
            let k1 = choose|k1: int| drain_prefix_shape(msgs.skip(1), pr, k1);
            assert(drain_prefix_shape(msgs, p, k1 + 1)) by {
                assert(msgs.take(k1 + 1) =~= seq![(msgs[0].0, msgs[0].1)] + msgs.skip(1).take(k1));
                assert(spec_drain(p).0 =~= msgs.take(k1 + 1));
                assert(msgs.take(k1 + 1)[0] == msgs[0]);
                assert(msgs.take(k1 + 1).skip(1) =~= msgs.skip(1).take(k1));
                assert(spec_encode_all(msgs.take(k1 + 1)) == e0 + spec_encode_all(
                    msgs.skip(1).take(k1),
                ));
                assert(spec_encode_all(msgs.take(k1 + 1)) + spec_drain(p).1 =~= e0 + (
                spec_encode_all(msgs.skip(1).take(k1)) + spec_drain(pr).1));
                assert(e0 + (spec_encode_all(msgs.skip(1).take(k1)) + spec_drain(pr).1) =~= p);
                if k1 + 1 < msgs.len() {
                    assert(msgs.skip(1)[k1] == msgs[k1 + 1]);
                }
            }
        }
    }
}

/// What feeding a chunked prefix of an encoded stream yields.
pub open spec fn feed_prefix_shape(
    msgs: Seq<(MessageTag, Seq<u8>)>,
    chunks: Seq<Seq<u8>>,
    k: int,
) -> bool {
    &&& 0 <= k <= msgs.len()
    &&& spec_feed(chunks).0 == msgs.take(k)
    &&& spec_encode_all(msgs.take(k)) + spec_feed(chunks).1 == spec_concat_chunks(chunks)
    &&& (k < msgs.len() ==> spec_feed(chunks).1.len() < spec_encode_message(
        msgs[k].0,
        msgs[k].1,
    ).len())
    &&& (k == msgs.len() ==> spec_feed(chunks).1.len() == 0)
}

/// Feeding chunks that form a prefix of a valid encoded stream yields the
/// whole frames covered so far, in order, whatever the chunk boundaries.
#[verifier::rlimit(100)]
pub proof fn lemma_feed_of_prefix(msgs: Seq<(MessageTag, Seq<u8>)>, chunks: Seq<Seq<u8>>)
    requires
        all_frames_valid(msgs),
        spec_concat_chunks(chunks).len() <= spec_encode_all(msgs).len(),
        spec_concat_chunks(chunks) == spec_encode_all(msgs).take(
            spec_concat_chunks(chunks).len() as int,
        ),
    ensures
        exists|k: int| feed_prefix_shape(msgs, chunks, k),
    decreases chunks.len(),
{
    if chunks.len() == 0 {
        assert(spec_feed(chunks).0 =~= msgs.take(0));
        assert(spec_encode_all(msgs.take(0)) + spec_feed(chunks).1 =~= spec_concat_chunks(chunks));
        if 0 < msgs.len() {
            assert(spec_encode_message(msgs[0].0, msgs[0].1).len() == 5 + msgs[0].1.len());
        }
        assert(feed_prefix_shape(msgs, chunks, 0));
    } else {
        let front = chunks.drop_last();
        let last = chunks.last();
        let total = spec_concat_chunks(chunks);
        assert(total == spec_concat_chunks(front) + last);
        assert(spec_concat_chunks(front).len() <= total.len());
        assert(spec_concat_chunks(front) =~= spec_encode_all(msgs).take(
            spec_concat_chunks(front).len() as int,
        ));
        lemma_feed_of_prefix(msgs, front);
        let k0 = choose|k0: int| feed_prefix_shape(msgs, front, k0);
        let leftover = spec_feed(front).1;
        let buf = leftover + last;
        let ek0 = spec_encode_all(msgs.take(k0));
        lemma_encode_all_split(msgs, k0);
        // buf is a prefix of the encoding of the remaining messages
        assert(ek0 + buf =~= total);
        assert(ek0 =~= spec_encode_all(msgs).take(ek0.len() as int)) by {
            assert(spec_encode_all(msgs) == ek0 + spec_encode_all(msgs.skip(k0)));
        }
        assert(buf.len() <= spec_encode_all(msgs.skip(k0)).len());
        assert forall|i: int| 0 <= i < buf.len() implies buf[i] == spec_encode_all(msgs.skip(k0))[i] by {
            assert((ek0 + buf)[ek0.len() + i] == buf[i]);
            assert(total[ek0.len() + i] == spec_encode_all(msgs)[ek0.len() + i]);
            assert((ek0 + spec_encode_all(msgs.skip(k0)))[ek0.len() + i] == spec_encode_all(
                msgs.skip(k0),
            )[i]);
        }
        assert(buf =~= spec_encode_all(msgs.skip(k0)).take(buf.len() as int));
        assert(all_frames_valid(msgs.skip(k0))) by {
            assert(forall|i: int|
                0 <= i < msgs.skip(k0).len() ==> #[trigger] msgs.skip(k0)[i] == msgs[i + k0]);
        }
        lemma_drain_of_prefix(msgs.skip(k0), buf);
        let k1 = choose|k1: int| drain_prefix_shape(msgs.skip(k0), buf, k1);
        let k = k0 + k1;
        assert(spec_feed(chunks).0 == msgs.take(k0) + spec_drain(buf).0);
        assert(spec_drain(buf).0 == msgs.skip(k0).take(k1));
        assert(msgs.take(k) =~= msgs.take(k0) + msgs.skip(k0).take(k1));
        assert(spec_feed(chunks).0 =~= msgs.take(k));
        // split the encoding of the first k messages at k0
        lemma_encode_all_split(msgs.take(k), k0);
        assert(msgs.take(k).take(k0) =~= msgs.take(k0));
        assert(msgs.take(k).skip(k0) =~= msgs.skip(k0).take(k1));
        assert(spec_encode_all(msgs.take(k)) == ek0 + spec_encode_all(msgs.skip(k0).take(k1)));
        assert(spec_encode_all(msgs.skip(k0).take(k1)) + spec_drain(buf).1 == buf);
        assert(spec_encode_all(msgs.take(k)) + spec_feed(chunks).1 =~= ek0 + (spec_encode_all(
            msgs.skip(k0).take(k1),
        ) + spec_drain(buf).1));
        assert(ek0 + buf =~= spec_concat_chunks(chunks));
        if k < msgs.len() {
            assert(msgs.skip(k0)[k1] == msgs[k]);
        }
        assert(feed_prefix_shape(msgs, chunks, k));
    }
}

/// Feeding any valid encoded frame sequence through the decoder across
/// arbitrary chunk boundaries — one byte at a time included — yields exactly
/// the original message sequence in order, with no bytes left over.
pub proof fn lemma_incremental_decode(msgs: Seq<(MessageTag, Seq<u8>)>, chunks: Seq<Seq<u8>>)
    requires
        all_frames_valid(msgs),
        spec_concat_chunks(chunks) == spec_encode_all(msgs),
    ensures
        spec_feed(chunks).0 == msgs,
        spec_feed(chunks).1 == Seq::<u8>::empty(),
{
    let total = spec_concat_chunks(chunks);
    assert(total =~= spec_encode_all(msgs).take(total.len() as int));
    lemma_feed_of_prefix(msgs, chunks);
    let k = choose|k: int| feed_prefix_shape(msgs, chunks, k);
    lemma_encode_all_split(msgs, k);
    let ek = spec_encode_all(msgs.take(k));
    let rest = spec_encode_all(msgs.skip(k));
    assert(ek + spec_feed(chunks).1 == ek + rest);
    assert(spec_feed(chunks).1.len() == rest.len());
    if k < msgs.len() {
        let e_next = spec_encode_message(msgs[k].0, msgs[k].1);
        assert(msgs.skip(k)[0] == msgs[k]);
        assert(rest == e_next + spec_encode_all(msgs.skip(k).skip(1)));
        assert(rest.len() >= e_next.len());
        assert(false);
    }
    assert(msgs.take(k) =~= msgs);
    assert(spec_feed(chunks).1 =~= Seq::<u8>::empty());
}

} // verus!
