//! The ordered sequence of 20-byte piece hashes of one torrent.
//!
//! On the wire the hashes travel as one byte string whose length is a
//! multiple of 20; decoding splits it into 20-byte chunks and encoding
//! concatenates the chunks back, byte-exactly.

use vstd::prelude::*;

verus! {

/// Splits a byte sequence into consecutive 20-byte chunks, dropping any
/// trailing remainder shorter than 20 bytes.
pub open spec fn spec_decode_hashes(b: Seq<u8>) -> Seq<Seq<u8>>
    decreases b.len(),
{
    if b.len() < 20 {
        Seq::empty()
    } else {
        seq![b.take(20)] + spec_decode_hashes(b.skip(20))
    }
}

/// Concatenates a sequence of hash chunks back into one byte sequence.
pub open spec fn spec_concat_hashes(h: Seq<Seq<u8>>) -> Seq<u8>
    decreases h.len(),
{
    if h.len() == 0 {
        Seq::empty()
    } else {
        h[0] + spec_concat_hashes(h.skip(1))
    }
}

/// The ordered 20-byte piece hashes of one torrent.
#[derive(Debug, Clone)]
pub struct Hashes(pub Vec<[u8; 20]>);

impl View for Hashes {
    type V = Seq<Seq<u8>>;

    open spec fn view(&self) -> Seq<Seq<u8>> {
        self.0@.map_values(|a: [u8; 20]| a@)
    }
}

impl Hashes {
    /// Decodes a byte string into piece hashes; the length must be a
    /// multiple of 20, anything else is rejected.
    pub fn from_bytes(bytes: &[u8]) -> (r: Option<Hashes>)
        ensures
            bytes@.len() % 20 == 0 <==> r is Some,
            r is Some ==> r->0@ == spec_decode_hashes(bytes@),
    {
        if bytes.len() % 20 != 0 {
            return None;
        }
        proof {
            vstd::arithmetic::div_mod::lemma_fundamental_div_mod(bytes@.len() as int, 20);
        }
        let mut out: Vec<[u8; 20]> = Vec::new();
        let mut i: usize = 0;
        while i < bytes.len()
            invariant
                bytes@.len() == 20 * (bytes@.len() as int / 20),
                i == 20 * out@.len(),
                i <= bytes@.len(),
                forall|k: int|
                    0 <= k < out@.len() ==> out@[k]@ == bytes@.subrange(20 * k, 20 * k + 20),
            decreases bytes@.len() - i,
        {
            assert(i + 20 <= bytes@.len());
            let mut chunk: [u8; 20] = [0u8; 20];
            let mut j: usize = 0;
            while j < 20
                invariant
                    i + 20 <= bytes@.len(),
                    bytes@.len() <= usize::MAX,
                    j <= 20,
                    forall|k: int| 0 <= k < j ==> chunk@[k] == bytes@[i + k],
                decreases 20 - j,
            {
                chunk[j] = bytes[i + j];
                j = j + 1;
            }
            assert(chunk@ =~= bytes@.subrange(i as int, i + 20));
            out.push(chunk);
            i = i + 20;
        }
        proof {
            lemma_decode_hashes_index(bytes@);
            assert(Hashes(out)@ =~= spec_decode_hashes(bytes@));
        }
        Some(Hashes(out))
    }

    /// Concatenates the hashes back into the single byte string they were
    /// decoded from.
    pub fn to_bytes(&self) -> (r: Vec<u8>)
        ensures
            r@ == spec_concat_hashes(self@),
    {
        let mut out: Vec<u8> = Vec::new();
        let mut i: usize = 0;
        while i < self.0.len()
            invariant
                i <= self.0@.len(),
                out@ == spec_concat_hashes(self@.take(i as int)),
            decreases self.0@.len() - i,
        {
            let chunk = &self.0[i];
            let mut j: usize = 0;
            while j < 20
                invariant
                    i < self.0@.len(),
                    j <= 20,
                    out@ == spec_concat_hashes(self@.take(i as int)) + chunk@.take(j as int),
                    chunk@ == self@[i as int],
                decreases 20 - j,
            {
                out.push(chunk[j]);
                assert(chunk@.take(j + 1) =~= chunk@.take(j as int).push(chunk@[j as int]));
                j = j + 1;
            }
            proof {
                lemma_concat_hashes_take_snoc(self@, i as int);
                assert(chunk@.take(20) =~= chunk@);
            }
            i = i + 1;
        }
        proof {
            assert(self@.take(self.0@.len() as int) =~= self@);
        }
        out
    }
}

/// Each decoded chunk is exactly the matching 20-byte slice of the input,
/// and the chunk count is the input length divided by 20.
pub proof fn lemma_decode_hashes_index(b: Seq<u8>)
    requires
        b.len() % 20 == 0,
    ensures
        spec_decode_hashes(b).len() == b.len() / 20,
        forall|k: int|
            0 <= k < b.len() / 20 ==> #[trigger] spec_decode_hashes(b)[k] == b.subrange(
                20 * k,
                20 * k + 20,
            ),
    decreases b.len(),
{
    if b.len() >= 20 {
        assert(b.skip(20).len() % 20 == 0) by {
            assert(b.skip(20).len() == b.len() - 20);
        }
        lemma_decode_hashes_index(b.skip(20));
        assert forall|k: int| 0 <= k < b.len() / 20 implies #[trigger] spec_decode_hashes(b)[k]
            == b.subrange(20 * k, 20 * k + 20) by {
            if k == 0 {
                assert(spec_decode_hashes(b)[0] == b.take(20));
                assert(b.take(20) =~= b.subrange(0, 20));
            } else {
                assert(spec_decode_hashes(b)[k] == spec_decode_hashes(b.skip(20))[k - 1]);
                assert(spec_decode_hashes(b.skip(20))[k - 1] == b.skip(20).subrange(
                    20 * (k - 1),
                    20 * (k - 1) + 20,
                ));
                assert(b.skip(20).subrange(20 * (k - 1), 20 * (k - 1) + 20) =~= b.subrange(
                    20 * k,
                    20 * k + 20,
                ));
            }
        }
    }
}

/// Concatenating one more chunk extends the concatenation by that chunk.
pub proof fn lemma_concat_hashes_take_snoc(h: Seq<Seq<u8>>, i: int)
    requires
        0 <= i < h.len(),
    ensures
        spec_concat_hashes(h.take(i + 1)) == spec_concat_hashes(h.take(i)) + h[i],
    decreases i,
{
    if i == 0 {
        assert(h.take(1).skip(1) =~= Seq::<Seq<u8>>::empty());
        assert(h.take(1).len() == 1);
        assert(h.take(1)[0] == h[0]);
        assert(spec_concat_hashes(Seq::<Seq<u8>>::empty()) == Seq::<u8>::empty());
        assert(spec_concat_hashes(h.take(1)) == h.take(1)[0] + spec_concat_hashes(
            h.take(1).skip(1),
        ));
        assert(h[0] + Seq::<u8>::empty() =~= h[0]);
        assert(spec_concat_hashes(h.take(1)) == h[0]);
        assert(spec_concat_hashes(h.take(0)) =~= Seq::<u8>::empty());
        assert(spec_concat_hashes(h.take(0)) + h[0] =~= h[0]);
    } else {
        lemma_concat_hashes_take_snoc(h.skip(1), i - 1);
        assert(h.take(i + 1).skip(1) =~= h.skip(1).take(i));
        assert(h.take(i).skip(1) =~= h.skip(1).take(i - 1));
        assert(h.take(i + 1)[0] == h[0]);
        assert(h.take(i)[0] == h[0]);
        assert(h.skip(1)[i - 1] == h[i]);
        assert(spec_concat_hashes(h.take(i + 1)) == h[0] + spec_concat_hashes(h.skip(1).take(i)));
        assert(spec_concat_hashes(h.take(i)) == h[0] + spec_concat_hashes(h.skip(1).take(i - 1)));
        assert(h[0] + (spec_concat_hashes(h.skip(1).take(i - 1)) + h[i]) =~= (h[0]
            + spec_concat_hashes(h.skip(1).take(i - 1))) + h[i]);
    }
}

/// Decoding a byte string whose length is a multiple of 20 into piece
/// hashes and concatenating them again reproduces the original bytes
/// exactly.
pub proof fn lemma_hashes_round_trip(b: Seq<u8>)
    requires
        b.len() % 20 == 0,
    ensures
        spec_concat_hashes(spec_decode_hashes(b)) == b,
    decreases b.len(),
{
    if b.len() == 0 {
        assert(spec_concat_hashes(spec_decode_hashes(b)) =~= b);
    } else {
        assert(b.len() >= 20);
        assert(b.skip(20).len() % 20 == 0) by {
            assert(b.skip(20).len() == b.len() - 20);
        }
        lemma_hashes_round_trip(b.skip(20));
        let d = spec_decode_hashes(b);
        assert(d[0] == b.take(20));
        assert(d.skip(1) =~= spec_decode_hashes(b.skip(20)));
        assert(spec_concat_hashes(d) == b.take(20) + spec_concat_hashes(spec_decode_hashes(b.skip(20))));
        assert(b.take(20) + b.skip(20) =~= b);
    }
}

} // verus!
