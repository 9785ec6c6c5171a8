//! The piece-download scheduler core and the final download result.
//!
//! Per piece: block arithmetic, the assembly buffer with its received-byte
//! count, whole-piece hash verification, and the commit of verified bytes
//! into the output. Per download: building the piece descriptors from the
//! metadata and the connected roster (pieces with no eligible peer are
//! reported as unschedulable, never asserted away), and slicing the final
//! byte buffer into per-file contents along the cumulative file boundaries.

use vstd::prelude::*;

use sha1::Digest;

use crate::error::PieceFailure;
use crate::error::ProtocolError;
use crate::peer::PeerConnection;
use crate::piece::Piece;
use crate::piece::spec_eligible_from;
use crate::piece::spec_piece_size;
use crate::torrent::File;
use crate::torrent::Torrent;
use crate::torrent::lemma_sum_lens_take_le;
use crate::torrent::lemma_sum_lens_take_snoc;
use crate::torrent::spec_sum_lens;
use crate::torrent::spec_total_len;

verus! {

// ---------------------------------------------------------------------------
// Whole-piece hashing
// ---------------------------------------------------------------------------
/// The 20-byte SHA-1 digest of a byte sequence, as the outside hasher
/// computes it.
pub uninterp spec fn sha1_of(data: Seq<u8>) -> Seq<u8>;

/// Relies on sha1::Sha1 through the digest traits: the 20-byte SHA-1 digest
/// depends on the input bytes alone.
#[verifier::external_body]
fn sha1_digest(data: &Vec<u8>) -> (r: [u8; 20])
    ensures
        r@ == sha1_of(data@),
{
    let mut hasher = sha1::Sha1::new();
    hasher.update(data.as_slice());
    hasher.finalize().into()
}

/// Whether two 20-byte hashes are equal.
fn hash_eq(a: &[u8; 20], b: &[u8; 20]) -> (r: bool)
    ensures
        r == (a@ == b@),
{
    let mut i: usize = 0;
    while i < 20
        invariant
            i <= 20,
            forall|t: int| 0 <= t < i ==> a@[t] == b@[t],
        decreases 20 - i,
    {
        if a[i] != b[i] {
            assert(a@ != b@);
            return false;
        }
        i = i + 1;
    }
    proof {
        assert(a@ =~= b@);
    }
    true
}

// ---------------------------------------------------------------------------
// Block arithmetic
// ---------------------------------------------------------------------------
/// How many block requests one piece needs: the piece length divided by the
/// block size, rounded up.
pub fn block_count(piece_len: u32) -> (r: u32)
    requires
        1 <= piece_len,
        piece_len + crate::BLOCK_MAX - 1 <= u32::MAX,
    ensures
        r == (piece_len + crate::BLOCK_MAX - 1) as int / (crate::BLOCK_MAX as int),
        1 <= r,
        (r - 1) * crate::BLOCK_MAX < piece_len,
        piece_len <= r * crate::BLOCK_MAX,
{
    let r = (piece_len + (crate::BLOCK_MAX - 1)) / crate::BLOCK_MAX;
    proof {
        vstd::arithmetic::div_mod::lemma_fundamental_div_mod(
            (piece_len + crate::BLOCK_MAX - 1) as int,
            crate::BLOCK_MAX as int,
        );
    }
    r
}

/// The byte length of block `block_i` of a piece: the fixed block size,
/// except that the last block carries only what remains.
pub open spec fn spec_block_size(piece_len: int, block_i: int) -> int {
    if piece_len - block_i * (crate::BLOCK_MAX as int) < (crate::BLOCK_MAX as int) {
        piece_len - block_i * (crate::BLOCK_MAX as int)
    } else {
        crate::BLOCK_MAX as int
    }
}

/// The byte length of block `block_i`, for a block that exists.
pub fn block_size_at(piece_len: u32, block_i: u32) -> (r: u32)
    requires
        block_i * crate::BLOCK_MAX < piece_len,
    ensures
        r == spec_block_size(piece_len as int, block_i as int),
        1 <= r <= crate::BLOCK_MAX,
{
    let begin = block_i * crate::BLOCK_MAX;
    let rem = piece_len - begin;
    if rem < crate::BLOCK_MAX {
        rem
    } else {
        crate::BLOCK_MAX
    }
}

// ---------------------------------------------------------------------------
// The per-piece download session
// ---------------------------------------------------------------------------
/// The assembly buffer of the one piece currently active: exactly
/// piece-length bytes plus a running received-byte count. Discarded on
/// piece completion or failure.
#[derive(Debug)]
pub struct DownloadSession {
    buffer: Vec<u8>,
    received: usize,
}

impl DownloadSession {
    pub closed spec fn spec_buffer(&self) -> Seq<u8> {
        self.buffer@
    }

    pub closed spec fn spec_received(&self) -> int {
        self.received as int
    }

    /// A fresh zeroed assembly buffer for a piece of `piece_len` bytes.
    pub fn new(piece_len: usize) -> (r: DownloadSession)
        ensures
            r.spec_buffer().len() == piece_len,
            forall|i: int| 0 <= i < piece_len ==> r.spec_buffer()[i] == 0,
            r.spec_received() == 0,
    {
        let mut buffer: Vec<u8> = Vec::new();
        let mut i: usize = 0;
        while i < piece_len
            invariant
                i <= piece_len,
                buffer@.len() == i,
                forall|t: int| 0 <= t < i ==> buffer@[t] == 0,
            decreases piece_len - i,
        {
            buffer.push(0);
            i = i + 1;
        }
        DownloadSession { buffer, received: 0 }
    }

    pub fn received(&self) -> (r: usize)
        ensures
            r == self.spec_received(),
    {
        self.received
    }

    /// Whether every byte of the piece has been received.
    pub fn is_complete(&self) -> (r: bool)
        ensures
            r == (self.spec_received() == self.spec_buffer().len()),
    {
        self.received == self.buffer.len()
    }

    /// Copies one delivered block into the buffer at its explicit offset
    /// and counts its bytes. Blocks may arrive in any interleaving: each
    /// write targets its own offset, so the final buffer content does not
    /// depend on the order. A block that does not fit the buffer is a
    /// protocol violation and changes nothing.
    pub fn apply_block(&mut self, begin: usize, block: &Vec<u8>) -> (r: Result<(), ProtocolError>)
        ensures
            ({
                let fits = begin + block@.len() <= old(self).spec_buffer().len() && old(
                    self,
                ).spec_received() + block@.len() <= usize::MAX;
                if fits {
                    &&& r matches Ok(u)
                    &&& final(self).spec_buffer() == old(self).spec_buffer().take(begin as int)
                        + block@ + old(self).spec_buffer().skip(begin + block@.len())
                    &&& final(self).spec_received() == old(self).spec_received() + block@.len()
                } else {
                    r == Err::<(), ProtocolError>(ProtocolError::MismatchedResponse)
                        && *final(self) == *old(self)
                }
            }),
    {
        if block.len() > self.buffer.len() || begin > self.buffer.len() - block.len() {
            return Err(ProtocolError::MismatchedResponse);
        }
        if self.received > usize::MAX - block.len() {
            return Err(ProtocolError::MismatchedResponse);
        }
        let buf_len = self.buffer.len();
        assert(buf_len <= usize::MAX);
        let mut k: usize = 0;
        while k < block.len()
            invariant
                k <= block@.len(),
                begin + block@.len() <= self.buffer@.len(),
                self.buffer@.len() <= usize::MAX,
                self.buffer@.len() == old(self).spec_buffer().len(),
                forall|t: int| 0 <= t < begin ==> self.buffer@[t] == old(self).spec_buffer()[t],
                forall|t: int|
                    begin <= t < begin + k ==> self.buffer@[t] == block@[t - begin],
                forall|t: int|
                    begin + k <= t < self.buffer@.len() ==> self.buffer@[t] == old(
                        self,
                    ).spec_buffer()[t],
                self.received == old(self).spec_received(),
            decreases block@.len() - k,
        {
            self.buffer[begin + k] = block[k];
            k = k + 1;
        }
        self.received = self.received + block.len();
        proof {
            assert(self.buffer@ =~= old(self).spec_buffer().take(begin as int) + block@ + old(
                self,
            ).spec_buffer().skip(begin + block@.len()));
        }
        Ok(())
    }

    /// Ends the round for this piece: fails as incomplete when fewer bytes
    /// than the piece length were collected, fails the integrity check when
    /// the whole-piece hash differs from the expected hash, and otherwise
    /// hands the verified piece bytes over.
    pub fn finish(self, expected: &[u8; 20]) -> (r: Result<Vec<u8>, PieceFailure>)
        ensures
            self.spec_received() != self.spec_buffer().len() ==> r == Err::<Vec<u8>, PieceFailure>(
                PieceFailure::Incomplete,
            ),
            self.spec_received() == self.spec_buffer().len() && sha1_of(self.spec_buffer())
                == expected@ ==> (r matches Ok(b) && b@ == self.spec_buffer()),
            self.spec_received() == self.spec_buffer().len() && sha1_of(self.spec_buffer())
                != expected@ ==> r == Err::<Vec<u8>, PieceFailure>(PieceFailure::Integrity),
    {
        if self.received != self.buffer.len() {
            return Err(PieceFailure::Incomplete);
        }
        let digest = sha1_digest(&self.buffer);
        if hash_eq(&digest, expected) {
            Ok(self.buffer)
        } else {
            Err(PieceFailure::Integrity)
        }
    }
}

/// Writes the verified bytes of one piece into the final output buffer at
/// their explicit offset.
pub fn commit_piece(output: &mut Vec<u8>, offset: usize, bytes: &Vec<u8>)
    requires
        offset + bytes@.len() <= old(output)@.len(),
    ensures
        final(output)@ == old(output)@.take(offset as int) + bytes@ + old(output)@.skip(
            offset + bytes@.len(),
        ),
{
    let out_len = output.len();
    assert(out_len <= usize::MAX);
    let mut k: usize = 0;
    while k < bytes.len()
        invariant
            k <= bytes@.len(),
            offset + bytes@.len() <= output@.len(),
            output@.len() <= usize::MAX,
            output@.len() == old(output)@.len(),
            forall|t: int| 0 <= t < offset ==> output@[t] == old(output)@[t],
            forall|t: int| offset <= t < offset + k ==> output@[t] == bytes@[t - offset],
            forall|t: int|
                offset + k <= t < output@.len() ==> output@[t] == old(output)@[t],
        decreases bytes@.len() - k,
    {
        output[offset + k] = bytes[k];
        k = k + 1;
    }
    proof {
        assert(output@ =~= old(output)@.take(offset as int) + bytes@ + old(output)@.skip(
            offset + bytes@.len(),
        ));
    }
}

// ---------------------------------------------------------------------------
// Building the schedule
// ---------------------------------------------------------------------------
/// The ascending piece indices, from `i` on, that at least one connected
/// peer holds.
pub open spec fn spec_sched_indices(peers: Seq<PeerConnection>, npieces: u64, i: u64) -> Seq<u64>
    decreases npieces - i,
{
    if i >= npieces {
        Seq::empty()
    } else if spec_eligible_from(peers, i as u32, 0).len() > 0 {
        seq![i] + spec_sched_indices(peers, npieces, (i + 1) as u64)
    } else {
        spec_sched_indices(peers, npieces, (i + 1) as u64)
    }
}

/// The ascending piece indices, from `i` on, that no connected peer holds.
pub open spec fn spec_unsched_indices(peers: Seq<PeerConnection>, npieces: u64, i: u64) -> Seq<u64>
    decreases npieces - i,
{
    if i >= npieces {
        Seq::empty()
    } else if spec_eligible_from(peers, i as u32, 0).len() == 0 {
        seq![i] + spec_unsched_indices(peers, npieces, (i + 1) as u64)
    } else {
        spec_unsched_indices(peers, npieces, (i + 1) as u64)
    }
}

/// The descriptor of piece `p.spec_index()` as built from this metadata,
/// roster and tie-break values.
pub open spec fn spec_descriptor_ok(
    p: Piece,
    torrent: Torrent,
    peers: Seq<PeerConnection>,
    seeds: Seq<u8>,
) -> bool {
    &&& p.spec_index() < torrent.info.pieces.0@.len()
    &&& p.spec_seed() == seeds[p.spec_index() as int]
    &&& p.spec_hash() == torrent.info.pieces.0@[p.spec_index() as int]
    &&& p.spec_length() == spec_piece_size(
        spec_total_len(torrent.info.keys),
        torrent.info.piece_length as int,
        torrent.info.pieces.0@.len() as int,
        p.spec_index() as int,
    )
    &&& p.spec_peers() == spec_eligible_from(peers, p.spec_index() as u32, 0)
}

/// Builds one descriptor per piece from the metadata, the connected roster
/// and the injected per-piece tie-break values; pieces that no connected
/// peer holds are set aside as unschedulable instead of aborting the run.
pub fn build_pieces(torrent: &Torrent, peers: &Vec<PeerConnection>, seeds: &Vec<u8>) -> (r: (
    Vec<Piece>,
    Vec<u64>,
))
    requires
        seeds@.len() == torrent.info.pieces.0@.len(),
        torrent.info.pieces.0@.len() <= u32::MAX,
        torrent.info.piece_length > 0,
        0 <= spec_total_len(torrent.info.keys) <= usize::MAX,
    ensures
        ({
            let npieces = torrent.info.pieces.0@.len() as u64;
            &&& r.0@.map_values(|p: Piece| p.spec_index()) == spec_sched_indices(
                peers@,
                npieces,
                0,
            )
            &&& r.1@ == spec_unsched_indices(peers@, npieces, 0)
            &&& forall|t: int|
                0 <= t < r.0@.len() ==> spec_descriptor_ok(
                    #[trigger] r.0@[t],
                    *torrent,
                    peers@,
                    seeds@,
                )
        }),
{
    let npieces = torrent.info.pieces.0.len();
    let ghost np = npieces as u64;
    let mut sched: Vec<Piece> = Vec::new();
    let mut unsched: Vec<u64> = Vec::new();
    let mut i: usize = 0;
    while i < npieces
        invariant
            i <= npieces,
            npieces == torrent.info.pieces.0@.len(),
            np == npieces as u64,
            seeds@.len() == npieces,
            npieces <= u32::MAX,
            torrent.info.piece_length > 0,
            0 <= spec_total_len(torrent.info.keys) <= usize::MAX,
            spec_sched_indices(peers@, np, 0) == sched@.map_values(|p: Piece| p.spec_index())
                + spec_sched_indices(peers@, np, i as u64),
            spec_unsched_indices(peers@, np, 0) == unsched@ + spec_unsched_indices(
                peers@,
                np,
                i as u64,
            ),
            forall|t: int|
                0 <= t < sched@.len() ==> spec_descriptor_ok(
                    #[trigger] sched@[t],
                    *torrent,
                    peers@,
                    seeds@,
                ),
        decreases npieces - i,
    {
        let ghost old_sched = sched@;
        let ghost old_unsched = unsched@;
        let p = Piece::new(i as u64, torrent, peers, seeds[i]);
        if p.peers().len() == 0 {
            unsched.push(i as u64);
        } else {
            sched.push(p);
        }
        proof {
            let f = |q: Piece| q.spec_index();
            if spec_eligible_from(peers@, i as u32, 0).len() > 0 {
                assert(spec_sched_indices(peers@, np, i as u64) == seq![i as u64]
                    + spec_sched_indices(peers@, np, (i + 1) as u64));
                assert(spec_unsched_indices(peers@, np, i as u64) == spec_unsched_indices(
                    peers@,
                    np,
                    (i + 1) as u64,
                ));
                assert(sched@ =~= old_sched.push(p));
                assert(sched@.map_values(f) =~= old_sched.map_values(f).push(i as u64));
                assert(old_sched.map_values(f) + (seq![i as u64] + spec_sched_indices(
                    peers@,
                    np,
                    (i + 1) as u64,
                )) =~= old_sched.map_values(f).push(i as u64) + spec_sched_indices(
                    peers@,
                    np,
                    (i + 1) as u64,
                ));
            } else {
                assert(spec_unsched_indices(peers@, np, i as u64) == seq![i as u64]
                    + spec_unsched_indices(peers@, np, (i + 1) as u64));
                assert(spec_sched_indices(peers@, np, i as u64) == spec_sched_indices(
                    peers@,
                    np,
                    (i + 1) as u64,
                ));
                assert(unsched@ =~= old_unsched.push(i as u64));
                assert(old_unsched + (seq![i as u64] + spec_unsched_indices(
                    peers@,
                    np,
                    (i + 1) as u64,
                )) =~= old_unsched.push(i as u64) + spec_unsched_indices(
                    peers@,
                    np,
                    (i + 1) as u64,
                ));
            }
        }
        i = i + 1;
    }
    proof {
        let f = |q: Piece| q.spec_index();
        assert(spec_sched_indices(peers@, np, np) == Seq::<u64>::empty());
        assert(spec_unsched_indices(peers@, np, np) == Seq::<u64>::empty());
        assert(sched@.map_values(f) + Seq::<u64>::empty() =~= sched@.map_values(f));
        assert(unsched@ + Seq::<u64>::empty() =~= unsched@);
    }
    (sched, unsched)
}

// ---------------------------------------------------------------------------
// The final download result
// ---------------------------------------------------------------------------
/// The concatenation of all verified piece bytes, together with the declared
/// file records; exposed sliced per file along the cumulative file-length
/// boundaries in metadata order.
#[derive(Debug)]
pub struct Downloaded {
    bytes: Vec<u8>,
    file: Vec<File>,
}

impl Downloaded {
    pub closed spec fn spec_bytes(&self) -> Seq<u8> {
        self.bytes@
    }

    pub closed spec fn spec_files(&self) -> Seq<File> {
        self.file@
    }

    /// The declared files fit within the downloaded bytes.
    pub open spec fn wf(&self) -> bool {
        spec_sum_lens(self.spec_files()) <= self.spec_bytes().len()
    }

    /// Wraps the downloaded bytes with the file records they are sliced by.
    pub fn new(bytes: Vec<u8>, file: Vec<File>) -> (r: Downloaded)
        requires
            spec_sum_lens(file@) <= bytes@.len(),
        ensures
            r.spec_bytes() == bytes@,
            r.spec_files() == file@,
            r.wf(),
    {
        Downloaded { bytes, file }
    }
}

/// Walks the declared files in metadata order, handing out each file's
/// exact byte content.
pub struct DownloadedIter<'a> {
    downloaded: &'a Downloaded,
    idx: usize,
    offset: usize,
}

impl<'a> DownloadedIter<'a> {
    pub closed spec fn spec_src(&self) -> Downloaded {
        *self.downloaded
    }

    pub closed spec fn spec_idx(&self) -> int {
        self.idx as int
    }

    pub closed spec fn spec_offset(&self) -> int {
        self.offset as int
    }

    /// The iterator points at a file boundary: its offset is the total
    /// length of the files already handed out.
    pub open spec fn wf(&self) -> bool {
        &&& self.spec_src().wf()
        &&& 0 <= self.spec_idx() <= self.spec_src().spec_files().len()
        &&& self.spec_offset() == spec_sum_lens(
            self.spec_src().spec_files().take(self.spec_idx()),
        )
    }

    /// Starts walking the files of a download from the first byte.
    pub fn new(downloaded: &'a Downloaded) -> (r: DownloadedIter<'a>)
        requires
            downloaded.wf(),
        ensures
            r.wf(),
            r.spec_src() == *downloaded,
            r.spec_idx() == 0,
    {
        proof {
            assert(downloaded.spec_files().take(0) =~= Seq::<File>::empty());
        }
        DownloadedIter { downloaded, idx: 0, offset: 0 }
    }

    /// The next declared file and its exact byte content, or nothing once
    /// every file has been handed out.
    pub fn next(&mut self) -> (r: Option<DownloadedFile<'a>>)
        requires
            old(self).wf(),
        ensures
            final(self).wf(),
            final(self).spec_src() == old(self).spec_src(),
            old(self).spec_idx() == old(self).spec_src().spec_files().len() ==> r is None
                && *final(self) == *old(self),
            old(self).spec_idx() < old(self).spec_src().spec_files().len() ==> {
                &&& final(self).spec_idx() == old(self).spec_idx() + 1
                &&& r matches Some(f)
                &&& f.spec_path() == old(self).spec_src().spec_files()[old(
                    self,
                ).spec_idx()].path@
                &&& f.spec_bytes() == old(self).spec_src().spec_bytes().subrange(
                    old(self).spec_offset(),
                    old(self).spec_offset() + old(self).spec_src().spec_files()[old(
                        self,
                    ).spec_idx()].length,
                )
            },
    {
        if self.idx >= self.downloaded.file.len() {
            return None;
        }
        let total = self.downloaded.bytes.len();
        assert(total <= usize::MAX);
        let file = &self.downloaded.file[self.idx];
        proof {
            lemma_sum_lens_take_snoc(self.downloaded.file@, self.idx as int);
            lemma_sum_lens_take_le(self.downloaded.file@, self.idx as int);
            lemma_sum_lens_take_le(self.downloaded.file@, self.idx + 1);
        }
        let bytes = &self.downloaded.bytes.as_slice()[self.offset..self.offset + file.length];
        self.offset = self.offset + file.length;
        self.idx = self.idx + 1;
        Some(DownloadedFile { file, bytes })
    }
}

/// One declared file of a finished download: its relative path as ordered
/// path segments, and its exact byte content.
pub struct DownloadedFile<'a> {
    file: &'a File,
    bytes: &'a [u8],
}

impl<'a> DownloadedFile<'a> {
    pub closed spec fn spec_path(&self) -> Seq<String> {
        self.file.path@
    }

    pub closed spec fn spec_bytes(&self) -> Seq<u8> {
        self.bytes@
    }

    /// The file's relative path as an ordered sequence of path segments.
    pub fn path(&self) -> (r: &Vec<String>)
        ensures
            r@ == self.spec_path(),
    {
        &self.file.path
    }

    /// The file's exact byte content.
    pub fn bytes(&self) -> (r: &[u8])
        ensures
            r@ == self.spec_bytes(),
    {
        self.bytes
    }
}

} // verus!
