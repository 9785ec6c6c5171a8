//! Torrent metadata: piece length, total content length, the ordered piece
//! hashes, and the declared file list. The metadata itself is produced by an
//! external bencode-decoding collaborator; this module holds it as plain
//! values and answers size questions about it.

use vstd::prelude::*;

use crate::hashes::Hashes;

verus! {

/// One declared file: its byte length and its relative path as an ordered
/// sequence of path segments.
#[derive(Debug, Clone)]
pub struct File {
    pub length: usize,
    pub path: Vec<String>,
}

/// Either one file length or an ordered list of file records.
#[derive(Debug, Clone)]
pub enum Keys {
    SingleFile { length: usize },
    MultiFile { files: Vec<File> },
}

/// The info dictionary of one torrent.
#[derive(Debug, Clone)]
pub struct Info {
    pub name: String,
    pub length: usize,
    pub piece_length: usize,
    pub pieces: Hashes,
    pub keys: Keys,
}

/// One torrent: its tracker announce URL and its info dictionary.
#[derive(Debug, Clone)]
pub struct Torrent {
    pub announce: String,
    pub info: Info,
}

/// The sum of the lengths of a file list.
pub open spec fn spec_sum_lens(files: Seq<File>) -> int
    decreases files.len(),
{
    if files.len() == 0 {
        0
    } else {
        files[0].length + spec_sum_lens(files.skip(1))
    }
}

/// The total content length declared by the metadata.
pub open spec fn spec_total_len(keys: Keys) -> int {
    match keys {
        Keys::SingleFile { length } => length as int,
        Keys::MultiFile { files } => spec_sum_lens(files@),
    }
}

/// Summing one more file extends the sum by its length.
pub proof fn lemma_sum_lens_take_snoc(files: Seq<File>, i: int)
    requires
        0 <= i < files.len(),
    ensures
        spec_sum_lens(files.take(i + 1)) == spec_sum_lens(files.take(i)) + files[i].length,
    decreases i,
{
    if i == 0 {
        assert(files.take(1).skip(1) =~= Seq::<File>::empty());
        assert(files.take(1)[0] == files[0]);
        assert(files.take(0) =~= Seq::<File>::empty());
    } else {
        lemma_sum_lens_take_snoc(files.skip(1), i - 1);
        assert(files.take(i + 1).skip(1) =~= files.skip(1).take(i));
        assert(files.take(i).skip(1) =~= files.skip(1).take(i - 1));
        assert(files.take(i + 1)[0] == files[0]);
        assert(files.take(i)[0] == files[0]);
        assert(files.skip(1)[i - 1] == files[i]);
    }
}

/// Every partial sum of file lengths is at most the total sum.
pub proof fn lemma_sum_lens_take_le(files: Seq<File>, i: int)
    requires
        0 <= i <= files.len(),
    ensures
        0 <= spec_sum_lens(files.take(i)),
        spec_sum_lens(files.take(i)) <= spec_sum_lens(files),
    decreases files.len() - i,
{
    lemma_sum_lens_nonneg(files.take(i));
    if i == 0 {
        assert(files.take(0) =~= Seq::<File>::empty());
        lemma_sum_lens_nonneg(files);
    } else if i == files.len() {
        assert(files.take(i) =~= files);
        lemma_sum_lens_nonneg(files);
    } else {
        lemma_sum_lens_take_snoc(files, i);
        lemma_sum_lens_take_le(files, i + 1);
    }
}

/// A sum of file lengths is never negative.
pub proof fn lemma_sum_lens_nonneg(files: Seq<File>)
    ensures
        0 <= spec_sum_lens(files),
    decreases files.len(),
{
    if files.len() > 0 {
        lemma_sum_lens_nonneg(files.skip(1));
    }
}

impl Torrent {
    /// The total content length: the single file length, or the sum of the
    /// declared file lengths in metadata order.
    pub fn len(&self) -> (r: usize)
        requires
            spec_total_len(self.info.keys) <= usize::MAX,
        ensures
            r == spec_total_len(self.info.keys),
    {
        match &self.info.keys {
            Keys::SingleFile { length } => *length,
            Keys::MultiFile { files } => {
                let mut sum: usize = 0;
                let mut i: usize = 0;
                while i < files.len()
                    invariant
                        i <= files@.len(),
                        spec_sum_lens(files@) <= usize::MAX,
                        sum == spec_sum_lens(files@.take(i as int)),
                    decreases files@.len() - i,
                {
                    proof {
                        lemma_sum_lens_take_snoc(files@, i as int);
                        lemma_sum_lens_take_le(files@, i + 1);
                    }
                    sum = sum + files[i].length;
                    i = i + 1;
                }
                proof {
                    assert(files@.take(files@.len() as int) =~= files@);
                }
                sum
            },
        }
    }
}

} // verus!
