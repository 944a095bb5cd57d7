//! A job: one block of a piece to fetch from a peer.
use crate::orchestration::job_orchestrator::{chunk_index, chunk_len, Chunk, CHUNK_SIZE};
use vstd::prelude::*;

verus! {

/// One block of a piece: where it lies and a buffer for its bytes.
#[derive(Debug)]
pub struct Job {
    pub index: u64,
    /// The offset of the block within the piece, in bytes.
    pub begin: u64,
    pub length: u64,
    /// The block's bytes; zeroed until it arrives.
    pub chunk_data: Vec<u8>,
}

/// The offset within its piece of the chunk numbered `index` (from 1).
pub open spec fn chunk_begin(index: u32) -> int {
    (index - 1) * CHUNK_SIZE
}

impl Job {
    /// A job for `length` bytes at offset `begin` of piece `index`, with a
    /// zeroed buffer.
    pub fn new(index: u64, length: u64, begin: u64) -> (r: Self)
        requires
            length <= usize::MAX,
        ensures
            r.index == index,
            r.length == length,
            r.begin == begin,
            r.chunk_data@ == Seq::new(length as nat, |i: int| 0u8),
    {
        let mut chunk_data: Vec<u8> = Vec::new();
        let n = length as usize;
        let mut i: usize = 0;
        while i < n
            invariant
                i <= n,
                n == length,
                chunk_data@ == Seq::new(i as nat, |k: int| 0u8),
            decreases n - i,
        {
            chunk_data.push(0u8);
            i = i + 1;
            proof {
                assert(chunk_data@ =~= Seq::new(i as nat, |k: int| 0u8));
            }
        }
        Job { index, begin, length, chunk_data }
    }

    /// The job that fetches chunk `pp` of piece `piece_index`: a standard
    /// chunk is a whole block, a partial chunk its recorded size; chunk `k`
    /// (numbered from 1) starts `k - 1` blocks into the piece.
    pub fn new_job_from_piece_process(piece_index: u32, pp: Chunk) -> (r: Self)
        requires
            chunk_index(pp) >= 1,
        ensures
            r.index == piece_index,
            r.length == chunk_len(pp),
            r.begin == chunk_begin(chunk_index(pp)),
            r.chunk_data@ == Seq::new(chunk_len(pp) as nat, |i: int| 0u8),
    {
        let (length, index) = match pp {
            Chunk::StandardChunk(index, _) => (CHUNK_SIZE, index),
            Chunk::PartialChunk(index, i, _) => (i as u64, index),
        };
        Self::new(piece_index as u64, length, (index - 1) as u64 * CHUNK_SIZE)
    }
}

} // verus!
