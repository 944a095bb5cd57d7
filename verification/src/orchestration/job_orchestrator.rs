//! The in-memory plan of a download: each piece split into chunks of at
//! most one block (16384 bytes), numbered from 1 within their piece.
use crate::models::torrent_jobs::{chunk_begin, Job};
use crate::models::torrent_meta::{ceil_div, MetaInfo};
use dashmap::DashMap;
use rand::Rng;
use vstd::prelude::*;
use vstd::slice::slice_to_vec;

verus! {

/// The size of a block, the largest chunk a peer is asked for.
pub const CHUNK_SIZE: u64 = 16384;

/// A chunk of a piece: its number within the piece (from 1) and its data;
/// a partial chunk also records its size, which is less than a block.
#[derive(Debug)]
pub enum Chunk {
    StandardChunk(u32, Vec<u8>),
    PartialChunk(u32, u32, Vec<u8>),
}

/// The number of chunk `c` within its piece.
pub open spec fn chunk_index(c: Chunk) -> u32 {
    match c {
        Chunk::StandardChunk(i, _) => i,
        Chunk::PartialChunk(i, _, _) => i,
    }
}

/// The size of chunk `c` in bytes.
pub open spec fn chunk_len(c: Chunk) -> u64 {
    match c {
        Chunk::StandardChunk(_, _) => CHUNK_SIZE,
        Chunk::PartialChunk(_, s, _) => s as u64,
    }
}

/// Whether `c` is a standard chunk numbered `k`, without data yet.
pub open spec fn is_empty_standard(c: Chunk, k: int) -> bool {
    c matches Chunk::StandardChunk(i, d) && i == k && d@.len() == 0
}

/// Whether `c` is a partial chunk numbered `k` of `size` bytes, without data yet.
pub open spec fn is_empty_partial(c: Chunk, k: int, size: int) -> bool {
    c matches Chunk::PartialChunk(i, s, d) && i == k && s == size && d@.len() == 0
}

/// The shape of chunk `c`: whether it is a standard chunk, its number, and its size.
pub open spec fn chunk_shape(c: Chunk) -> (bool, u32, u64) {
    match c {
        Chunk::StandardChunk(i, _) => (true, i, CHUNK_SIZE),
        Chunk::PartialChunk(i, s, _) => (false, i, s as u64),
    }
}

impl Clone for Chunk {
    fn clone(&self) -> (r: Self)
        ensures
            chunk_shape(r) == chunk_shape(*self),
            match (r, *self) {
                (Chunk::StandardChunk(_, d), Chunk::StandardChunk(_, e)) => d@ == e@,
                (Chunk::PartialChunk(_, _, d), Chunk::PartialChunk(_, _, e)) => d@ == e@,
                _ => false,
            },
    {
        match self {
            Chunk::StandardChunk(i, d) => Chunk::StandardChunk(*i, d.clone()),
            Chunk::PartialChunk(i, s, d) => Chunk::PartialChunk(*i, *s, d.clone()),
        }
    }
}

/// Whether the first `n` of `chunks` are empty standard chunks numbered 1 to `n`.
pub open spec fn standard_prefix(chunks: Seq<Chunk>, n: int) -> bool {
    &&& n <= chunks.len()
    &&& forall|k: int| 0 <= k < n ==> is_empty_standard(#[trigger] chunks[k], k + 1)
}

/// A piece of the download in memory: its index, its chunks in order, and
/// the SHA-1 digest its data must have.
#[derive(Debug)]
pub struct MemoryPiece {
    pub index: usize,
    pub chunks: Vec<Chunk>,
    pub integrity_hash: Vec<u8>,
}

/// Whether `p` is piece `i` made of `n` empty standard chunks, with digest `hash`.
pub open spec fn is_full_piece(p: MemoryPiece, i: int, n: int, hash: Seq<u8>) -> bool {
    &&& p.index == i
    &&& p.chunks@.len() == n
    &&& standard_prefix(p.chunks@, n)
    &&& p.integrity_hash@ == hash
}

/// Whether `p` is piece `i` made of `n` empty standard chunks followed by
/// one empty partial chunk of `size` bytes numbered `n + 1`, with digest `hash`.
pub open spec fn is_partial_piece(p: MemoryPiece, i: int, n: int, size: int, hash: Seq<u8>) -> bool {
    &&& p.index == i
    &&& p.chunks@.len() == n + 1
    &&& standard_prefix(p.chunks@, n)
    &&& is_empty_partial(p.chunks@[n], n + 1, size)
    &&& p.integrity_hash@ == hash
}

/// What the plan of the download records of a piece: its index, the
/// shapes of its chunks, and its digest.
pub open spec fn piece_entry(p: MemoryPiece) -> (usize, Seq<(bool, u32, u64)>, Seq<u8>) {
    (p.index, p.chunks@.map_values(|c: Chunk| chunk_shape(c)), p.integrity_hash@)
}

impl Clone for MemoryPiece {
    fn clone(&self) -> (r: Self)
        ensures
            piece_entry(r) == piece_entry(*self),
    {
        let mut chunks: Vec<Chunk> = Vec::new();
        let mut i: usize = 0;
        while i < self.chunks.len()
            invariant
                i <= self.chunks@.len(),
                chunks@.len() == i,
                forall|k: int| 0 <= k < i ==> chunk_shape(#[trigger] chunks@[k]) == chunk_shape(self.chunks@[k]),
            decreases self.chunks@.len() - i,
        {
            chunks.push(self.chunks[i].clone());
            i = i + 1;
        }
        proof {
            assert(chunks@.map_values(|c: Chunk| chunk_shape(c)) =~= self.chunks@.map_values(|c: Chunk| chunk_shape(c)));
        }
        MemoryPiece { index: self.index, chunks, integrity_hash: self.integrity_hash.clone() }
    }
}

impl MemoryPiece {
    /// Piece `index` as `number_of_chunks` empty standard chunks numbered
    /// from 1, with digest `hash`.
    pub fn new(index: usize, number_of_chunks: usize, hash: Vec<u8>) -> (r: Self)
        requires
            number_of_chunks <= u32::MAX,
        ensures
            is_full_piece(r, index as int, number_of_chunks as int, hash@),
    {
        let mut chunks: Vec<Chunk> = Vec::new();
        let mut i: usize = 0;
        while i < number_of_chunks
            invariant
                i <= number_of_chunks <= u32::MAX,
                chunks@.len() == i,
                standard_prefix(chunks@, i as int),
            decreases number_of_chunks - i,
        {
            chunks.push(Chunk::StandardChunk(i as u32 + 1, Vec::new()));
            i = i + 1;
        }
        Self { index, chunks, integrity_hash: hash }
    }

    /// Piece `index` as `number_of_full_chunks` empty standard chunks
    /// numbered from 1, then one empty partial chunk of
    /// `size_of_partial_chunk` bytes, the next in number.
    pub fn new_non_full_pieces(
        index: usize,
        number_of_full_chunks: usize,
        size_of_partial_chunk: u32,
        hash: Vec<u8>,
    ) -> (r: Self)
        requires
            number_of_full_chunks < u32::MAX,
        ensures
            is_partial_piece(
                r,
                index as int,
                number_of_full_chunks as int,
                size_of_partial_chunk as int,
                hash@,
            ),
    {
        let mut chunks: Vec<Chunk> = Vec::new();
        let mut i: usize = 0;
        while i < number_of_full_chunks
            invariant
                i <= number_of_full_chunks < u32::MAX,
                chunks@.len() == i,
                standard_prefix(chunks@, i as int),
            decreases number_of_full_chunks - i,
        {
            chunks.push(Chunk::StandardChunk(i as u32 + 1, Vec::new()));
            i = i + 1;
        }
        chunks.push(Chunk::PartialChunk(number_of_full_chunks as u32 + 1, size_of_partial_chunk, Vec::new()));
        Self { index, chunks, integrity_hash: hash }
    }

    /// The pieces of a download of `size` bytes in pieces of `piece_size`
    /// bytes, with digests from `torrent_meta_info`: as many pieces as it
    /// takes to hold `size` bytes, a trailing partial piece included. Every
    /// piece but the last is whole, made of standard chunks; the last holds
    /// what remains: its whole blocks, then a partial chunk with what is
    /// left of a block, when anything is.
    pub fn torrent_piece_state(size: usize, piece_size: usize, torrent_meta_info: &MetaInfo) -> (r: Vec<Self>)
        requires
            piece_size > 0,
            piece_size / 16384 < u32::MAX,
            ceil_div((size as int), (piece_size as int)) * 20 <= torrent_meta_info.info.pieces_hash@.len(),
        ensures
            r@.len() == ceil_div((size as int), (piece_size as int)),
            forall|i: int|
                0 <= i < r@.len() - 1 ==> is_full_piece(
                    #[trigger] r@[i],
                    i,
                    piece_size as int / CHUNK_SIZE as int,
                    torrent_meta_info.info.pieces_hash@.subrange(i * 20, i * 20 + 20),
                ),
            r@.len() > 0 ==> ({
                let last = r@.len() - 1;
                let rest = size - last * piece_size;
                let hash = torrent_meta_info.info.pieces_hash@.subrange(last * 20, last * 20 + 20);
                &&& 0 < rest <= piece_size
                &&& if rest % (CHUNK_SIZE as int) == 0 {
                    is_full_piece(r@[last], last, rest / (CHUNK_SIZE as int), hash)
                } else {
                    is_partial_piece(r@[last], last, rest / (CHUNK_SIZE as int), rest % (CHUNK_SIZE as int), hash)
                }
            }),
    {
        let full = size / piece_size;
        let rem = size % piece_size;
        proof {
            lemma_piece_count(size as int, piece_size as int);
        }
        let n = if rem == 0 { full } else { full + 1 };
        let ghost hashes = torrent_meta_info.info.pieces_hash@;
        let mut temp_piece_state: Vec<Self> = Vec::new();
        if n == 0 {
            return temp_piece_state;
        }
        let last = n - 1;
        let mut i: usize = 0;
        while i < last
            invariant
                i <= last,
                last + 1 == ceil_div((size as int), (piece_size as int)),
                hashes == torrent_meta_info.info.pieces_hash@,
                (last + 1) * 20 <= hashes.len(),
                piece_size / 16384 < u32::MAX,
                temp_piece_state@.len() == i,
                forall|k: int|
                    0 <= k < i ==> is_full_piece(
                        #[trigger] temp_piece_state@[k],
                        k,
                        piece_size as int / CHUNK_SIZE as int,
                        hashes.subrange(k * 20, k * 20 + 20),
                    ),
            decreases last - i,
        {
            let piece_hash = slice_to_vec(torrent_meta_info.get_piece_hash(i));
            temp_piece_state.push(Self::new(i, piece_size / 16384, piece_hash));
            i = i + 1;
        }
        let rest = size - last * piece_size;
        let number_of_full_chunks_in_last_piece = rest / 16384;
        let size_of_non_full_chunk = rest % 16384;
        proof {
            assert(number_of_full_chunks_in_last_piece <= piece_size / 16384) by (nonlinear_arith)
                requires number_of_full_chunks_in_last_piece == rest / 16384, rest <= piece_size;
        }
        let last_piece_hash = slice_to_vec(torrent_meta_info.get_piece_hash(last));
        let ghost before = temp_piece_state@;
        if size_of_non_full_chunk == 0 {
            temp_piece_state.push(Self::new(last, number_of_full_chunks_in_last_piece, last_piece_hash));
        } else {
            temp_piece_state.push(
                Self::new_non_full_pieces(
                    last,
                    number_of_full_chunks_in_last_piece,
                    size_of_non_full_chunk as u32,
                    last_piece_hash,
                ),
            );
        }
        proof {
            assert forall|k: int| 0 <= k < temp_piece_state@.len() - 1 implies is_full_piece(
                #[trigger] temp_piece_state@[k],
                k,
                piece_size as int / CHUNK_SIZE as int,
                hashes.subrange(k * 20, k * 20 + 20),
            ) by {
                assert(temp_piece_state@[k] == before[k]);
            }
        }
        temp_piece_state
    }
}

/// A download of `size` bytes takes `ceil_div(size, piece_size)` pieces:
/// the quotient, plus one for a remainder; the last holds from 1 to
/// `piece_size` bytes.
proof fn lemma_piece_count(size: int, piece_size: int)
    requires
        size >= 0,
        piece_size > 0,
    ensures
        ceil_div(size, piece_size) == size / piece_size + (if size % piece_size == 0 { 0int } else { 1int }),
        size % piece_size != 0 ==> size / piece_size < size,
        ceil_div(size, piece_size) > 0 ==> 0 < size - (ceil_div(size, piece_size) - 1) * piece_size <= piece_size,
        ceil_div(size, piece_size) == 0 <==> size == 0,
{
    let q = size / piece_size;
    let r = size % piece_size;
    assert(size == q * piece_size + r && 0 <= r < piece_size && q >= 0) by (nonlinear_arith)
        requires piece_size > 0, q == size / piece_size, r == size % piece_size, size >= 0;
    let n = ceil_div(size, piece_size);
    if r == 0 {
        assert(n == q) by (nonlinear_arith)
            requires n == (size + piece_size - 1) / piece_size, size == q * piece_size, piece_size > 0;
        if q > 0 {
            assert((q - 1) * piece_size + piece_size == size) by (nonlinear_arith)
                requires size == q * piece_size;
        } else {
            assert(size == 0) by (nonlinear_arith)
                requires size == q * piece_size, q == 0;
        }
    } else {
        assert(n == q + 1) by (nonlinear_arith)
            requires n == (size + piece_size - 1) / piece_size, size == q * piece_size + r, 0 < r < piece_size,
                piece_size > 0;
        assert(q * piece_size + r - q * piece_size == r);
        assert(q < size) by (nonlinear_arith)
            requires size == q * piece_size + r, 0 < r < piece_size, piece_size > 0, q >= 0;
    }
}

/// The chunks of a piece lie one after another with no gap: chunk `k`
/// (counting from 0) starts `k` blocks into the piece, each chunk ends where
/// the next starts, and the last ends after the whole blocks and the
/// partial chunk.
pub proof fn lemma_partial_piece_chunks_contiguous(p: MemoryPiece, i: int, n: int, size: int, hash: Seq<u8>)
    requires
        is_partial_piece(p, i, n, size, hash),
        n >= 0,
    ensures
        forall|k: int|
            0 <= k <= n ==> chunk_begin(chunk_index(#[trigger] p.chunks@[k])) == k * CHUNK_SIZE,
        forall|k: int|
            0 <= k < n ==> chunk_begin(chunk_index(#[trigger] p.chunks@[k])) + chunk_len(p.chunks@[k])
                == chunk_begin(chunk_index(p.chunks@[k + 1])),
        chunk_begin(chunk_index(p.chunks@[n])) + chunk_len(p.chunks@[n]) == n * CHUNK_SIZE + size,
{
    assert forall|k: int| 0 <= k <= n implies chunk_begin(chunk_index(#[trigger] p.chunks@[k])) == k
        * CHUNK_SIZE by {
        if k < n {
            assert(is_empty_standard(p.chunks@[k], k + 1));
        }
    }
    assert forall|k: int| 0 <= k < n implies chunk_begin(chunk_index(#[trigger] p.chunks@[k])) + chunk_len(
        p.chunks@[k],
    ) == chunk_begin(chunk_index(p.chunks@[k + 1])) by {
        assert(is_empty_standard(p.chunks@[k], k + 1));
        assert(chunk_begin(chunk_index(p.chunks@[k + 1])) == (k + 1) * CHUNK_SIZE);
    }
}

/// The shapes of `n` standard chunks numbered 1 to `n`.
pub open spec fn standard_shapes(n: int) -> Seq<(bool, u32, u64)> {
    Seq::new(n as nat, |k: int| (true, (k + 1) as u32, CHUNK_SIZE))
}

/// What the plan of a download of `size` bytes in pieces of `piece_size`
/// bytes, with the digests `hashes`, records of piece `i` (see
/// [`MemoryPiece::torrent_piece_state`]).
pub open spec fn planned_entry(size: int, piece_size: int, hashes: Seq<u8>, i: int) -> (usize, Seq<(bool, u32, u64)>, Seq<u8>) {
    let last = ceil_div(size, piece_size) - 1;
    let hash = hashes.subrange(i * 20, i * 20 + 20);
    if i < last {
        (i as usize, standard_shapes(piece_size / CHUNK_SIZE as int), hash)
    } else {
        let rest = size - last * piece_size;
        let n = rest / CHUNK_SIZE as int;
        let part = rest % CHUNK_SIZE as int;
        if part == 0 {
            (i as usize, standard_shapes(n), hash)
        } else {
            (i as usize, standard_shapes(n).push((false, (n + 1) as u32, part as u64)), hash)
        }
    }
}

proof fn lemma_full_piece_entry(p: MemoryPiece, i: int, n: int, hash: Seq<u8>)
    requires
        is_full_piece(p, i, n, hash),
    ensures
        piece_entry(p) == (p.index, standard_shapes(n), hash),
{
    assert(p.chunks@.map_values(|c: Chunk| chunk_shape(c)) =~= standard_shapes(n));
}

proof fn lemma_partial_piece_entry(p: MemoryPiece, i: int, n: int, size: int, hash: Seq<u8>)
    requires
        is_partial_piece(p, i, n, size, hash),
        0 <= n,
        0 <= size <= u32::MAX,
    ensures
        piece_entry(p) == (p.index, standard_shapes(n).push((false, (n + 1) as u32, size as u64)), hash),
{
    assert(p.chunks@.map_values(|c: Chunk| chunk_shape(c)) =~= standard_shapes(n).push(
        (false, (n + 1) as u32, size as u64),
    ));
}

/// The pieces of a download, by index, backed by `dashmap::DashMap` so that
/// several tasks can read it at once.
#[verifier::external_body]
pub struct PieceStateMap {
    map: DashMap<usize, MemoryPiece>,
}

/// What a [`PieceStateMap`] holds: for each key, the entry of its piece.
pub uninterp spec fn piece_state_contents(m: PieceStateMap) -> Map<usize, (usize, Seq<(bool, u32, u64)>, Seq<u8>)>;

impl PieceStateMap {
    /// Calls `DashMap::new`: a map holding nothing.
    #[verifier::external_body]
    pub(crate) fn new() -> (r: PieceStateMap)
        ensures
            piece_state_contents(r).is_empty(),
    {
        PieceStateMap { map: DashMap::new() }
    }

    /// Calls `DashMap::insert`: `piece` is held under `key`, in place of
    /// what was held there.
    #[verifier::external_body]
    pub(crate) fn insert(&mut self, key: usize, piece: MemoryPiece)
        ensures
            piece_state_contents(*final(self)) == piece_state_contents(*old(self)).insert(key, piece_entry(piece)),
    {
        self.map.insert(key, piece);
    }

    /// Calls `DashMap::len`: the number of keys held.
    #[verifier::external_body]
    pub fn len(&self) -> (r: usize)
        ensures
            r == piece_state_contents(*self).len(),
    {
        self.map.len()
    }

    /// Calls `DashMap::get` and copies the piece held under `key` out of the
    /// map with [`MemoryPiece::clone`]; `None` when nothing is held there.
    #[verifier::external_body]
    pub fn get_piece(&self, key: usize) -> (r: Option<MemoryPiece>)
        ensures
            match r {
                Some(p) => piece_state_contents(*self).contains_key(key) && piece_entry(p)
                    == piece_state_contents(*self)[key],
                None => !piece_state_contents(*self).contains_key(key),
            },
    {
        self.map.get(&key).map(|entry| entry.value().clone())
    }
}

/// The plan of a single-file download in memory: every piece of
/// [`MemoryPiece::torrent_piece_state`], held under its index.
pub fn file_piece_memory_representation(torrent_meta_info: &MetaInfo) -> (r: PieceStateMap)
    requires
        torrent_meta_info.info.length is Some,
        torrent_meta_info.info.length.unwrap() <= usize::MAX,
        0 < torrent_meta_info.info.piece_length <= usize::MAX,
        torrent_meta_info.info.piece_length / CHUNK_SIZE < u32::MAX,
        ceil_div(
            (torrent_meta_info.info.length.unwrap() as int),
            (torrent_meta_info.info.piece_length as int),
        ) * 20 <= torrent_meta_info.info.pieces_hash@.len(),
    ensures
        ({
            let size = torrent_meta_info.info.length.unwrap() as int;
            let piece_size = torrent_meta_info.info.piece_length as int;
            piece_state_contents(r) == Map::new(
                |k: usize| k < ceil_div(size, piece_size),
                |k: usize| planned_entry(size, piece_size, torrent_meta_info.info.pieces_hash@, k as int),
            )
        }),
{
    let raw_torrent = &torrent_meta_info.info;
    let size = raw_torrent.length.unwrap() as usize;
    let piece_size = raw_torrent.piece_length as usize;
    let ghost hashes = raw_torrent.pieces_hash@;
    let mut piece_state = MemoryPiece::torrent_piece_state(size, piece_size, torrent_meta_info);
    let ghost n = piece_state@.len();
    let ghost pieces = piece_state@;
    proof {
        assert forall|k: int| 0 <= k < n implies piece_entry(#[trigger] pieces[k]) == planned_entry(
            size as int,
            piece_size as int,
            hashes,
            k,
        ) by {
            let last = n - 1;
            let hash = hashes.subrange(k * 20, k * 20 + 20);
            if k < last {
                lemma_full_piece_entry(pieces[k], k, piece_size as int / CHUNK_SIZE as int, hash);
            } else {
                let rest = size - last * piece_size;
                if rest % CHUNK_SIZE as int == 0 {
                    lemma_full_piece_entry(pieces[k], k, rest / CHUNK_SIZE as int, hash);
                } else {
                    lemma_partial_piece_entry(pieces[k], k, rest / CHUNK_SIZE as int, rest % CHUNK_SIZE as int, hash);
                }
            }
        }
    }
    let mut piece_state_map = PieceStateMap::new();
    while piece_state.len() > 0
        invariant
            n == ceil_div((size as int), (piece_size as int)),
            pieces.len() == n,
            piece_state@.len() <= n,
            piece_state@ == pieces.subrange(0, piece_state@.len() as int),
            forall|k: int| 0 <= k < n ==> piece_entry(#[trigger] pieces[k]) == planned_entry(
                size as int,
                piece_size as int,
                hashes,
                k,
            ),
            forall|k: int| 0 <= k < n ==> (#[trigger] pieces[k]).index == k,
            piece_state_contents(piece_state_map) == Map::new(
                |k: usize| piece_state@.len() <= k < n,
                |k: usize| planned_entry(size as int, piece_size as int, hashes, k as int),
            ),
        decreases piece_state@.len(),
    {
        let ghost before = piece_state@.len();
        let ghost old_ps = piece_state@;
        let popped = piece_state.pop();
        proof {
            assert(old_ps[before - 1] == pieces[before - 1]);
        }
        let mem_piece = popped.unwrap();
        let key = mem_piece.index;
        piece_state_map.insert(key, mem_piece);
        proof {
            assert(piece_state@ =~= pieces.subrange(0, piece_state@.len() as int));
            assert(piece_state_contents(piece_state_map) =~= Map::new(
                |k: usize| piece_state@.len() <= k < n,
                |k: usize| planned_entry(size as int, piece_size as int, hashes, k as int),
            ));
        }
    }
    piece_state_map
}

/// Calls `rand::thread_rng().gen_range(0..total)`: a piece index drawn at
/// random below `total`. `gen_range` panics on an empty range, which
/// `requires` rules out; which index comes out is left to chance.
#[verifier::external_body]
fn draw_piece_index(total: usize) -> (r: usize)
    requires
        total > 0,
    ensures
        r < total,
{
    rand::thread_rng().gen_range(0..total)
}

/// The piece that the job scheduler takes on after drawing `drawn`: that
/// piece when it is not yet scheduled, else none (the scheduler draws again).
pub fn next_piece_to_schedule(scheduled: &Vec<u32>, drawn: usize) -> (r: Option<u32>)
    ensures
        r == if scheduled@.contains(drawn as u32) {
            None::<u32>
        } else {
            Some(drawn as u32)
        },
{
    let key = drawn as u32;
    let mut i: usize = 0;
    while i < scheduled.len()
        invariant
            i <= scheduled@.len(),
            key == drawn as u32,
            forall|k: int| 0 <= k < i ==> scheduled@[k] != key,
        decreases scheduled@.len() - i,
    {
        if scheduled[i] == key {
            proof {
                assert(scheduled@[i as int] == key);
            }
            return None;
        }
        i = i + 1;
    }
    Some(key)
}

/// One draw of the job scheduler among `total` pieces: a random piece
/// index, kept when it is not yet scheduled (see [`next_piece_to_schedule`]).
/// When no piece below `total` is scheduled yet the draw always yields one;
/// when it yields none, the index drawn was one already scheduled.
pub fn draw_next_piece(scheduled: &Vec<u32>, total: usize) -> (r: Option<u32>)
    requires
        total > 0,
    ensures
        match r {
            Some(x) => x < total && !scheduled@.contains(x),
            None => exists|x: u32| x < total && #[trigger] scheduled@.contains(x),
        },
        (forall|x: u32| x < total ==> !#[trigger] scheduled@.contains(x)) ==> r is Some,
{
    let drawn = draw_piece_index(total);
    next_piece_to_schedule(scheduled, drawn)
}

/// The jobs that fetch the chunks of piece `piece_index`, one per chunk, in order.
pub fn jobs_for_piece(piece_index: u32, chunks: &Vec<Chunk>) -> (r: Vec<Job>)
    requires
        forall|k: int| 0 <= k < chunks@.len() ==> chunk_index(#[trigger] chunks@[k]) >= 1,
    ensures
        r@.len() == chunks@.len(),
        forall|k: int|
            0 <= k < r@.len() ==> {
                &&& (#[trigger] r@[k]).index == piece_index
                &&& r@[k].length == chunk_len(chunks@[k])
                &&& r@[k].begin == chunk_begin(chunk_index(chunks@[k]))
                &&& r@[k].chunk_data@.len() == chunk_len(chunks@[k])
            },
{
    let mut jobs: Vec<Job> = Vec::new();
    let mut k: usize = 0;
    while k < chunks.len()
        invariant
            k <= chunks@.len(),
            forall|j: int| 0 <= j < chunks@.len() ==> chunk_index(#[trigger] chunks@[j]) >= 1,
            jobs@.len() == k,
            forall|j: int|
                0 <= j < k ==> {
                    &&& (#[trigger] jobs@[j]).index == piece_index
                    &&& jobs@[j].length == chunk_len(chunks@[j])
                    &&& jobs@[j].begin == chunk_begin(chunk_index(chunks@[j]))
                    &&& jobs@[j].chunk_data@.len() == chunk_len(chunks@[j])
                },
        decreases chunks@.len() - k,
    {
        let c = copy_chunk_shape(&chunks[k]);
        let job = Job::new_job_from_piece_process(piece_index, c);
        jobs.push(job);
        k = k + 1;
    }
    jobs
}

/// A chunk with the number and size of `c` and no data.
fn copy_chunk_shape(c: &Chunk) -> (r: Chunk)
    ensures
        chunk_index(r) == chunk_index(*c),
        chunk_len(r) == chunk_len(*c),
{
    match c {
        Chunk::StandardChunk(i, _) => Chunk::StandardChunk(*i, Vec::new()),
        Chunk::PartialChunk(i, s, _) => Chunk::PartialChunk(*i, *s, Vec::new()),
    }
}

/// What a round of the job scheduler does with a piece it drew.
pub enum ScheduleOutcome {
    /// The piece is now scheduled; these are the jobs for its chunks.
    Scheduled(Vec<Job>),
    /// The plan holds no such piece; nothing is scheduled.
    Missing,
    /// A chunk of the piece has number 0, which no plan gives; nothing is
    /// scheduled.
    Unnumbered,
}

/// Whether every chunk of the plan entry `e` has a number from 1 on.
pub open spec fn entry_numbered(e: (usize, Seq<(bool, u32, u64)>, Seq<u8>)) -> bool {
    forall|j: int| 0 <= j < e.1.len() ==> (#[trigger] e.1[j]).1 >= 1
}

/// Every piece of a plan has its chunks numbered from 1, so a round of the
/// job scheduler on a plan never finds a chunk numbered 0.
pub proof fn lemma_planned_entries_numbered(size: int, piece_size: int, hashes: Seq<u8>, i: int)
    requires
        size >= 0,
        piece_size > 0,
        (piece_size / CHUNK_SIZE as int) < u32::MAX,
        0 <= i < ceil_div(size, piece_size),
    ensures
        entry_numbered(planned_entry(size, piece_size, hashes, i)),
{
    lemma_piece_count(size, piece_size);
    let last = ceil_div(size, piece_size) - 1;
    let rest = size - last * piece_size;
    let n = if i < last { piece_size / CHUNK_SIZE as int } else { rest / CHUNK_SIZE as int };
    assert(rest / CHUNK_SIZE as int <= piece_size / CHUNK_SIZE as int) by (nonlinear_arith)
        requires 0 < rest <= piece_size;
    assert(0 <= n < u32::MAX);
    let e = planned_entry(size, piece_size, hashes, i);
    assert forall|j: int| 0 <= j < e.1.len() implies (#[trigger] e.1[j]).1 >= 1 by {
        if j < n {
            assert(e.1[j] == standard_shapes(n)[j]);
        }
    }
}

/// A round of the job scheduler after it drew piece `index`, not yet
/// scheduled: when the plan `map` holds the piece, its chunks numbered from
/// 1, the piece is added to `scheduled` and the jobs for its chunks are
/// returned, one per chunk in order; otherwise nothing changes.
pub fn schedule_piece(map: &PieceStateMap, scheduled: &mut Vec<u32>, index: u32) -> (r: ScheduleOutcome)
    ensures
        ({
            let c = piece_state_contents(*map);
            let key = index as usize;
            match r {
                ScheduleOutcome::Missing => !c.contains_key(key) && final(scheduled)@ == old(scheduled)@,
                ScheduleOutcome::Unnumbered => c.contains_key(key) && !entry_numbered(c[key])
                    && final(scheduled)@ == old(scheduled)@,
                ScheduleOutcome::Scheduled(jobs) => {
                    let shapes = c[key].1;
                    &&& c.contains_key(key)
                    &&& entry_numbered(c[key])
                    &&& final(scheduled)@ == old(scheduled)@.push(index)
                    &&& jobs@.len() == shapes.len()
                    &&& forall|k: int|
                        0 <= k < jobs@.len() ==> {
                            &&& (#[trigger] jobs@[k]).index == index
                            &&& jobs@[k].length == shapes[k].2
                            &&& jobs@[k].begin == chunk_begin(shapes[k].1)
                            &&& jobs@[k].chunk_data@.len() == shapes[k].2
                        }
                },
            }
        }),
{
    let piece = match map.get_piece(index as usize) {
        Some(p) => p,
        None => {
            return ScheduleOutcome::Missing;
        },
    };
    let ghost shapes = piece.chunks@.map_values(|c: Chunk| chunk_shape(c));
    let mut k: usize = 0;
    while k < piece.chunks.len()
        invariant
            k <= piece.chunks@.len(),
            shapes == piece.chunks@.map_values(|c: Chunk| chunk_shape(c)),
            piece_state_contents(*map).contains_key(index as usize),
            piece_entry(piece) == piece_state_contents(*map)[index as usize],
            scheduled@ == old(scheduled)@,
            forall|j: int| 0 <= j < k ==> chunk_index(#[trigger] piece.chunks@[j]) >= 1,
        decreases piece.chunks@.len() - k,
    {
        let numbered = match &piece.chunks[k] {
            Chunk::StandardChunk(i, _) => *i >= 1,
            Chunk::PartialChunk(i, _, _) => *i >= 1,
        };
        if !numbered {
            proof {
                assert(shapes[k as int].1 == 0);
                assert(piece_entry(piece).1 == shapes);
                assert(piece_entry(piece).1[k as int].1 == 0);
                assert(!entry_numbered(piece_entry(piece)));
            }
            return ScheduleOutcome::Unnumbered;
        }
        k = k + 1;
    }
    proof {
        assert forall|j: int| 0 <= j < shapes.len() implies (#[trigger] shapes[j]).1 >= 1 by {
            assert(chunk_index(piece.chunks@[j]) >= 1);
        }
    }
    let jobs = jobs_for_piece(index, &piece.chunks);
    scheduled.push(index);
    proof {
        assert forall|k: int| 0 <= k < jobs@.len() implies {
            &&& (#[trigger] jobs@[k]).index == index
            &&& jobs@[k].length == shapes[k].2
            &&& jobs@[k].begin == chunk_begin(shapes[k].1)
            &&& jobs@[k].chunk_data@.len() == shapes[k].2
        } by {
            assert(shapes[k] == chunk_shape(piece.chunks@[k]));
        }
    }
    ScheduleOutcome::Scheduled(jobs)
}

} // verus!
