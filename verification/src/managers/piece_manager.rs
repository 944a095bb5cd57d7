//! Book-keeping of the blocks of one piece while it is downloaded: which
//! blocks are still needed, which are requested, the bytes received so far,
//! and the SHA-1 check of the finished piece.
use crate::bits::{BitField, bitfield_view};
use crate::hashing::{sha1_digest, sha1_of};
use std::collections::HashMap;
use vstd::prelude::*;

verus! {

broadcast use vstd::std_specs::hash::group_hash_axioms;

/// The size of a block, the unit in which a piece is requested from peers.
pub const BLOCK_SIZE: u64 = 16384;

/// How long a requested block stays reserved for the peer that asked for it,
/// in milliseconds; after that it may be requested again.
pub const BLOCK_TIMEOUT_MS: u64 = 5000;

/// The number of blocks of a piece of `p_len` bytes.
pub open spec fn block_count(p_len: int) -> int {
    if p_len % 16384 == 0 {
        p_len / 16384
    } else {
        p_len / 16384 + 1
    }
}

/// The size of the last block of a piece of `p_len` bytes.
pub open spec fn last_block_size(p_len: int) -> int {
    if p_len % 16384 == 0 {
        16384
    } else {
        p_len % 16384
    }
}

/// Whether block `i` may be requested: still required, not in flight, not downloaded.
pub open spec fn requestable(req: Seq<bool>, fl: Seq<bool>, dl: Seq<bool>, i: int) -> bool {
    req[i] && !fl[i] && !dl[i]
}

/// The blocks below `upto` that a request for `n` blocks picks: the
/// requestable blocks in increasing order, at most `n` of them.
pub open spec fn pick(req: Seq<bool>, fl: Seq<bool>, dl: Seq<bool>, upto: int, n: int) -> Seq<int>
    decreases upto,
{
    if upto <= 0 {
        Seq::empty()
    } else {
        let s = pick(req, fl, dl, upto - 1, n);
        if s.len() < n && requestable(req, fl, dl, upto - 1) {
            s.push(upto - 1)
        } else {
            s
        }
    }
}

/// Milliseconds from `t` to `now`, zero when `now` is earlier.
pub open spec fn elapsed(now: u64, t: u64) -> int {
    if now >= t {
        now - t
    } else {
        0
    }
}

/// `data` with `block` written at `start`, when it fits; else `data` unchanged.
pub open spec fn write_block(data: Seq<u8>, start: int, block: Seq<u8>) -> Seq<u8> {
    if start + block.len() <= data.len() {
        Seq::new(
            data.len(),
            |i: int|
                if start <= i < start + block.len() {
                    block[i - start]
                } else {
                    data[i]
                },
        )
    } else {
        data
    }
}

/// The download state of one piece.
pub struct PieceRequestManagerActor {
    /// When each in-flight block was requested (milliseconds).
    in_flight_timers: HashMap<u64, u64>,
    last_piece_size: u64,
    /// The blocks received so far.
    downloaded_blocks: BitField,
    /// The blocks requested but not received yet.
    blocks_in_flight: BitField,
    /// The blocks still needed.
    required_blocks: BitField,
    data: Vec<u8>,
    hash: Vec<u8>,
}

impl PieceRequestManagerActor {
    pub closed spec fn downloaded(&self) -> Seq<bool> {
        bitfield_view(self.downloaded_blocks)
    }

    pub closed spec fn in_flight(&self) -> Seq<bool> {
        bitfield_view(self.blocks_in_flight)
    }

    pub closed spec fn required(&self) -> Seq<bool> {
        bitfield_view(self.required_blocks)
    }

    pub closed spec fn timers(&self) -> Map<u64, u64> {
        self.in_flight_timers@
    }

    pub closed spec fn piece_data(&self) -> Seq<u8> {
        self.data@
    }

    pub closed spec fn expected_hash(&self) -> Seq<u8> {
        self.hash@
    }

    pub closed spec fn last_size(&self) -> u64 {
        self.last_piece_size
    }

    /// The number of blocks of the piece.
    pub open spec fn num_blocks(&self) -> int {
        block_count(self.piece_data().len() as int)
    }

    /// The size of block `i`: a full block, except the last.
    pub open spec fn block_size(&self, i: int) -> u64 {
        if i == self.num_blocks() - 1 {
            self.last_size()
        } else {
            16384
        }
    }

    /// The state is consistent: one bit per block in each bit-vector, a block
    /// is required exactly when it is not downloaded, a block in flight is not
    /// downloaded, and exactly the blocks in flight have a request time.
    pub open spec fn wf(&self) -> bool {
        let n = self.num_blocks();
        &&& n <= usize::MAX / 8
        &&& self.piece_data().len() <= usize::MAX
        &&& self.required().len() == n
        &&& self.in_flight().len() == n
        &&& self.downloaded().len() == n
        &&& self.last_size() == last_block_size(self.piece_data().len() as int)
        &&& forall|i: int| 0 <= i < n ==> self.required()[i] == !self.downloaded()[i]
        &&& forall|i: int| 0 <= i < n && self.in_flight()[i] ==> !self.downloaded()[i]
        &&& forall|k: u64| #[trigger] self.timers().contains_key(k) ==> k < n && self.in_flight()[k as int]
        &&& forall|i: int| 0 <= i < n && self.in_flight()[i] ==> self.timers().contains_key(i as u64)
    }

    /// A piece of `p_len` bytes with digest `hash`: every block required,
    /// none in flight or downloaded, and its bytes all zero.
    pub fn new(p_len: u64, hash: Vec<u8>) -> (r: Self)
        requires
            p_len <= usize::MAX,
            block_count(p_len as int) <= usize::MAX / 8,
        ensures
            r.wf(),
            r.piece_data() == Seq::new(p_len as nat, |i: int| 0u8),
            r.expected_hash() == hash@,
            r.required() == Seq::new(block_count(p_len as int) as nat, |i: int| true),
            r.in_flight() == Seq::new(block_count(p_len as int) as nat, |i: int| false),
            r.downloaded() == Seq::new(block_count(p_len as int) as nat, |i: int| false),
            r.timers() == Map::<u64, u64>::empty(),
    {
        let last_block_size = p_len % 16384;
        let no_of_blocks = if last_block_size == 0 {
            p_len / 16384
        } else {
            p_len / 16384 + 1
        };
        let n = no_of_blocks as usize;
        let mut req_p = BitField::zeroed(n);
        let mut i: usize = 0;
        while i < n
            invariant
                i <= n,
                bitfield_view(req_p) == Seq::new(n as nat, |k: int| k < i),
            decreases n - i,
        {
            req_p.set(i, true);
            i = i + 1;
            proof {
                assert(bitfield_view(req_p) =~= Seq::new(n as nat, |k: int| k < i));
            }
        }
        let mut data: Vec<u8> = Vec::new();
        data.resize(p_len as usize, 0u8);
        let r = PieceRequestManagerActor {
            in_flight_timers: HashMap::new(),
            last_piece_size: if last_block_size == 0 {
                16384
            } else {
                last_block_size
            },
            downloaded_blocks: BitField::zeroed(n),
            blocks_in_flight: BitField::zeroed(n),
            required_blocks: req_p,
            data,
            hash,
        };
        proof {
            assert(r.piece_data() =~= Seq::new(p_len as nat, |i: int| 0u8));
            assert(r.required() =~= Seq::new(block_count(p_len as int) as nat, |i: int| true));
        }
        r
    }

    /// The blocks that a request for `n` blocks picks from this state.
    pub open spec fn picked(&self, n: int) -> Seq<int> {
        pick(self.required(), self.in_flight(), self.downloaded(), self.num_blocks(), n)
    }

    /// Picks up to `number_of_blocks` requestable blocks, lowest index first,
    /// marks them in flight as requested at `now`, and returns the byte offset
    /// and size of each.
    pub fn blocks_to_request(&mut self, number_of_blocks: u32, now: u64) -> (r: Vec<(u64, u64)>)
        requires
            old(self).wf(),
        ensures
            final(self).wf(),
            r@.len() == old(self).picked(number_of_blocks as int).len(),
            forall|k: int|
                0 <= k < r@.len() ==> #[trigger] r@[k] == (
                    (old(self).picked(number_of_blocks as int)[k] * 16384) as u64,
                    old(self).block_size(old(self).picked(number_of_blocks as int)[k]),
                ),
            final(self).in_flight() == Seq::new(
                old(self).in_flight().len(),
                |i: int| old(self).in_flight()[i] || old(self).picked(number_of_blocks as int).contains(i),
            ),
            final(self).timers() == old(self).timers().union_prefer_right(
                Map::new(
                    |k: u64| old(self).picked(number_of_blocks as int).contains(k as int),
                    |k: u64| now,
                ),
            ),
            final(self).required() == old(self).required(),
            final(self).downloaded() == old(self).downloaded(),
            final(self).piece_data() == old(self).piece_data(),
            final(self).expected_hash() == old(self).expected_hash(),
            final(self).last_size() == old(self).last_size(),
    {
        let ghost req = self.required();
        let ghost fl = self.in_flight();
        let ghost dl = self.downloaded();
        let ghost t0 = self.timers();
        let ghost n = number_of_blocks as int;
        let ghost nb = self.num_blocks();
        let mut requests_block_index: Vec<(u64, u64)> = Vec::new();
        let len = self.required_blocks.len();
        proof {
            lemma_pick_props(req, fl, dl, nb, n);
        }
        let mut idx: usize = 0;
        while idx < len
            invariant_except_break
                idx <= len,
                len == nb,
                n == number_of_blocks as int,
                self.wf(),
                self.required() == req,
                self.downloaded() == dl,
                self.piece_data() == old(self).piece_data(),
                self.expected_hash() == old(self).expected_hash(),
                self.last_size() == old(self).last_size(),
                req.len() == nb && fl.len() == nb && dl.len() == nb,
                requests_block_index@.len() == pick(req, fl, dl, idx as int, n).len(),
                forall|k: int|
                    0 <= k < requests_block_index@.len() ==> #[trigger] requests_block_index@[k] == (
                        (pick(req, fl, dl, idx as int, n)[k] * 16384) as u64,
                        old(self).block_size(pick(req, fl, dl, idx as int, n)[k]),
                    ),
                self.in_flight() == Seq::new(
                    nb as nat,
                    |i: int| fl[i] || pick(req, fl, dl, idx as int, n).contains(i),
                ),
                self.timers() == t0.union_prefer_right(
                    Map::new(
                        |k: u64| pick(req, fl, dl, idx as int, n).contains(k as int),
                        |k: u64| now,
                    ),
                ),
                forall|i: int| idx <= i < nb ==> self.in_flight()[i] == fl[i],
            ensures
                requests_block_index@.len() == pick(req, fl, dl, nb, n).len(),
                forall|k: int|
                    0 <= k < requests_block_index@.len() ==> #[trigger] requests_block_index@[k] == (
                        (pick(req, fl, dl, nb, n)[k] * 16384) as u64,
                        old(self).block_size(pick(req, fl, dl, nb, n)[k]),
                    ),
                self.in_flight() == Seq::new(
                    nb as nat,
                    |i: int| fl[i] || pick(req, fl, dl, nb, n).contains(i),
                ),
                self.timers() == t0.union_prefer_right(
                    Map::new(|k: u64| pick(req, fl, dl, nb, n).contains(k as int), |k: u64| now),
                ),
                self.wf(),
                self.required() == req,
                self.downloaded() == dl,
                self.piece_data() == old(self).piece_data(),
                self.expected_hash() == old(self).expected_hash(),
                self.last_size() == old(self).last_size(),
            decreases len - idx,
        {
            if requests_block_index.len() >= number_of_blocks as usize {
                proof {
                    lemma_pick_saturated(req, fl, dl, idx as int, nb, n);
                }
                break;
            }
            let ghost before = pick(req, fl, dl, idx as int, n);
            proof {
                lemma_pick_props(req, fl, dl, idx as int, n);
            }
            let r_bit = self.required_blocks.get(idx);
            let f_bit = self.blocks_in_flight.get(idx);
            let d_bit = self.downloaded_blocks.get(idx);
            if r_bit == Some(true) && f_bit == Some(false) && d_bit == Some(false) {
                let block_size = if idx == len - 1 {
                    self.last_piece_size
                } else {
                    16384
                };
                proof {
                    lemma_block_start_in_piece(idx as int, self.piece_data().len() as int);
                }
                requests_block_index.push((Self::convert_block_index_to_offset(idx), block_size));
                self.blocks_in_flight.set(idx, true);
                self.in_flight_timers.insert(idx as u64, now);
                proof {
                    let after = pick(req, fl, dl, idx + 1, n);
                    assert(after == before.push(idx as int));
                    assert forall|i: int| 0 <= i < nb implies #[trigger] self.in_flight()[i] == (fl[i]
                        || after.contains(i)) by {
                        if i == idx {
                            assert(after[after.len() - 1] == idx);
                        } else {
                            if after.contains(i) {
                                let k = choose|k: int| 0 <= k < after.len() && after[k] == i;
                                assert(k < before.len());
                                assert(before.contains(i));
                            }
                            if before.contains(i) {
                                let k = choose|k: int| 0 <= k < before.len() && before[k] == i;
                                assert(after[k] == i);
                            }
                        }
                    }
                    assert(self.in_flight() =~= Seq::new(nb as nat, |i: int| fl[i] || after.contains(i)));
                    assert forall|k: u64| true implies (#[trigger] after.contains(k as int)) == (
                    before.contains(k as int) || k == idx as u64) by {
                        if after.contains(k as int) && k != idx as u64 {
                            let j = choose|j: int| 0 <= j < after.len() && after[j] == k as int;
                            assert(j < before.len());
                            assert(before[j] == k as int);
                        }
                        if before.contains(k as int) {
                            let j = choose|j: int| 0 <= j < before.len() && before[j] == k as int;
                            assert(after[j] == k as int);
                        }
                        if k == idx as u64 {
                            assert(after[after.len() - 1] == idx);
                        }
                    }
                    assert(self.timers() =~= t0.union_prefer_right(
                        Map::new(|k: u64| after.contains(k as int), |k: u64| now),
                    ));
                    assert forall|k: int| 0 <= k < requests_block_index@.len() implies #[trigger] requests_block_index@[k] == (
                        (after[k] * 16384) as u64,
                        old(self).block_size(after[k]),
                    ) by {
                        if k < before.len() {
                            assert(after[k] == before[k]);
                        }
                    }
                }
            } else {
                proof {
                    assert(pick(req, fl, dl, idx + 1, n) == before);
                }
            }
            idx = idx + 1;
        }
        requests_block_index
    }

    /// Records block `block_offset / 16384` as received with bytes `block`:
    /// it is no longer required nor in flight, and it is downloaded; the
    /// bytes are written at the block's start when they fit in the piece.
    /// When every block is then downloaded, the SHA-1 digest of the piece is
    /// checked: on a match the result is `true`; on a mismatch every block is
    /// required again (nothing in flight, nothing downloaded) and the result
    /// is `false`.  While blocks are missing the result is `false`.
    pub fn block_received(&mut self, block_offset: usize, block: &[u8]) -> (r: bool)
        requires
            old(self).wf(),
            block_offset / 16384 < old(self).num_blocks(),
            (block_offset / 16384) * 16384 + block@.len() <= u64::MAX,
        ensures
            final(self).wf(),
            ({
                let bi = block_offset as int / 16384;
                let dl = old(self).downloaded().update(bi, true);
                let data = write_block(old(self).piece_data(), bi * 16384, block@);
                let complete = forall|i: int| 0 <= i < dl.len() ==> dl[i];
                let verified = complete && sha1_of(data) == old(self).expected_hash();
                &&& r == verified
                &&& final(self).piece_data() == data
                &&& final(self).expected_hash() == old(self).expected_hash()
                &&& final(self).last_size() == old(self).last_size()
                &&& (complete && !verified) ==> {
                    &&& final(self).downloaded() == Seq::new(dl.len(), |i: int| false)
                    &&& final(self).required() == Seq::new(dl.len(), |i: int| true)
                    &&& final(self).in_flight() == Seq::new(dl.len(), |i: int| false)
                    &&& final(self).timers() == Map::<u64, u64>::empty()
                }
                &&& !(complete && !verified) ==> {
                    &&& final(self).downloaded() == dl
                    &&& final(self).required() == old(self).required().update(bi, false)
                    &&& final(self).in_flight() == old(self).in_flight().update(bi, false)
                    &&& final(self).timers() == old(self).timers().remove(bi as u64)
                }
            }),
    {
        let block_index = Self::convert_block_offset_to_index(block_offset);
        let ghost bi = block_index as int;
        self.in_flight_timers.remove(&(block_index as u64));
        self.required_blocks.set(block_index, false);
        self.blocks_in_flight.set(block_index, false);
        self.downloaded_blocks.set(block_index, true);
        proof {
            lemma_block_start_in_piece(bi, self.piece_data().len() as int);
        }
        let data_start_index = block_index as u64 * 16384;
        let end = data_start_index + block.len() as u64;
        let ghost old_data = self.data@;
        if end <= self.data.len() as u64 {
            write_bytes(&mut self.data, data_start_index as usize, block);
            proof {
                assert(self.data@ =~= write_block(old_data, bi * 16384, block@));
            }
        }
        proof {
            assert(self.timers() =~= old(self).timers().remove(bi as u64));
            assert(self.data@ == write_block(old(self).piece_data(), bi * 16384, block@));
            assert(self.downloaded() == old(self).downloaded().update(bi, true));
            assert(self.wf());
        }
        if self.downloaded_blocks.all() {
            let digest = sha1_digest(self.data.as_slice());
            if bytes_equal(&digest, self.hash.as_slice()) {
                return true;
            } else {
                self.downloaded_blocks.fill(false);
                self.required_blocks.fill(true);
                self.blocks_in_flight.fill(false);
                self.in_flight_timers.clear();
                proof {
                    assert(self.timers() =~= Map::<u64, u64>::empty());
                }
            }
        }
        proof {
            assert(self.timers() =~= old(self).timers().remove(bi as u64) || self.timers()
                =~= Map::<u64, u64>::empty());
        }
        false
    }

    /// The bytes `[start_offset, end_offset)` of the piece, or nothing when
    /// that range is not inside the piece.
    pub fn get_data(&self, start_offset: u64, end_offset: u64) -> (r: Vec<u8>)
        ensures
            r@ == if end_offset <= self.piece_data().len() && start_offset <= end_offset {
                self.piece_data().subrange(start_offset as int, end_offset as int)
            } else {
                Seq::empty()
            },
    {
        if end_offset <= self.data.len() as u64 && start_offset <= end_offset {
            copy_range(self.data.as_slice(), start_offset as usize, end_offset as usize)
        } else {
            Vec::new()
        }
    }

    /// The `len` bytes of the piece starting at `start_offset`, or nothing
    /// when they are not all inside the piece.
    pub fn get_data_with_len(&self, start_offset: u64, len: u64) -> (r: Vec<u8>)
        requires
            start_offset + len <= u64::MAX,
        ensures
            r@ == if start_offset + len <= self.piece_data().len() {
                self.piece_data().subrange(start_offset as int, start_offset + len)
            } else {
                Seq::empty()
            },
    {
        let end = start_offset + len;
        if end <= self.data.len() as u64 && start_offset <= end {
            copy_range(self.data.as_slice(), start_offset as usize, end as usize)
        } else {
            Vec::new()
        }
    }

    /// Releases the blocks requested more than `BLOCK_TIMEOUT_MS` before
    /// `now`: they are no longer in flight and may be requested again.
    pub fn expire_requests(&mut self, now: u64)
        requires
            old(self).wf(),
        ensures
            final(self).wf(),
            final(self).in_flight() == Seq::new(
                old(self).in_flight().len(),
                |i: int|
                    old(self).in_flight()[i] && !(elapsed(now, old(self).timers()[i as u64])
                        > BLOCK_TIMEOUT_MS),
            ),
            final(self).timers() == old(self).timers().restrict(
                Set::new(|k: u64| !(elapsed(now, old(self).timers()[k]) > BLOCK_TIMEOUT_MS)),
            ),
            final(self).required() == old(self).required(),
            final(self).downloaded() == old(self).downloaded(),
            final(self).piece_data() == old(self).piece_data(),
            final(self).expected_hash() == old(self).expected_hash(),
            final(self).last_size() == old(self).last_size(),
    {
        let ghost fl = self.in_flight();
        let ghost t0 = self.timers();
        let ghost keep = Set::new(|k: u64| !(elapsed(now, t0[k]) > BLOCK_TIMEOUT_MS));
        let n = self.blocks_in_flight.len();
        let mut i: usize = 0;
        while i < n
            invariant
                i <= n,
                n == old(self).num_blocks(),
                self.wf(),
                fl == old(self).in_flight(),
                t0 == old(self).timers(),
                keep == Set::new(|k: u64| !(elapsed(now, t0[k]) > BLOCK_TIMEOUT_MS)),
                self.required() == old(self).required(),
                self.downloaded() == old(self).downloaded(),
                self.piece_data() == old(self).piece_data(),
                self.expected_hash() == old(self).expected_hash(),
                self.last_size() == old(self).last_size(),
                self.in_flight() == Seq::new(
                    n as nat,
                    |j: int| fl[j] && (j >= i || !(elapsed(now, t0[j as u64]) > BLOCK_TIMEOUT_MS)),
                ),
                self.timers() == t0.restrict(Set::new(|k: u64| k >= i || keep.contains(k))),
            decreases n - i,
        {
            let key = i as u64;
            match self.in_flight_timers.get(&key) {
                Some(t) => {
                    let t = *t;
                    let waited = if now >= t {
                        now - t
                    } else {
                        0
                    };
                    if waited > BLOCK_TIMEOUT_MS {
                        self.blocks_in_flight.set(i, false);
                        self.in_flight_timers.remove(&key);
                    }
                },
                None => {},
            }
            proof {
                assert(self.in_flight() =~= Seq::new(
                    n as nat,
                    |j: int| fl[j] && (j >= i + 1 || !(elapsed(now, t0[j as u64]) > BLOCK_TIMEOUT_MS)),
                ));
                assert(self.timers() =~= t0.restrict(Set::new(|k: u64| k >= i + 1 || keep.contains(k))));
            }
            i = i + 1;
        }
        proof {
            assert(self.timers() =~= t0.restrict(keep));
        }
    }

    /// The index of the block that starts at byte `offset` of the piece.
    pub fn convert_block_offset_to_index(offset: usize) -> (r: usize)
        ensures
            r == offset / 16384,
    {
        offset / 16384
    }

    /// The byte offset within the piece at which block `index` starts.
    pub fn convert_block_index_to_offset(index: usize) -> (r: u64)
        requires
            index * 16384 <= u64::MAX,
        ensures
            r == index * 16384,
    {
        (index as u64) * 16384
    }
}

/// Overwrites `data[start .. start + block.len()]` with `block`.
pub fn write_bytes(data: &mut Vec<u8>, start: usize, block: &[u8])
    requires
        start + block@.len() <= old(data)@.len(),
    ensures
        final(data)@ == write_block(old(data)@, start as int, block@),
{
    let ghost old_data = data@;
    let _ = data.len();
    let mut i: usize = 0;
    while i < block.len()
        invariant
            i <= block@.len(),
            old_data.len() <= usize::MAX,
            start + block@.len() <= data@.len(),
            data@.len() == old_data.len(),
            forall|j: int|
                0 <= j < data@.len() ==> #[trigger] data@[j] == if start <= j < start + i {
                    block@[j - start]
                } else {
                    old_data[j]
                },
        decreases block@.len() - i,
    {
        data.set(start + i, block[i]);
        i = i + 1;
    }
    proof {
        assert(data@ =~= write_block(old_data, start as int, block@));
    }
}

/// Whether two byte strings are equal.
pub fn bytes_equal(a: &[u8], b: &[u8]) -> (r: bool)
    ensures
        r == (a@ == b@),
{
    if a.len() != b.len() {
        return false;
    }
    let mut i: usize = 0;
    while i < a.len()
        invariant
            a@.len() == b@.len(),
            i <= a@.len(),
            forall|j: int| 0 <= j < i ==> a@[j] == b@[j],
        decreases a@.len() - i,
    {
        if a[i] != b[i] {
            return false;
        }
        i = i + 1;
    }
    proof {
        assert(a@ =~= b@);
    }
    true
}

/// Copies `data[start .. end]` into a new vector.
pub fn copy_range(data: &[u8], start: usize, end: usize) -> (r: Vec<u8>)
    requires
        start <= end <= data@.len(),
    ensures
        r@ == data@.subrange(start as int, end as int),
{
    let mut r: Vec<u8> = Vec::new();
    let mut i = start;
    while i < end
        invariant
            start <= i <= end,
            end <= data@.len(),
            r@ == data@.subrange(start as int, i as int),
        decreases end - i,
    {
        r.push(data[i]);
        i = i + 1;
        proof {
            assert(r@ =~= data@.subrange(start as int, i as int));
        }
    }
    r
}

/// Every block starts inside (or at the end of) the piece.
pub proof fn lemma_block_start_in_piece(i: int, p_len: int)
    requires
        0 <= i < block_count(p_len),
        0 <= p_len,
    ensures
        i * 16384 <= p_len,
{
    assert(i * 16384 <= p_len) by (nonlinear_arith)
        requires
            0 <= i,
            0 <= p_len,
            p_len % 16384 == 0 ==> i < p_len / 16384,
            p_len % 16384 != 0 ==> i < p_len / 16384 + 1,
    ;
}

/// Once `n` blocks are picked, looking further picks nothing more.
proof fn lemma_pick_saturated(req: Seq<bool>, fl: Seq<bool>, dl: Seq<bool>, u: int, v: int, n: int)
    requires
        0 <= u <= v,
        pick(req, fl, dl, u, n).len() >= n,
    ensures
        pick(req, fl, dl, v, n) == pick(req, fl, dl, u, n),
    decreases v - u,
{
    if u < v {
        lemma_pick_saturated(req, fl, dl, u, v - 1, n);
    }
}

/// The picked blocks are requestable, below `upto`, and increasing.
pub proof fn lemma_pick_props(req: Seq<bool>, fl: Seq<bool>, dl: Seq<bool>, upto: int, n: int)
    requires
        0 <= upto,
        0 <= n,
    ensures
        pick(req, fl, dl, upto, n).len() <= n,
        forall|k: int|
            0 <= k < pick(req, fl, dl, upto, n).len() ==> 0 <= #[trigger] pick(req, fl, dl, upto, n)[k]
                < upto && requestable(req, fl, dl, pick(req, fl, dl, upto, n)[k]),
        forall|k1: int, k2: int|
            0 <= k1 < k2 < pick(req, fl, dl, upto, n).len() ==> pick(req, fl, dl, upto, n)[k1]
                < pick(req, fl, dl, upto, n)[k2],
    decreases upto,
{
    if upto > 0 {
        lemma_pick_props(req, fl, dl, upto - 1, n);
    }
}

/// The pick takes every block it can: when it picks fewer than `n` blocks,
/// every block below `upto` that is required, not in flight and not
/// downloaded is picked; and every such block below a picked one is picked.
pub proof fn lemma_pick_maximal(req: Seq<bool>, fl: Seq<bool>, dl: Seq<bool>, upto: int, n: int)
    requires
        0 <= upto,
        0 <= n,
    ensures
        pick(req, fl, dl, upto, n).len() < n ==> forall|i: int|
            0 <= i < upto && req[i] && !fl[i] && !dl[i] ==> #[trigger] pick(req, fl, dl, upto, n).contains(i),
        forall|k: int, i: int|
            0 <= k < pick(req, fl, dl, upto, n).len() && 0 <= i < #[trigger] pick(req, fl, dl, upto, n)[k] && #[trigger] req[i]
                && !fl[i] && !dl[i] ==> pick(req, fl, dl, upto, n).contains(i),
    decreases upto,
{
    if upto > 0 {
        lemma_pick_maximal(req, fl, dl, upto - 1, n);
        lemma_pick_props(req, fl, dl, upto - 1, n);
        let s = pick(req, fl, dl, upto - 1, n);
        let p = pick(req, fl, dl, upto, n);
        if s.len() < n && requestable(req, fl, dl, upto - 1) {
            assert(p == s.push(upto - 1));
            assert forall|i: int| 0 <= i < upto && req[i] && !fl[i] && !dl[i] implies #[trigger] p.contains(i) by {
                if i < upto - 1 {
                    assert(s.contains(i));
                    let j = choose|j: int| 0 <= j < s.len() && s[j] == i;
                    assert(p[j] == i);
                } else {
                    assert(p[s.len() as int] == i);
                }
            }
            assert forall|k: int, i: int|
                0 <= k < p.len() && 0 <= i < #[trigger] p[k] && #[trigger] req[i] && !fl[i] && !dl[i] implies p.contains(i) by {
                if k < s.len() {
                    assert(p[k] == s[k]);
                    assert(s.contains(i));
                    let j = choose|j: int| 0 <= j < s.len() && s[j] == i;
                    assert(p[j] == i);
                } else {
                    assert(p[k] == upto - 1);
                    assert(s.contains(i));
                    let j = choose|j: int| 0 <= j < s.len() && s[j] == i;
                    assert(p[j] == i);
                }
            }
        } else {
            assert(p == s);
            if p.len() < n {
                assert(!requestable(req, fl, dl, upto - 1));
            }
        }
    }
}

/// A block handed out by one request is not handed out by the next while
/// it is in flight: once the blocks picked for a request of `n1` are marked
/// in flight, a request of `n2` picks none of them.
pub proof fn lemma_no_block_twice(req: Seq<bool>, fl: Seq<bool>, dl: Seq<bool>, upto: int, n1: int, n2: int)
    requires
        0 <= upto <= fl.len(),
        0 <= n1,
        0 <= n2,
    ensures
        ({
            let first = pick(req, fl, dl, upto, n1);
            let fl2 = Seq::new(fl.len(), |i: int| fl[i] || first.contains(i));
            forall|k: int|
                0 <= k < pick(req, fl2, dl, upto, n2).len() ==> !first.contains(
                    #[trigger] pick(req, fl2, dl, upto, n2)[k],
                )
        }),
{
    let first = pick(req, fl, dl, upto, n1);
    let fl2 = Seq::new(fl.len(), |i: int| fl[i] || first.contains(i));
    lemma_pick_props(req, fl2, dl, upto, n2);
    assert forall|k: int| 0 <= k < pick(req, fl2, dl, upto, n2).len() implies !first.contains(
        #[trigger] pick(req, fl2, dl, upto, n2)[k],
    ) by {
        let x = pick(req, fl2, dl, upto, n2)[k];
        assert(requestable(req, fl2, dl, x));
        assert(!fl2[x]);
    }
}

} // verus!
