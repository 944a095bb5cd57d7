//! The decisions of a torrent's manager: how rare each piece is among the
//! peers, which piece a peer should download next (rarest first), which
//! pieces are assigned to which peer, and what is done when a piece is finished.
use crate::bits::{BitField, bitfield_view, count_true, lists_set_positions};
use crate::managers::piece_manager::elapsed;
use crate::managers::peer_table::PeerTable;
use crate::models::peer_settings::PeerOptions;
use std::collections::{HashMap, HashSet};
use vstd::prelude::*;

verus! {

broadcast use vstd::std_specs::hash::group_hash_axioms;

/// What a work request finds: no piece for the peer, a piece whose
/// download is in progress already, or a piece whose download is to be made.
pub enum WorkChoice {
    NoWork,
    Existing(usize),
    Fresh(usize),
}

/// The number of rarity buckets; pieces held by more peers share the last one.
pub const RARITY_BUCKETS: usize = 256;

/// The frequency a piece has after one more peer is seen holding it.
pub open spec fn bumped(f: int) -> int {
    if f + 1 < 255 {
        f + 1
    } else {
        255
    }
}

/// Whether the bitfields `bf` record piece `i` for peer `p`.
pub open spec fn announces(bf: Map<Seq<char>, Seq<bool>>, p: Seq<char>, i: int) -> bool {
    bf.contains_key(p) && 0 <= i < bf[p].len() && bf[p][i]
}

/// How many of the peers `ps` have piece `i` recorded in `bf`.
pub open spec fn holder_count(ps: Seq<Seq<char>>, bf: Map<Seq<char>, Seq<bool>>, i: int) -> int
    decreases ps.len(),
{
    if ps.len() == 0 {
        0
    } else {
        holder_count(ps.drop_last(), bf, i) + if announces(bf, ps.last(), i) {
            1int
        } else {
            0int
        }
    }
}

/// Replacing the bitfield of `peer` changes the count of holders of piece
/// `i` among distinct peers `ps` by what it changes for `peer`, if listed.
proof fn lemma_holder_count_replace(
    ps: Seq<Seq<char>>,
    bf: Map<Seq<char>, Seq<bool>>,
    peer: Seq<char>,
    b: Seq<bool>,
    i: int,
)
    requires
        ps.no_duplicates(),
    ensures
        holder_count(ps, bf.insert(peer, b), i) == holder_count(ps, bf, i) + if ps.contains(peer) {
            (if 0 <= i < b.len() && b[i] {
                1int
            } else {
                0int
            }) - (if announces(bf, peer, i) {
                1int
            } else {
                0int
            })
        } else {
            0int
        },
    decreases ps.len(),
{
    if ps.len() > 0 {
        let rest = ps.drop_last();
        let q = ps.last();
        assert(rest.no_duplicates()) by {
            assert forall|a: int, c: int| 0 <= a < c < rest.len() implies rest[a] != rest[c] by {
                assert(rest[a] == ps[a] && rest[c] == ps[c]);
            }
        }
        lemma_holder_count_replace(rest, bf, peer, b, i);
        if q == peer {
            assert(!rest.contains(peer)) by {
                if rest.contains(peer) {
                    let a = choose|a: int| 0 <= a < rest.len() && rest[a] == peer;
                    assert(ps[a] == ps[ps.len() - 1]);
                }
            }
            assert(ps.contains(peer)) by {
                assert(ps[ps.len() - 1] == peer);
            }
        } else {
            assert(ps.contains(peer) == rest.contains(peer)) by {
                if ps.contains(peer) {
                    let a = choose|a: int| 0 <= a < ps.len() && ps[a] == peer;
                    assert(a < ps.len() - 1);
                    assert(rest[a] == peer);
                }
                if rest.contains(peer) {
                    let a = choose|a: int| 0 <= a < rest.len() && rest[a] == peer;
                    assert(ps[a] == peer);
                }
            }
        }
    }
}

/// Frequencies and buckets agree: one frequency (at most 255) for each of
/// the `n` pieces, 256 buckets, bucket 0 empty, and piece `x` in bucket
/// `b >= 1` exactly when its frequency is `b`.
pub open spec fn rarity_consistent(freq: Seq<usize>, buckets: Seq<Set<usize>>, n: int) -> bool {
    &&& freq.len() == n
    &&& buckets.len() == 256
    &&& forall|i: int| 0 <= i < n ==> #[trigger] freq[i] <= 255
    &&& forall|x: usize| !#[trigger] buckets[0].contains(x)
    &&& forall|b: int, x: usize|
        1 <= b < 256 ==> (#[trigger] buckets[b].contains(x) <==> (x < n && freq[x as int] == b))
}

/// One more peer holds piece `idx`: its frequency goes up by one (capped
/// at 255) and it moves to the bucket of its new frequency.
fn bump_frequency(freq: &mut Vec<usize>, buckets: &mut Vec<HashSet<usize>>, idx: usize, Ghost(n): Ghost<int>)
    requires
        rarity_consistent(old(freq)@, old(buckets)@.map_values(|b: HashSet<usize>| b@), n),
        idx < n,
    ensures
        rarity_consistent(final(freq)@, final(buckets)@.map_values(|b: HashSet<usize>| b@), n),
        final(freq)@ == old(freq)@.update(idx as int, bumped(old(freq)@[idx as int] as int) as usize),
{
    let old_freq = freq[idx];
    let new_freq = if old_freq + 1 < 255 { old_freq + 1 } else { 255 };
    let ghost f0 = freq@;
    let ghost b0 = buckets@.map_values(|b: HashSet<usize>| b@);
    let ob = if old_freq < 255 { old_freq } else { 255 };
    buckets[ob].remove(&idx);
    buckets[new_freq].insert(idx);
    freq.set(idx, new_freq);
    proof {
        let f1 = freq@;
        let b1 = buckets@.map_values(|b: HashSet<usize>| b@);
        assert(b1.len() == 256);
        assert forall|b: int, x: usize| 1 <= b < 256 implies (#[trigger] b1[b].contains(x) <==> (x < n
            && f1[x as int] == b)) by {
            assert(b0[b].contains(x) <==> (x < n && f0[x as int] == b));
        }
        assert forall|x: usize| !#[trigger] b1[0].contains(x) by {
            assert(!b0[0].contains(x));
        }
    }
}

/// The entries of a work list that are not for piece `index`.
pub open spec fn other_piece(index: usize) -> spec_fn((usize, u64)) -> bool {
    |e: (usize, u64)| e.0 != index
}

/// `w` without its entries for piece `index`, in the same order.
pub fn without_piece(w: &Vec<(usize, u64)>, index: usize) -> (r: Vec<(usize, u64)>)
    ensures
        r@ == w@.filter(other_piece(index)),
{
    let mut r: Vec<(usize, u64)> = Vec::new();
    let mut k: usize = 0;
    while k < w.len()
        invariant
            k <= w@.len(),
            r@ == w@.subrange(0, k as int).filter(other_piece(index)),
        decreases w@.len() - k,
    {
        proof {
            reveal(Seq::filter);
            assert(w@.subrange(0, k + 1).drop_last() =~= w@.subrange(0, k as int));
        }
        if w[k].0 != index {
            r.push(w[k]);
        }
        k = k + 1;
    }
    proof {
        assert(w@.subrange(0, k as int) =~= w@);
    }
    r
}

/// Whether an assigned piece stays with its peer: we do not hold it and its
/// assignment is at most `timeout` ms old.
pub open spec fn stays_assigned(local: Seq<bool>, now: u64, timeout: int) -> spec_fn((usize, u64)) -> bool {
    |e: (usize, u64)| !local[e.0 as int] && !(elapsed(now, e.1) > timeout)
}

/// The concurrency counts after the timed-out assignments of `w` are taken
/// back, in order: each takes one from its piece's count while it is positive.
pub open spec fn counts_after_timeouts(
    counts: Map<usize, usize>,
    w: Seq<(usize, u64)>,
    local: Seq<bool>,
    now: u64,
    timeout: int,
) -> Map<usize, usize>
    decreases w.len(),
{
    if w.len() == 0 {
        counts
    } else {
        let c = counts_after_timeouts(counts, w.drop_last(), local, now, timeout);
        let e = w.last();
        if !local[e.0 as int] && elapsed(now, e.1) > timeout && c.contains_key(e.0) && c[e.0] > 0 {
            c.insert(e.0, (c[e.0] - 1) as usize)
        } else {
            c
        }
    }
}

/// How many assignments of `w` for piece `x` time out: those of a piece we
/// do not hold that are more than `timeout` ms old at time `now`.
pub open spec fn timed_out_count(w: Seq<(usize, u64)>, local: Seq<bool>, now: u64, timeout: int, x: usize) -> int {
    w.filter(|e: (usize, u64)| e.0 == x && !local[e.0 as int] && elapsed(now, e.1) > timeout).len() as int
}

proof fn lemma_timeouts_one_piece(
    counts: Map<usize, usize>,
    w: Seq<(usize, u64)>,
    local: Seq<bool>,
    now: u64,
    timeout: int,
    x: usize,
)
    ensures
        counts_after_timeouts(counts, w, local, now, timeout).dom() == counts.dom(),
        counts.contains_key(x) ==> counts_after_timeouts(counts, w, local, now, timeout)[x] == (if counts[x]
            >= timed_out_count(w, local, now, timeout, x) {
            counts[x] - timed_out_count(w, local, now, timeout, x)
        } else {
            0
        }),
    decreases w.len(),
{
    let pred = |e: (usize, u64)| e.0 == x && !local[e.0 as int] && elapsed(now, e.1) > timeout;
    if w.len() > 0 {
        lemma_timeouts_one_piece(counts, w.drop_last(), local, now, timeout, x);
        reveal_with_fuel(Seq::filter, 1);
        assert(w.filter(pred) == (if pred(w.last()) {
            w.drop_last().filter(pred).push(w.last())
        } else {
            w.drop_last().filter(pred)
        }));
        let c = counts_after_timeouts(counts, w.drop_last(), local, now, timeout);
        let e = w.last();
        if !local[e.0 as int] && elapsed(now, e.1) > timeout && c.contains_key(e.0) && c[e.0] > 0 {
            assert(c.insert(e.0, (c[e.0] - 1) as usize).dom() =~= c.dom());
        }
    } else {
        reveal_with_fuel(Seq::filter, 1);
        assert(w.filter(pred).len() == 0);
    }
}

/// Taking back timed-out assignments gives each one's slot back: every
/// piece keeps its concurrency count less the number of its assignments in
/// `w` that timed out (pieces we hold are not counted), but never below
/// zero; no piece gains or loses a count entry.
pub proof fn lemma_timeouts_give_slots_back(
    counts: Map<usize, usize>,
    w: Seq<(usize, u64)>,
    local: Seq<bool>,
    now: u64,
    timeout: int,
)
    ensures
        counts_after_timeouts(counts, w, local, now, timeout).dom() == counts.dom(),
        forall|x: usize| #[trigger]
            counts.contains_key(x) ==> counts_after_timeouts(counts, w, local, now, timeout)[x] == (if counts[x]
                >= timed_out_count(w, local, now, timeout, x) {
                counts[x] - timed_out_count(w, local, now, timeout, x)
            } else {
                0
            }),
{
    lemma_timeouts_one_piece(counts, w, local, now, timeout, 0);
    assert forall|x: usize| #[trigger]
        counts.contains_key(x) implies counts_after_timeouts(counts, w, local, now, timeout)[x] == (if counts[x]
            >= timed_out_count(w, local, now, timeout, x) {
            counts[x] - timed_out_count(w, local, now, timeout, x)
        } else {
            0
        }) by {
        lemma_timeouts_one_piece(counts, w, local, now, timeout, x);
    }
}

/// The number of `true` entries of a sequence is positive exactly when one exists.
pub proof fn lemma_count_true_positive(s: Seq<bool>)
    ensures
        (count_true(s) > 0) == (exists|i: int| 0 <= i < s.len() && s[i]),
    decreases s.len(),
{
    if s.len() > 0 {
        lemma_count_true_positive(s.drop_last());
        if exists|i: int| 0 <= i < s.drop_last().len() && s.drop_last()[i] {
            let i = choose|i: int| 0 <= i < s.drop_last().len() && s.drop_last()[i];
            assert(s[i]);
        }
        if exists|i: int| 0 <= i < s.len() && s[i] {
            let i = choose|i: int| 0 <= i < s.len() && s[i];
            if i < s.len() - 1 {
                assert(s.drop_last()[i]);
            }
        }
    }
}

/// A copy of a work list.
pub fn copy_work(w: &Vec<(usize, u64)>) -> (r: Vec<(usize, u64)>)
    ensures
        r@ == w@,
{
    let mut r: Vec<(usize, u64)> = Vec::new();
    let mut k: usize = 0;
    while k < w.len()
        invariant
            k <= w@.len(),
            r@ == w@.subrange(0, k as int),
        decreases w@.len() - k,
    {
        r.push(w[k]);
        k = k + 1;
        proof {
            assert(r@ =~= w@.subrange(0, k as int));
        }
    }
    proof {
        assert(w@.subrange(0, k as int) =~= w@);
    }
    r
}

/// The state of the torrent's manager, with `M` the handle of an active
/// piece's download (shared by the peers that work on that piece).
pub struct TorrentManagerState<M> {
    /// For each piece, how many peers were seen holding it (at most 255).
    pieces_frequency: Vec<usize>,
    /// Bucket `f` lists the pieces of frequency `f` (bucket 0 stays empty).
    rarity_bucket: Vec<HashSet<usize>>,
    peer_bitfields: PeerTable<BitField>,
    /// The pieces we hold.
    local_bitfield: BitField,
    /// The pieces assigned to each peer, with the time (ms) of the assignment.
    peer_active_work: PeerTable<Vec<(usize, u64)>>,
    /// For each piece not finished yet, how many peers are working on it.
    piece_concurrency_counts: HashMap<usize, usize>,
    /// The download of each active piece.
    active_pieces_manager: HashMap<usize, M>,
    /// The pieces finished and written to disk, in that order.
    downloaded_piece_index: Vec<u32>,
    peer_options: PeerOptions,
}

impl<M> TorrentManagerState<M> {
    pub closed spec fn freq(&self) -> Seq<usize> {
        self.pieces_frequency@
    }

    pub closed spec fn buckets(&self) -> Seq<Set<usize>> {
        self.rarity_bucket@.map_values(|b: HashSet<usize>| b@)
    }

    /// The bitfield each peer announced.
    pub closed spec fn bitfields(&self) -> Map<Seq<char>, Seq<bool>> {
        self.peer_bitfields@.map_values(|b: BitField| bitfield_view(b))
    }

    /// The peers with a bitfield, in the order they were first added.
    pub closed spec fn peers(&self) -> Seq<Seq<char>> {
        self.peer_bitfields.keys()
    }

    pub closed spec fn local(&self) -> Seq<bool> {
        bitfield_view(self.local_bitfield)
    }

    /// The pieces assigned to each tracked peer.
    pub closed spec fn work(&self) -> Map<Seq<char>, Seq<(usize, u64)>> {
        self.peer_active_work@.map_values(|w: Vec<(usize, u64)>| w@)
    }

    pub closed spec fn counts(&self) -> Map<usize, usize> {
        self.piece_concurrency_counts@
    }

    pub closed spec fn managers(&self) -> Map<usize, M> {
        self.active_pieces_manager@
    }

    pub closed spec fn downloaded_log(&self) -> Seq<u32> {
        self.downloaded_piece_index@
    }

    pub closed spec fn options(&self) -> PeerOptions {
        self.peer_options
    }

    /// The number of pieces of the torrent.
    pub open spec fn num_pieces(&self) -> int {
        self.local().len() as int
    }

    /// The state is consistent: one frequency per piece, at most 255; piece
    /// `x` is in bucket `f` exactly when its frequency is `f >= 1`, bucket 0
    /// is empty; a piece we hold has frequency 0, and one
    /// we lack that some peer announced has frequency at least 1; a piece has
    /// a concurrency count exactly while we do not hold it; only pieces we
    /// lack have a download in progress; assigned pieces are pieces of the
    /// torrent.
    pub closed spec fn wf(&self) -> bool {
        let n = self.num_pieces();
        &&& n <= usize::MAX / 8
        &&& rarity_consistent(self.freq(), self.buckets(), n)
        &&& self.held_uncounted()
        &&& self.held_inactive()
        &&& self.announced_counted()
        &&& forall|i: usize| #[trigger]
            self.counts().contains_key(i) ==> i < n && !self.local()[i as int]
        &&& forall|i: usize| i < n && !self.local()[i as int] ==> #[trigger] self.counts().contains_key(i)
        &&& self.peer_bitfields.wf()
        &&& self.peer_active_work.wf()
        &&& forall|p: Seq<char>, k: int|
            #[trigger] self.work().contains_key(p) && 0 <= k < self.work()[p].len()
                ==> #[trigger] self.work()[p][k].0 < n
    }

    /// Every piece we hold has frequency 0.
    pub open spec fn held_uncounted(&self) -> bool {
        forall|i: int| 0 <= i < self.num_pieces() && self.local()[i] ==> #[trigger] self.freq()[i] == 0
    }

    /// Only pieces of the torrent that we lack have a download in progress.
    pub open spec fn held_inactive(&self) -> bool {
        forall|i: usize| #[trigger] self.managers().contains_key(i) ==> !self.holds(i as int)
            && i < self.num_pieces()
    }

    /// Every piece we lack that some peer announced has frequency at least 1.
    pub open spec fn announced_counted(&self) -> bool {
        forall|p: Seq<char>, i: int|
            0 <= i < self.num_pieces() && !self.local()[i] && #[trigger] self.peer_has(p, i) ==> self.freq()[i] >= 1
    }

    /// The counting facts carry over to a state with the same frequencies,
    /// held pieces and bitfields.
    proof fn lemma_counting_kept(a: &Self, b: &Self)
        requires
            a.held_uncounted(),
            a.announced_counted(),
            b.freq() == a.freq(),
            b.local() == a.local(),
            b.bitfields() == a.bitfields(),
        ensures
            b.held_uncounted(),
            b.announced_counted(),
    {
        assert forall|p: Seq<char>, i: int|
            0 <= i < b.num_pieces() && !b.local()[i] && #[trigger] b.peer_has(p, i) implies b.freq()[i] >= 1 by {
            assert(a.peer_has(p, i));
        }
    }

    /// Downloads in progress stay on pieces we lack when neither the held
    /// pieces nor the downloads change.
    proof fn lemma_inactive_kept(a: &Self, b: &Self)
        requires
            a.held_inactive(),
            b.local() == a.local(),
            b.managers() == a.managers(),
        ensures
            b.held_inactive(),
    {
    }

    /// The counting facts carry over to a state with the same held pieces
    /// and bitfields in which no frequency went down and held pieces kept
    /// theirs.
    proof fn lemma_counting_grows(a: &Self, b: &Self)
        requires
            a.held_uncounted(),
            a.announced_counted(),
            b.local() == a.local(),
            b.bitfields() == a.bitfields(),
            b.freq().len() == a.freq().len(),
            a.freq().len() == a.num_pieces(),
            forall|i: int| 0 <= i < a.num_pieces() ==> #[trigger] b.freq()[i] >= a.freq()[i],
            forall|i: int| 0 <= i < a.num_pieces() && a.local()[i] ==> #[trigger] b.freq()[i] == a.freq()[i],
        ensures
            b.held_uncounted(),
            b.announced_counted(),
    {
        assert forall|p: Seq<char>, i: int|
            0 <= i < b.num_pieces() && !b.local()[i] && #[trigger] b.peer_has(p, i) implies b.freq()[i] >= 1 by {
            assert(a.peer_has(p, i));
            assert(b.freq()[i] >= a.freq()[i]);
        }
        assert forall|i: int| 0 <= i < b.num_pieces() && b.local()[i] implies #[trigger] b.freq()[i] == 0 by {
            assert(b.freq()[i] == a.freq()[i]);
        }
    }

    /// The counting facts carry over when `peer` announces `bits`: no
    /// frequency went down, held pieces kept theirs, and each piece we lack
    /// that `peer` newly announces has frequency at least 1.
    proof fn lemma_counting_after_announce(a: &Self, b: &Self, peer: Seq<char>, bits: Seq<bool>)
        requires
            a.held_uncounted(),
            a.announced_counted(),
            b.local() == a.local(),
            b.bitfields() == a.bitfields().insert(peer, bits),
            b.freq().len() == a.freq().len(),
            a.freq().len() == a.num_pieces(),
            forall|i: int| 0 <= i < a.num_pieces() ==> #[trigger] b.freq()[i] >= a.freq()[i],
            forall|i: int| 0 <= i < a.num_pieces() && a.local()[i] ==> #[trigger] b.freq()[i] == a.freq()[i],
            forall|i: int|
                0 <= i < a.num_pieces() && 0 <= i < bits.len() && bits[i] && !a.local()[i] && !a.peer_has(peer, i)
                    ==> #[trigger] b.freq()[i] >= 1,
        ensures
            b.held_uncounted(),
            b.announced_counted(),
    {
        assert forall|p: Seq<char>, i: int|
            0 <= i < b.num_pieces() && !b.local()[i] && #[trigger] b.peer_has(p, i) implies b.freq()[i] >= 1 by {
            if p != peer {
                assert(a.peer_has(p, i));
            } else if a.peer_has(peer, i) {
                assert(b.freq()[i] >= a.freq()[i]);
            }
        }
        assert forall|i: int| 0 <= i < b.num_pieces() && b.local()[i] implies #[trigger] b.freq()[i] == 0 by {
            assert(b.freq()[i] == a.freq()[i]);
        }
    }

    /// The counting facts carry over when we come to hold piece `index`,
    /// whose frequency drops to 0.
    proof fn lemma_counting_after_finish(a: &Self, b: &Self, index: int)
        requires
            a.held_uncounted(),
            a.announced_counted(),
            b.local() == a.local().update(index, true),
            b.freq() == a.freq().update(index, 0usize),
            b.bitfields() == a.bitfields(),
            a.freq().len() == a.num_pieces(),
            0 <= index < a.num_pieces(),
        ensures
            b.held_uncounted(),
            b.announced_counted(),
    {
        assert forall|p: Seq<char>, i: int|
            0 <= i < b.num_pieces() && !b.local()[i] && #[trigger] b.peer_has(p, i) implies b.freq()[i] >= 1 by {
            assert(i != index);
            assert(a.peer_has(p, i));
            assert(b.freq()[i] == a.freq()[i]);
        }
        assert forall|i: int| 0 <= i < b.num_pieces() && b.local()[i] implies #[trigger] b.freq()[i] == 0 by {
            if i != index {
                assert(a.local()[i]);
                assert(b.freq()[i] == a.freq()[i]);
            }
        }
    }

    /// Whether `peer` announced piece `i`.
    pub open spec fn peer_has(&self, peer: Seq<char>, i: int) -> bool {
        self.bitfields().contains_key(peer) && 0 <= i < self.bitfields()[peer].len()
            && self.bitfields()[peer][i]
    }

    /// Whether we hold piece `i`.
    pub open spec fn holds(&self, i: int) -> bool {
        0 <= i < self.num_pieces() && self.local()[i]
    }

    /// How many peers have piece `i` recorded.
    pub open spec fn holders(&self, i: int) -> int {
        holder_count(self.peers(), self.bitfields(), i)
    }

    /// The peers listed are distinct and are exactly those with a bitfield.
    proof fn lemma_peers_are_keys(&self)
        requires
            self.wf(),
        ensures
            self.peers().no_duplicates(),
            forall|k: Seq<char>| #[trigger] self.bitfields().contains_key(k) <==> self.peers().contains(k),
    {
        self.peer_bitfields.lemma_keys();
    }

    /// Frequencies count peers: when `peer` announces `bits` and so takes
    /// the state from `pre` to `post` (see [`Self::add_bitfield`]), keeping
    /// every piece it announced before (a first bitfield, one that adds
    /// pieces, or the same one again), each piece we lack becomes as many
    /// peers more frequent, up to 255, as it gained holders. In particular
    /// announcing again what a peer already announced changes no frequency.
    pub proof fn lemma_frequency_counts_holders(pre: Self, post: Self, peer: Seq<char>, bits: Seq<bool>)
        requires
            pre.wf(),
            forall|i: int| #[trigger] pre.peer_has(peer, i) ==> i < bits.len() && bits[i],
            post.freq() == pre.freq_after_bitfield(bits, peer),
            post.bitfields() == pre.bitfields().insert(peer, bits),
            pre.bitfields().contains_key(peer) ==> post.peers() == pre.peers(),
            !pre.bitfields().contains_key(peer) ==> post.peers() == pre.peers().push(peer),
            post.local() == pre.local(),
        ensures
            forall|i: int|
                0 <= i < pre.num_pieces() && !pre.holds(i) ==> #[trigger] post.freq()[i] == if pre.freq()[i]
                    + post.holders(i) - pre.holders(i) < 255 {
                    pre.freq()[i] + post.holders(i) - pre.holders(i)
                } else {
                    255
                },
            forall|i: int| 0 <= i < pre.num_pieces() ==> 0 <= #[trigger] post.holders(i) - pre.holders(i) <= 1,
            pre.bitfields().contains_key(peer) && pre.bitfields()[peer] == bits ==> post.freq() == pre.freq(),
    {
        pre.lemma_peers_are_keys();
        let ps = pre.peers();
        let bf = pre.bitfields();
        assert forall|i: int| 0 <= i < pre.num_pieces() implies #[trigger] post.holders(i) - pre.holders(i) == (if 0 <= i
            < bits.len() && bits[i] {
            1int
        } else {
            0int
        }) - (if pre.peer_has(peer, i) {
            1int
        } else {
            0int
        }) by {
            lemma_holder_count_replace(ps, bf, peer, bits, i);
            if !bf.contains_key(peer) {
                assert(!ps.contains(peer));
                let ps1 = ps.push(peer);
                assert(ps1.drop_last() =~= ps);
                assert(ps1.last() == peer);
                assert(holder_count(ps1, bf.insert(peer, bits), i) == holder_count(ps, bf.insert(peer, bits), i)
                    + if announces(bf.insert(peer, bits), peer, i) {
                    1int
                } else {
                    0int
                });
            } else {
                assert(ps.contains(peer));
            }
        }
        assert forall|i: int|
            0 <= i < pre.num_pieces() && !pre.holds(i) implies #[trigger] post.freq()[i] == if pre.freq()[i]
                + post.holders(i) - pre.holders(i) < 255 {
                pre.freq()[i] + post.holders(i) - pre.holders(i)
            } else {
                255
            } by {
            assert(post.holders(i) - pre.holders(i) == (if 0 <= i < bits.len() && bits[i] {
                1int
            } else {
                0int
            }) - (if pre.peer_has(peer, i) {
                1int
            } else {
                0int
            }));
            assert(pre.freq()[i] <= 255);
            assert(pre.freq().len() == pre.num_pieces());
            if pre.peer_has(peer, i) {
                assert(i < bits.len() && bits[i]);
            }
            assert(post.freq()[i] == pre.freq_after_bitfield(bits, peer)[i]);
        }
        assert forall|i: int| 0 <= i < pre.num_pieces() implies 0 <= #[trigger] post.holders(i) - pre.holders(i) <= 1 by {
            if pre.peer_has(peer, i) {
                assert(i < bits.len() && bits[i]);
            }
            assert(post.holders(i) - pre.holders(i) == (if 0 <= i < bits.len() && bits[i] {
                1int
            } else {
                0int
            }) - (if pre.peer_has(peer, i) {
                1int
            } else {
                0int
            }));
        }
        if pre.bitfields().contains_key(peer) && pre.bitfields()[peer] == bits {
            assert forall|i: int| 0 <= i < post.freq().len() implies post.freq()[i] == pre.freq()[i] by {
                assert(!pre.newly_seen(bits, peer, i));
            }
            assert(post.freq() =~= pre.freq());
        }
    }

    /// A `have` counts a holder: when `peer`'s `have` for piece `index`, one
    /// we lack, takes the state from `pre` to `post` (see
    /// [`Self::update_freq_have`]), the piece becomes as many peers more
    /// frequent, up to 255, as it gained holders: one when the peer had not
    /// announced it, none when it had (a repeated `have` changes nothing).
    pub proof fn lemma_have_counts_holders(pre: Self, post: Self, peer: Seq<char>, index: int)
        requires
            pre.wf(),
            0 <= index < pre.num_pieces(),
            !pre.holds(index),
            pre.bitfields().contains_key(peer) ==> index < pre.bitfields()[peer].len(),
            pre.have_is_news(peer, index) ==> {
                &&& post.bitfields() == pre.bitfields().insert(peer, pre.bitfields()[peer].update(index, true))
                &&& post.freq() == pre.freq().update(index, bumped(pre.freq()[index] as int) as usize)
            },
            !pre.have_is_news(peer, index) ==> post.bitfields() == pre.bitfields() && post.freq() == pre.freq(),
            post.peers() == pre.peers(),
        ensures
            0 <= post.holders(index) - pre.holders(index) <= 1,
            post.freq()[index] == if pre.freq()[index] + post.holders(index) - pre.holders(index) < 255 {
                pre.freq()[index] + post.holders(index) - pre.holders(index)
            } else {
                255
            },
            pre.peer_has(peer, index) ==> post.freq() == pre.freq(),
    {
        pre.lemma_peers_are_keys();
        assert(pre.freq()[index] <= 255);
        assert(pre.freq().len() == pre.num_pieces());
        if pre.have_is_news(peer, index) {
            let b = pre.bitfields()[peer].update(index, true);
            lemma_holder_count_replace(pre.peers(), pre.bitfields(), peer, b, index);
            assert(pre.peers().contains(peer));
        }
    }

    /// Whether announcing `bits` for `peer` makes piece `i` one peer more
    /// frequent: set in `bits`, not held by us, not announced by `peer` before.
    pub open spec fn newly_seen(&self, bits: Seq<bool>, peer: Seq<char>, i: int) -> bool {
        0 <= i < bits.len() && bits[i] && !self.holds(i) && !self.peer_has(peer, i)
    }

    /// The frequencies after `peer` announces `bits`.
    pub open spec fn freq_after_bitfield(&self, bits: Seq<bool>, peer: Seq<char>) -> Seq<usize> {
        Seq::new(
            self.freq().len(),
            |i: int|
                if self.newly_seen(bits, peer, i) {
                    bumped(self.freq()[i] as int) as usize
                } else {
                    self.freq()[i]
                },
        )
    }

    /// Counts the pieces that `bitfield` announces for `peer_id` and that are
    /// new for it (and not held by us): each becomes one peer more frequent.
    pub fn update_freq_bitfield(&mut self, bitfield: &BitField, peer_id: &String)
        requires
            old(self).wf(),
            forall|i: int| old(self).newly_seen(bitfield_view(*bitfield), peer_id@, i) ==> i < old(self).num_pieces(),
        ensures
            final(self).wf(),
            final(self).freq() == old(self).freq_after_bitfield(bitfield_view(*bitfield), peer_id@),
            final(self).local() == old(self).local(),
            final(self).bitfields() == old(self).bitfields(),
            final(self).peers() == old(self).peers(),
            final(self).work() == old(self).work(),
            final(self).counts() == old(self).counts(),
            final(self).managers() == old(self).managers(),
            final(self).downloaded_log() == old(self).downloaded_log(),
            final(self).options() == old(self).options(),
    {
        let ghost bits = bitfield_view(*bitfield);
        let ghost n = self.num_pieces();
        let ghost f0 = self.freq();
        let ones = bitfield.ones();
        let existing = self.peer_bitfields.get(peer_id);
        let mut k: usize = 0;
        while k < ones.len()
            invariant
                k <= ones@.len(),
                lists_set_positions(bits, ones@),
                n == old(self).num_pieces(),
                f0 == old(self).freq(),
                old(self).wf(),
                self.wf(),
                self.local() == old(self).local(),
                self.bitfields() == old(self).bitfields(),
                self.peers() == old(self).peers(),
                self.work() == old(self).work(),
                self.counts() == old(self).counts(),
                self.managers() == old(self).managers(),
                self.downloaded_log() == old(self).downloaded_log(),
                self.options() == old(self).options(),
                forall|i: int| old(self).newly_seen(bits, peer_id@, i) ==> i < n,
                match existing {
                    Some(b) => old(self).bitfields().contains_key(peer_id@) && bitfield_view(*b) == old(self).bitfields()[peer_id@],
                    None => !old(self).bitfields().contains_key(peer_id@),
                },
                self.freq() == Seq::new(
                    n as nat,
                    |i: int|
                        if old(self).newly_seen(bits, peer_id@, i) && ones@.subrange(0, k as int).contains(i as usize) {
                            bumped(f0[i] as int) as usize
                        } else {
                            f0[i]
                        },
                ),
            decreases ones@.len() - k,
        {
            let idx = ones[k];
            let ghost before = self.freq();
            proof {
                let s0 = ones@.subrange(0, k as int);
                let s1 = ones@.subrange(0, k + 1);
                assert(s1 =~= s0.push(idx));
                assert forall|i: int| 0 <= i < n implies #[trigger] s1.contains(i as usize) == (
                    s0.contains(i as usize) || i == idx) by {
                    if s1.contains(i as usize) && i != idx {
                        let j = choose|j: int| 0 <= j < s1.len() && s1[j] == i as usize;
                        assert(s0[j] == i as usize);
                    }
                    if s0.contains(i as usize) {
                        let j = choose|j: int| 0 <= j < s0.len() && s0[j] == i as usize;
                        assert(s1[j] == i as usize);
                    }
                    if i == idx {
                        assert(s1[k as int] == idx);
                    }
                }
                assert(!s0.contains(idx)) by {
                    if s0.contains(idx) {
                        let j = choose|j: int| 0 <= j < s0.len() && s0[j] == idx;
                        assert(ones@[j] < ones@[k as int]);
                    }
                }
                assert(bits[idx as int]);
            }
            let held = self.local_bitfield.get(idx) == Some(true);
            if !held {
                let is_new_piece_for_peer = match existing {
                    Some(old_b) => !(old_b.get(idx) == Some(true)),
                    None => true,
                };
                if is_new_piece_for_peer {
                    proof {
                        assert(old(self).newly_seen(bits, peer_id@, idx as int));
                    }
                    bump_frequency(&mut self.pieces_frequency, &mut self.rarity_bucket, idx, Ghost(n));
                }
            }
            k = k + 1;
            proof {
                assert(self.freq() =~= Seq::new(
                    n as nat,
                    |i: int|
                        if old(self).newly_seen(bits, peer_id@, i) && ones@.subrange(0, k as int).contains(i as usize) {
                            bumped(f0[i] as int) as usize
                        } else {
                            f0[i]
                        },
                ));
                assert forall|i: int| 0 <= i < n implies #[trigger] self.freq()[i] >= f0[i] by {
                    assert(f0[i] <= 255);
                }
                Self::lemma_counting_grows(&*old(self), &*self);
            }
        }
        proof {
            assert(ones@.subrange(0, k as int) =~= ones@);
            assert(self.freq() =~= Seq::new(
                f0.len(),
                |i: int|
                    if old(self).newly_seen(bits, peer_id@, i) {
                        bumped(f0[i] as int) as usize
                    } else {
                        f0[i]
                    },
            )) by {
                assert forall|i: int| 0 <= i < n && old(self).newly_seen(bits, peer_id@, i) implies ones@.contains(i as usize) by {
                    assert(bits[i]);
                }
            }
        }
    }

    /// Whether a `have` for piece `index` from `peer` is news: the peer has a
    /// bitfield, we do not hold the piece, and the peer had not announced it.
    pub open spec fn have_is_news(&self, peer: Seq<char>, index: int) -> bool {
        self.bitfields().contains_key(peer) && !self.holds(index) && !self.peer_has(peer, index)
    }

    /// Counts a `have` for piece `index` from `peer_id`: when it is news the
    /// piece is marked in the peer's bitfield and becomes one peer more frequent.
    pub fn update_freq_have(&mut self, peer_id: &String, index: usize)
        requires
            old(self).wf(),
            old(self).have_is_news(peer_id@, index as int) ==> index < old(self).bitfields()[peer_id@].len()
                && index < old(self).num_pieces(),
        ensures
            final(self).wf(),
            old(self).have_is_news(peer_id@, index as int) ==> {
                &&& final(self).bitfields() == old(self).bitfields().insert(
                    peer_id@,
                    old(self).bitfields()[peer_id@].update(index as int, true),
                )
                &&& final(self).freq() == old(self).freq().update(
                    index as int,
                    bumped(old(self).freq()[index as int] as int) as usize,
                )
            },
            !old(self).have_is_news(peer_id@, index as int) ==> {
                &&& final(self).bitfields() == old(self).bitfields()
                &&& final(self).freq() == old(self).freq()
            },
            final(self).peers() == old(self).peers(),
            final(self).local() == old(self).local(),
            final(self).work() == old(self).work(),
            final(self).counts() == old(self).counts(),
            final(self).managers() == old(self).managers(),
            final(self).downloaded_log() == old(self).downloaded_log(),
            final(self).options() == old(self).options(),
    {
        if self.local_bitfield.get(index) == Some(true) {
            return;
        }
        match self.peer_bitfields.find(peer_id) {
            Some(i) => {
                let ghost k = self.peers()[i as int];
                let already = self.peer_bitfields.value_at(i).get(index) == Some(true);
                if !already {
                    let ghost n = self.num_pieces();
                    let mut b = self.peer_bitfields.replace_value_at(i, BitField::zeroed(0));
                    b.set(index, true);
                    self.peer_bitfields.set_value_at(i, b);
                    bump_frequency(&mut self.pieces_frequency, &mut self.rarity_bucket, index, Ghost(n));
                    proof {
                        assert(self.local() == old(self).local());
                        assert(self.work() == old(self).work());
                        assert(self.counts() == old(self).counts());
                        assert(rarity_consistent(self.freq(), self.buckets(), n));
                        assert(self.peer_bitfields.wf());
                        let bits = old(self).bitfields()[peer_id@].update(index as int, true);
                        assert(self.bitfields() =~= old(self).bitfields().insert(peer_id@, bits));
                        assert forall|j: int| 0 <= j < n implies #[trigger] self.freq()[j] >= old(self).freq()[j] by {
                            assert(old(self).freq()[j] <= 255);
                        }
                        assert forall|j: int|
                            0 <= j < n && 0 <= j < bits.len() && bits[j] && !old(self).local()[j]
                                && !old(self).peer_has(peer_id@, j) implies #[trigger] self.freq()[j] >= 1 by {
                            if j != index {
                                assert(old(self).bitfields()[peer_id@][j]);
                            }
                        }
                        Self::lemma_counting_after_announce(&*old(self), &*self, peer_id@, bits);
                        assert(self.managers() == old(self).managers());
                        Self::lemma_inactive_kept(&*old(self), &*self);
                    }
                }
            },
            None => {},
        }
    }

    /// A `have` for piece `index` from `peer_id`: counted as in
    /// [`Self::update_freq_have`], and the piece marked in the peer's bitfield.
    pub fn update_bitfield(&mut self, peer_id: &String, index: usize)
        requires
            old(self).wf(),
            old(self).bitfields().contains_key(peer_id@),
            index < old(self).bitfields()[peer_id@].len(),
            old(self).have_is_news(peer_id@, index as int) ==> index < old(self).num_pieces(),
        ensures
            final(self).wf(),
            final(self).bitfields() == old(self).bitfields().insert(
                peer_id@,
                old(self).bitfields()[peer_id@].update(index as int, true),
            ),
            final(self).freq() == if old(self).have_is_news(peer_id@, index as int) {
                old(self).freq().update(index as int, bumped(old(self).freq()[index as int] as int) as usize)
            } else {
                old(self).freq()
            },
            final(self).peers() == old(self).peers(),
            final(self).local() == old(self).local(),
            final(self).work() == old(self).work(),
            final(self).counts() == old(self).counts(),
            final(self).managers() == old(self).managers(),
            final(self).downloaded_log() == old(self).downloaded_log(),
            final(self).options() == old(self).options(),
    {
        self.update_freq_have(peer_id, index);
        let ghost mid_state = *self;
        proof {
            assert(self.bitfields().contains_key(peer_id@));
            assert(self.peer_bitfields@.contains_key(peer_id@));
        }
        let i = self.peer_bitfields.find(peer_id).unwrap();
        let ghost mid = self.bitfields();
        proof {
            assert(mid[peer_id@] == bitfield_view(self.peer_bitfields@[peer_id@]));
            assert(mid[peer_id@].len() == old(self).bitfields()[peer_id@].len());
        }
        let mut b = self.peer_bitfields.replace_value_at(i, BitField::zeroed(0));
        b.set(index, true);
        self.peer_bitfields.set_value_at(i, b);
        proof {
            assert(mid[peer_id@].update(index as int, true) =~= old(self).bitfields()[peer_id@].update(index as int, true));
            assert(self.bitfields() =~= mid.insert(peer_id@, mid[peer_id@].update(index as int, true)));
            assert(self.bitfields() =~= old(self).bitfields().insert(
                peer_id@,
                old(self).bitfields()[peer_id@].update(index as int, true),
            ));
            let bits = mid[peer_id@].update(index as int, true);
            assert(self.bitfields() == mid_state.bitfields().insert(peer_id@, bits));
            assert forall|j: int|
                0 <= j < mid_state.num_pieces() && 0 <= j < bits.len() && bits[j] && !mid_state.local()[j]
                    && !mid_state.peer_has(peer_id@, j) implies #[trigger] self.freq()[j] >= 1 by {
                if j != index {
                    assert(mid[peer_id@][j]);
                } else {
                    assert(old(self).have_is_news(peer_id@, index as int));
                }
            }
            assert(mid_state.wf());
            Self::lemma_counting_after_announce(&mid_state, &*self, peer_id@, bits);
        }
    }

    /// Records the bitfield `bitfield` of `peer_id` (replacing an earlier
    /// one), counting the pieces that are new for that peer.
    pub fn add_bitfield(&mut self, peer_id: String, bitfield: BitField)
        requires
            old(self).wf(),
            forall|i: int| old(self).newly_seen(bitfield_view(bitfield), peer_id@, i) ==> i < old(self).num_pieces(),
        ensures
            final(self).wf(),
            final(self).freq() == old(self).freq_after_bitfield(bitfield_view(bitfield), peer_id@),
            final(self).bitfields() == old(self).bitfields().insert(peer_id@, bitfield_view(bitfield)),
            old(self).bitfields().contains_key(peer_id@) ==> final(self).peers() == old(self).peers(),
            !old(self).bitfields().contains_key(peer_id@) ==> final(self).peers() == old(self).peers().push(peer_id@),
            final(self).local() == old(self).local(),
            final(self).work() == old(self).work(),
            final(self).counts() == old(self).counts(),
            final(self).managers() == old(self).managers(),
            final(self).downloaded_log() == old(self).downloaded_log(),
            final(self).options() == old(self).options(),
    {
        self.update_freq_bitfield(&bitfield, &peer_id);
        let ghost v = bitfield_view(bitfield);
        let ghost pk = peer_id@;
        self.peer_bitfields.insert(peer_id, bitfield);
        proof {
            assert(self.bitfields() =~= old(self).bitfields().insert(pk, v));
            assert forall|j: int| 0 <= j < old(self).num_pieces() implies #[trigger] self.freq()[j] >= old(self).freq()[j] by {
                assert(old(self).freq()[j] <= 255);
            }
            Self::lemma_counting_after_announce(&*old(self), &*self, pk, v);
        }
    }

    /// A new peer with bitfield `bitfield`: its bitfield is recorded as in
    /// [`Self::add_bitfield`], it is tracked with no work assigned, and the
    /// pieces we hold are handed back.
    pub fn add_peer(&mut self, peer_id: String, bitfield: BitField) -> (r: BitField)
        requires
            old(self).wf(),
            forall|i: int| old(self).newly_seen(bitfield_view(bitfield), peer_id@, i) ==> i < old(self).num_pieces(),
        ensures
            final(self).wf(),
            bitfield_view(r) == old(self).local(),
            final(self).freq() == old(self).freq_after_bitfield(bitfield_view(bitfield), peer_id@),
            final(self).bitfields() == old(self).bitfields().insert(peer_id@, bitfield_view(bitfield)),
            old(self).bitfields().contains_key(peer_id@) ==> final(self).peers() == old(self).peers(),
            !old(self).bitfields().contains_key(peer_id@) ==> final(self).peers() == old(self).peers().push(peer_id@),
            final(self).work() == old(self).work().insert(peer_id@, Seq::empty()),
            final(self).local() == old(self).local(),
            final(self).counts() == old(self).counts(),
            final(self).managers() == old(self).managers(),
            final(self).downloaded_log() == old(self).downloaded_log(),
            final(self).options() == old(self).options(),
    {
        let key = peer_id.clone();
        self.add_bitfield(peer_id, bitfield);
        let ghost k = key@;
        let ghost mid_state = *self;
        self.peer_active_work.insert(key, Vec::new());
        proof {
            assert(self.work() =~= old(self).work().insert(k, Seq::empty()));
            Self::lemma_counting_kept(&mid_state, &*self);
        }
        self.local_bitfield.duplicate()
    }

    /// Whether piece `idx` is among the pieces assigned to `peer`.
    pub open spec fn assigned(&self, peer: Seq<char>, idx: usize) -> bool {
        self.work().contains_key(peer) && exists|k: int|
            0 <= k < self.work()[peer].len() && #[trigger] self.work()[peer][k].0 == idx
    }

    /// Whether `peer` may be given piece `idx`: the peer announced it, we do
    /// not hold it, it is not finished, the number of peers working on it is
    /// at most `per_piece_active_peer_count` (so one more may take it on),
    /// and it is not assigned to this peer already.
    pub open spec fn eligible(&self, peer: Seq<char>, idx: usize) -> bool {
        &&& self.peer_has(peer, idx as int)
        &&& !self.holds(idx as int)
        &&& self.counts().contains_key(idx)
        &&& self.counts()[idx] <= self.options().per_piece_active_peer_count
        &&& !self.assigned(peer, idx)
    }

    /// Whether `w` lists piece `idx`.
    fn lists_piece(w: &Vec<(usize, u64)>, idx: usize) -> (r: bool)
        ensures
            r == exists|k: int| 0 <= k < w@.len() && #[trigger] w@[k].0 == idx,
    {
        let mut k: usize = 0;
        while k < w.len()
            invariant
                k <= w@.len(),
                forall|j: int| 0 <= j < k ==> w@[j].0 != idx,
            decreases w@.len() - k,
        {
            if w[k].0 == idx {
                return true;
            }
            k = k + 1;
        }
        false
    }

    /// The piece selection, rarest first: a piece that `peer_id` may be
    /// given, of the lowest frequency among those; none when there is no
    /// such piece (a peer without a bitfield may be given none).  Within a
    /// bucket the pieces are tried in the order the bucket's set yields them.
    pub fn select_piece(&self, peer_id: &String) -> (r: Option<usize>)
        requires
            self.wf(),
        ensures
            r is Some <==> exists|y: usize| self.eligible(peer_id@, y),
            match r {
                Some(x) => {
                    &&& self.eligible(peer_id@, x)
                    &&& forall|y: usize| #[trigger]
                        self.eligible(peer_id@, y) ==> self.freq()[x as int] <= self.freq()[y as int]
                },
                None => true,
            },
    {
        proof {
            self.lemma_eligible_counted(peer_id@);
        }
        let current_peer_bitfield = match self.peer_bitfields.get(peer_id) {
            Some(b) => b,
            None => {
                return None;
            },
        };
        let work = self.peer_active_work.get(peer_id);
        let cap = self.peer_options.per_piece_active_peer_count;
        proof {
            assert(bitfield_view(*current_peer_bitfield) == self.bitfields()[peer_id@]);
            match work {
                Some(w) => {
                    assert(w@ == self.work()[peer_id@]);
                },
                None => {},
            }
        }
        let mut b: usize = 0;
        while b < RARITY_BUCKETS
            invariant
                b <= 256,
                self.wf(),
                rarity_consistent(self.freq(), self.buckets(), self.num_pieces()),
                bitfield_view(*current_peer_bitfield) == self.bitfields()[peer_id@],
                self.bitfields().contains_key(peer_id@),
                cap == self.options().per_piece_active_peer_count,
                match work {
                    Some(w) => self.work().contains_key(peer_id@) && w@ == self.work()[peer_id@],
                    None => !self.work().contains_key(peer_id@),
                },
                forall|y: usize| #[trigger]
                    self.eligible(peer_id@, y) ==> y < self.num_pieces() && 1 <= self.freq()[y as int] <= 255,
                forall|d: int, y: usize|
                    0 <= d < b && #[trigger] self.buckets()[d].contains(y) ==> !self.eligible(peer_id@, y),
            decreases 256 - b,
        {
            let bucket = &self.rarity_bucket[b];
            proof {
                assert(bucket@ == self.buckets()[b as int]);
            }
            for idx_ref in it: bucket.iter()
                invariant
                    b < 256,
                    self.wf(),
                    rarity_consistent(self.freq(), self.buckets(), self.num_pieces()),
                    bucket@ == self.buckets()[b as int],
                    it.seq().unref().to_set() == bucket@,
                    bitfield_view(*current_peer_bitfield) == self.bitfields()[peer_id@],
                    self.bitfields().contains_key(peer_id@),
                    cap == self.options().per_piece_active_peer_count,
                    match work {
                        Some(w) => self.work().contains_key(peer_id@) && w@ == self.work()[peer_id@],
                        None => !self.work().contains_key(peer_id@),
                    },
                    forall|y: usize| #[trigger]
                        self.eligible(peer_id@, y) ==> y < self.num_pieces() && 1 <= self.freq()[y as int] <= 255,
                    forall|d: int, y: usize|
                        0 <= d < b && #[trigger] self.buckets()[d].contains(y) ==> !self.eligible(peer_id@, y),
                    forall|j: int| 0 <= j < it.index() ==> !self.eligible(peer_id@, *#[trigger] it.seq()[j]),
            {
                let idx = *idx_ref;
                let has_piece = current_peer_bitfield.get(idx) == Some(true);
                let already_downloaded = self.local_bitfield.get(idx) == Some(true);
                let active_count_within_cap = match self.piece_concurrency_counts.get(&idx) {
                    Some(len) => *len <= cap,
                    None => false,
                };
                let this_peer_already_assigned_this_request = match work {
                    Some(w) => Self::lists_piece(w, idx),
                    None => false,
                };
                if has_piece && !already_downloaded && active_count_within_cap
                    && !this_peer_already_assigned_this_request {
                    proof {
                        assert(self.eligible(peer_id@, idx));
                        assert(it.seq().unref().contains(idx));
                        assert(bucket@.contains(idx));
                        assert(self.freq()[idx as int] == b);
                        assert forall|y: usize| #[trigger]
                            self.eligible(peer_id@, y) implies self.freq()[idx as int] <= self.freq()[y as int] by {
                            let f = self.freq()[y as int] as int;
                            assert(self.buckets()[f].contains(y));
                        }
                    }
                    return Some(idx);
                }
                proof {
                    assert(!self.eligible(peer_id@, idx));
                }
            }
            proof {
                assert forall|y: usize| #[trigger] self.buckets()[b as int].contains(y) implies !self.eligible(
                    peer_id@,
                    y,
                ) by {
                    assert(bucket@.contains(y));
                }
            }
            b = b + 1;
        }
        proof {
            assert forall|y: usize| !#[trigger] self.eligible(peer_id@, y) by {
                if self.eligible(peer_id@, y) {
                    let f = self.freq()[y as int] as int;
                    assert(self.buckets()[f].contains(y));
                }
            }
        }
        None
    }

    /// A piece that `peer` may be given is a piece of the torrent seen with
    /// a frequency from 1 to 255.
    proof fn lemma_eligible_counted(&self, peer: Seq<char>)
        requires
            self.wf(),
        ensures
            forall|y: usize| #[trigger]
                self.eligible(peer, y) ==> y < self.num_pieces() && 1 <= self.freq()[y as int] <= 255,
    {
        assert forall|y: usize| #[trigger] self.eligible(peer, y) implies y < self.num_pieces() && 1
            <= self.freq()[y as int] <= 255 by {
            assert(self.counts().contains_key(y));
            assert(self.peer_has(peer, y as int));
        }
    }

    /// Assigns piece `idx` to `peer_id` at time `now` (ms): one more peer
    /// works on the piece, and the peer's work lists it.
    pub fn assign_piece(&mut self, peer_id: &String, idx: usize, now: u64)
        requires
            old(self).wf(),
            old(self).counts().contains_key(idx),
            old(self).counts()[idx] < usize::MAX,
            old(self).work().contains_key(peer_id@),
        ensures
            final(self).wf(),
            final(self).counts() == old(self).counts().insert(idx, (old(self).counts()[idx] + 1) as usize),
            final(self).work() == old(self).work().insert(
                peer_id@,
                old(self).work()[peer_id@].push((idx, now)),
            ),
            final(self).freq() == old(self).freq(),
            final(self).buckets() == old(self).buckets(),
            final(self).bitfields() == old(self).bitfields(),
            final(self).peers() == old(self).peers(),
            final(self).local() == old(self).local(),
            final(self).managers() == old(self).managers(),
            final(self).downloaded_log() == old(self).downloaded_log(),
            final(self).options() == old(self).options(),
    {
        let c = *self.piece_concurrency_counts.get(&idx).unwrap();
        self.piece_concurrency_counts.insert(idx, c + 1);
        let i = self.peer_active_work.find(peer_id).unwrap();
        let mut w = self.peer_active_work.replace_value_at(i, Vec::new());
        w.push((idx, now));
        self.peer_active_work.set_value_at(i, w);
        proof {
            assert(self.work() =~= old(self).work().insert(
                peer_id@,
                old(self).work()[peer_id@].push((idx, now)),
            ));
            assert forall|p: Seq<char>, k: int|
                #[trigger] self.work().contains_key(p) && 0 <= k < self.work()[p].len()
                    implies #[trigger] self.work()[p][k].0 < self.num_pieces() by {
                if p != peer_id@ || k < old(self).work()[peer_id@].len() {
                    assert(old(self).work().contains_key(p));
                    assert(self.work()[p][k] == old(self).work()[p][k]);
                }
            }
            Self::lemma_counting_kept(&*old(self), &*self);
            assert(self.managers() == old(self).managers());
            Self::lemma_inactive_kept(&*old(self), &*self);
        }
    }

    /// The first half of a work request: the piece to hand out, if any, and
    /// whether a download of it is in progress already.
    pub fn choose_work(&self, peer_id: &String) -> (r: WorkChoice)
        requires
            self.wf(),
        ensures
            r is NoWork <==> !exists|y: usize| self.eligible(peer_id@, y),
            match r {
                WorkChoice::NoWork => true,
                WorkChoice::Existing(i) => {
                    &&& self.eligible(peer_id@, i)
                    &&& self.managers().contains_key(i)
                    &&& forall|y: usize| #[trigger]
                        self.eligible(peer_id@, y) ==> self.freq()[i as int] <= self.freq()[y as int]
                },
                WorkChoice::Fresh(i) => {
                    &&& self.eligible(peer_id@, i)
                    &&& !self.managers().contains_key(i)
                    &&& forall|y: usize| #[trigger]
                        self.eligible(peer_id@, y) ==> self.freq()[i as int] <= self.freq()[y as int]
                },
            },
    {
        match self.select_piece(peer_id) {
            None => WorkChoice::NoWork,
            Some(i) => {
                if self.piece_manager(i).is_some() {
                    WorkChoice::Existing(i)
                } else {
                    WorkChoice::Fresh(i)
                }
            },
        }
    }

    /// The second half of a work request for piece `idx`, one that we lack:
    /// when `peer_id` has a work list and the piece's concurrency count can
    /// grow, `fresh` (if given) is recorded as the piece's download and the
    /// piece is assigned to the peer at time `now` (ms); otherwise nothing
    /// changes and `false` is returned.
    pub fn give_work(&mut self, peer_id: &String, idx: usize, fresh: Option<M>, now: u64) -> (r: bool)
        requires
            old(self).wf(),
            idx < old(self).num_pieces(),
            !old(self).holds(idx as int),
        ensures
            final(self).wf(),
            r == (old(self).work().contains_key(peer_id@) && old(self).counts()[idx] < usize::MAX),
            !r ==> *final(self) == *old(self),
            r ==> {
                &&& final(self).managers() == match fresh {
                    Some(m) => old(self).managers().insert(idx, m),
                    None => old(self).managers(),
                }
                &&& final(self).counts() == old(self).counts().insert(idx, (old(self).counts()[idx] + 1) as usize)
                &&& final(self).work() == old(self).work().insert(
                    peer_id@,
                    old(self).work()[peer_id@].push((idx, now)),
                )
                &&& final(self).freq() == old(self).freq()
                &&& final(self).buckets() == old(self).buckets()
                &&& final(self).bitfields() == old(self).bitfields()
                &&& final(self).peers() == old(self).peers()
                &&& final(self).local() == old(self).local()
                &&& final(self).downloaded_log() == old(self).downloaded_log()
                &&& final(self).options() == old(self).options()
            },
    {
        proof {
            assert(old(self).counts().contains_key(idx));
        }
        if !self.tracks_work(peer_id) {
            return false;
        }
        let room = match self.piece_concurrency_counts.get(&idx) {
            Some(c) => *c < usize::MAX,
            None => false,
        };
        if !room {
            return false;
        }
        match fresh {
            Some(m) => self.insert_manager(idx, m),
            None => {},
        }
        self.assign_piece(peer_id, idx, now);
        true
    }

    /// The download of active piece `idx`, if there is one.
    pub fn piece_manager(&self, idx: usize) -> (r: Option<&M>)
        ensures
            match r {
                Some(m) => self.managers().contains_key(idx) && *m == self.managers()[idx],
                None => !self.managers().contains_key(idx),
            },
    {
        self.active_pieces_manager.get(&idx)
    }

    /// Records `manager` as the download of active piece `idx`, a piece of
    /// the torrent that we lack.
    pub fn insert_manager(&mut self, idx: usize, manager: M)
        requires
            old(self).wf(),
            idx < old(self).num_pieces(),
            !old(self).holds(idx as int),
        ensures
            final(self).wf(),
            final(self).managers() == old(self).managers().insert(idx, manager),
            final(self).freq() == old(self).freq(),
            final(self).buckets() == old(self).buckets(),
            final(self).bitfields() == old(self).bitfields(),
            final(self).peers() == old(self).peers(),
            final(self).local() == old(self).local(),
            final(self).work() == old(self).work(),
            final(self).counts() == old(self).counts(),
            final(self).downloaded_log() == old(self).downloaded_log(),
            final(self).options() == old(self).options(),
    {
        self.active_pieces_manager.insert(idx, manager);
        proof {
            assert(self.work() == old(self).work());
            assert(self.counts() == old(self).counts());
            assert(self.local() == old(self).local());
            assert(self.freq() == old(self).freq());
            assert(self.buckets() == old(self).buckets());
            Self::lemma_counting_kept(&*old(self), &*self);
            assert(self.local() == old(self).local());
            assert forall|i: usize| #[trigger] self.managers().contains_key(i) implies !self.holds(i as int)
                && i < self.num_pieces() by {
                if i != idx {
                    assert(old(self).managers().contains_key(i));
                }
            }
        }
    }

    /// What finishing piece `index` does, from state `pre` to state `post`
    /// with result `r`.  If we held it already nothing changes.  Otherwise
    /// we now hold it; it leaves the rarity tracking (frequency zero, in no
    /// bucket), has no concurrency count any more, is removed from every
    /// peer's work, and its download is handed back to be written to disk.
    pub open spec fn finish_step(pre: Self, post: Self, index: usize, r: Option<M>) -> bool {
        &&& post.holds(index as int)
        &&& pre.holds(index as int) ==> r is None && post == pre
        &&& !pre.holds(index as int) ==> {
            &&& post.local() == pre.local().update(index as int, true)
            &&& post.freq() == pre.freq().update(index as int, 0usize)
            &&& post.counts() == pre.counts().remove(index)
            &&& post.work() == pre.work().map_values(|w: Seq<(usize, u64)>| w.filter(other_piece(index)))
            &&& post.managers() == pre.managers().remove(index)
            &&& r == if pre.managers().contains_key(index) {
                Some(pre.managers()[index])
            } else {
                None::<M>
            }
        }
        &&& post.bitfields() == pre.bitfields()
        &&& post.peers() == pre.peers()
        &&& post.downloaded_log() == pre.downloaded_log()
        &&& post.options() == pre.options()
    }

    /// Piece `index` is finished, as [`Self::finish_step`] describes.
    pub fn piece_finish(&mut self, index: usize) -> (r: Option<M>)
        requires
            old(self).wf(),
            index < old(self).num_pieces(),
        ensures
            final(self).wf(),
            Self::finish_step(*old(self), *final(self), index, r),
    {
        if self.local_bitfield.get(index) == Some(true) {
            return None;
        }
        let ghost n = self.num_pieces();
        self.local_bitfield.set(index, true);
        let current_freq = self.pieces_frequency[index];
        let ob = if current_freq < 255 { current_freq } else { 255 };
        self.rarity_bucket[ob].remove(&index);
        self.pieces_frequency.set(index, 0);
        self.piece_concurrency_counts.remove(&index);
        proof {
            let f1 = self.freq();
            let b0 = old(self).buckets();
            let b1 = self.buckets();
            assert forall|b: int, x: usize| 1 <= b < 256 implies (#[trigger] b1[b].contains(x) <==> (x < n
                && f1[x as int] == b)) by {
                assert(b0[b].contains(x) <==> (x < n && old(self).freq()[x as int] == b));
            }
            assert forall|x: usize| !#[trigger] b1[0].contains(x) by {
                assert(!b0[0].contains(x));
            }
            assert(rarity_consistent(f1, b1, n));
            assert(self.counts() =~= old(self).counts().remove(index));
        }
        let num_peers = self.peer_active_work.len();
        let ghost keys = self.peer_active_work.keys();
        let ghost w0 = self.work();
        let ghost pre = *self;
        proof {
            self.peer_active_work.lemma_keys();
            assert forall|p: Seq<char>| #[trigger] w0.contains_key(p) <==> keys.contains(p) by {
                assert(w0.contains_key(p) == self.peer_active_work@.contains_key(p));
            }
        }
        let mut i: usize = 0;
        while i < num_peers
            invariant
                i <= num_peers,
                num_peers == keys.len(),
                self.peer_active_work.wf(),
                self.peer_active_work.keys() == keys,
                w0 == old(self).work(),
                forall|p: Seq<char>| #[trigger] w0.contains_key(p) <==> keys.contains(p),
                self.local() == pre.local(),
                self.freq() == pre.freq(),
                self.buckets() == pre.buckets(),
                self.counts() == pre.counts(),
                self.managers() == pre.managers(),
                self.bitfields() == pre.bitfields(),
                self.peers() == pre.peers(),
                self.downloaded_log() == pre.downloaded_log(),
                self.options() == pre.options(),
                self.peer_bitfields.wf(),
                self.work() == Map::new(
                    |p: Seq<char>| w0.contains_key(p),
                    |p: Seq<char>|
                        if keys.subrange(0, i as int).contains(p) {
                            w0[p].filter(other_piece(index))
                        } else {
                            w0[p]
                        },
                ),
            decreases num_peers - i,
        {
            let ghost prev = self.work();
            let w = self.peer_active_work.replace_value_at(i, Vec::new());
            let kept = without_piece(&w, index);
            self.peer_active_work.set_value_at(i, kept);
            proof {
                self.peer_active_work.lemma_keys();
                assert(keys.contains(keys[i as int]));
                assert(w@ == prev[keys[i as int]]);
                assert(self.work() =~= prev.insert(keys[i as int], w@.filter(other_piece(index))));
                let ks0 = keys.subrange(0, i as int);
                let ks1 = keys.subrange(0, i + 1);
                assert forall|p: Seq<char>| #[trigger] ks1.contains(p) <==> (ks0.contains(p) || p == keys[i as int]) by {
                    if ks1.contains(p) && p != keys[i as int] {
                        let j = choose|j: int| 0 <= j < ks1.len() && ks1[j] == p;
                        assert(ks0[j] == p);
                    }
                    if ks0.contains(p) {
                        let j = choose|j: int| 0 <= j < ks0.len() && ks0[j] == p;
                        assert(ks1[j] == p);
                    }
                    if p == keys[i as int] {
                        assert(ks1[i as int] == p);
                    }
                }
                self.peer_active_work.lemma_keys();
                assert(!ks0.contains(keys[i as int])) by {
                    if ks0.contains(keys[i as int]) {
                        let j = choose|j: int| 0 <= j < ks0.len() && ks0[j] == keys[i as int];
                        assert(keys[j] == keys[i as int]);
                    }
                }
                assert(keys.contains(keys[i as int]));
                assert(self.work() =~= Map::new(
                    |p: Seq<char>| w0.contains_key(p),
                    |p: Seq<char>|
                        if ks1.contains(p) {
                            w0[p].filter(other_piece(index))
                        } else {
                            w0[p]
                        },
                ));
            }
            i = i + 1;
        }
        let r = self.active_pieces_manager.remove(&index);
        proof {
            assert(keys.subrange(0, i as int) =~= keys);
            let wanted = old(self).work().map_values(|w: Seq<(usize, u64)>| w.filter(other_piece(index)));
            assert(self.work() =~= wanted);
            assert forall|p: Seq<char>, k: int|
                #[trigger] self.work().contains_key(p) && 0 <= k < self.work()[p].len()
                    implies #[trigger] self.work()[p][k].0 < n by {
                let f = other_piece(index);
                let e = self.work()[p][k];
                assert(w0.contains_key(p));
                assert(self.work()[p] == w0[p].filter(f));
                assert(w0[p].filter(f)[k] == e);
                assert(w0[p].filter(f).contains(e));
                w0[p].lemma_filter_contains_rev(f, e);
                let j = choose|j: int| 0 <= j < w0[p].len() && w0[p][j] == self.work()[p][k];
                assert(w0[p][j].0 < n);
            }
            assert(self.managers() =~= old(self).managers().remove(index));
            Self::lemma_counting_after_finish(&*old(self), &*self, index as int);
        }
        r
    }

    /// Records that finished piece `index` is written to disk, and returns
    /// how many pieces are recorded so far.
    pub fn record_downloaded(&mut self, index: usize) -> (r: u64)
        requires
            old(self).wf(),
            old(self).downloaded_log().len() < usize::MAX,
        ensures
            final(self).wf(),
            final(self).downloaded_log() == old(self).downloaded_log().push(index as u32),
            r == final(self).downloaded_log().len(),
            final(self).freq() == old(self).freq(),
            final(self).buckets() == old(self).buckets(),
            final(self).bitfields() == old(self).bitfields(),
            final(self).peers() == old(self).peers(),
            final(self).local() == old(self).local(),
            final(self).work() == old(self).work(),
            final(self).counts() == old(self).counts(),
            final(self).managers() == old(self).managers(),
            final(self).options() == old(self).options(),
    {
        self.downloaded_piece_index.push(index as u32);
        proof {
            assert(self.work() == old(self).work());
            assert(self.counts() == old(self).counts());
            assert(self.local() == old(self).local());
            assert(self.freq() == old(self).freq());
            assert(self.buckets() == old(self).buckets());
            Self::lemma_counting_kept(&*old(self), &*self);
            assert(self.managers() == old(self).managers());
            Self::lemma_inactive_kept(&*old(self), &*self);
        }
        self.downloaded_piece_index.len() as u64
    }

    /// The work of `peer_id` brought up to date at time `now` (ms): pieces we
    /// now hold are dropped, and pieces assigned more than
    /// `piece_request_timeout` seconds ago are taken back (each taking one
    /// from its piece's concurrency count while that is positive).  Hands
    /// back the remaining work; `None` for a peer that is not tracked.
    pub fn refresh_active_work(&mut self, peer_id: &String, now: u64) -> (r: Option<Vec<(usize, u64)>>)
        requires
            old(self).wf(),
        ensures
            final(self).wf(),
            ({
                let timeout = old(self).options().piece_request_timeout * 1000;
                if old(self).work().contains_key(peer_id@) {
                    let w = old(self).work()[peer_id@];
                    let kept = w.filter(stays_assigned(old(self).local(), now, timeout));
                    &&& r is Some
                    &&& r.unwrap()@ == kept
                    &&& final(self).work() == old(self).work().insert(peer_id@, kept)
                    &&& final(self).counts() == counts_after_timeouts(
                        old(self).counts(),
                        w,
                        old(self).local(),
                        now,
                        timeout,
                    )
                } else {
                    &&& r is None
                    &&& final(self).work() == old(self).work()
                    &&& final(self).counts() == old(self).counts()
                }
            }),
            final(self).freq() == old(self).freq(),
            final(self).buckets() == old(self).buckets(),
            final(self).bitfields() == old(self).bitfields(),
            final(self).peers() == old(self).peers(),
            final(self).local() == old(self).local(),
            final(self).managers() == old(self).managers(),
            final(self).downloaded_log() == old(self).downloaded_log(),
            final(self).options() == old(self).options(),
    {
        let ghost t = self.peer_options.piece_request_timeout * 1000;
        let timeout: u64 = match (self.peer_options.piece_request_timeout as u64).checked_mul(1000) {
            Some(v) => v,
            None => u64::MAX,
        };
        let i = match self.peer_active_work.find(peer_id) {
            Some(i) => i,
            None => {
                return None;
            },
        };
        proof {
            self.peer_active_work.lemma_keys();
        }
        let ghost pre = *self;
        let w = self.peer_active_work.replace_value_at(i, Vec::new());
        let ghost ws = w@;
        let ghost table_after = self.peer_active_work@;
        proof {
            assert(ws == old(self).work()[peer_id@]);
            assert(old(self).work().contains_key(peer_id@));
        }
        let mut kept: Vec<(usize, u64)> = Vec::new();
        let mut k: usize = 0;
        while k < w.len()
            invariant
                k <= ws.len(),
                w@ == ws,
                ws == old(self).work()[peer_id@],
                old(self).work().contains_key(peer_id@),
                forall|j: int| 0 <= j < ws.len() ==> (#[trigger] ws[j]).0 < old(self).num_pieces(),
                timeout == (if t <= u64::MAX {
                    t
                } else {
                    u64::MAX as int
                }),
                t == old(self).options().piece_request_timeout * 1000,
                self.local() == old(self).local(),
                self.local().len() == old(self).num_pieces(),
                kept@ == ws.subrange(0, k as int).filter(stays_assigned(old(self).local(), now, t)),
                self.piece_concurrency_counts@ == counts_after_timeouts(
                    old(self).counts(),
                    ws.subrange(0, k as int),
                    old(self).local(),
                    now,
                    t,
                ),
                forall|x: usize| #[trigger] self.piece_concurrency_counts@.contains_key(x) <==> old(self).counts().contains_key(x),
                self.peer_active_work.wf(),
                self.peer_active_work.keys() == pre.peer_active_work.keys(),
                self.peer_active_work@ == table_after,
                self.freq() == pre.freq(),
                self.buckets() == pre.buckets(),
                self.peer_bitfields == pre.peer_bitfields,
                self.managers() == pre.managers(),
                self.downloaded_log() == pre.downloaded_log(),
                self.options() == pre.options(),
            decreases ws.len() - k,
        {
            let (piece, time) = w[k];
            let ghost sub1 = ws.subrange(0, k + 1);
            proof {
                reveal(Seq::filter);
                assert(sub1.drop_last() =~= ws.subrange(0, k as int));
                assert(sub1.last() == (piece, time));
                assert(piece < old(self).num_pieces());
            }
            let held = self.local_bitfield.get(piece) == Some(true);
            let waited = if now >= time { now - time } else { 0 };
            if held {
            } else if waited > timeout {
                match self.piece_concurrency_counts.get(&piece) {
                    Some(count) => {
                        let c = *count;
                        if c > 0 {
                            self.piece_concurrency_counts.insert(piece, c - 1);
                        }
                    },
                    None => {},
                }
            } else {
                kept.push((piece, time));
            }
            k = k + 1;
            proof {
                assert forall|x: usize| #[trigger] self.piece_concurrency_counts@.contains_key(x) <==> old(self).counts().contains_key(x) by {
                }
            }
        }
        proof {
            assert(ws.subrange(0, k as int) =~= ws);
        }
        let result = copy_work(&kept);
        let ghost kv = kept@;
        self.peer_active_work.set_value_at(i, kept);
        proof {
            assert(self.work() =~= old(self).work().insert(peer_id@, kv));
            assert(self.counts() == counts_after_timeouts(old(self).counts(), ws, old(self).local(), now, t));
            assert forall|x: usize| #[trigger] self.counts().contains_key(x) implies x < self.num_pieces() && !self.local()[x as int] by {
                assert(old(self).counts().contains_key(x));
            }
            assert forall|x: usize| x < self.num_pieces() && !self.local()[x as int] implies #[trigger] self.counts().contains_key(x) by {
                assert(old(self).counts().contains_key(x));
            }
            assert forall|p: Seq<char>, j: int|
                #[trigger] self.work().contains_key(p) && 0 <= j < self.work()[p].len()
                    implies #[trigger] self.work()[p][j].0 < self.num_pieces() by {
                if p == peer_id@ {
                    let e = self.work()[p][j];
                    assert(kv[j] == e);
                    assert(kv.contains(e));
                    ws.lemma_filter_contains_rev(stays_assigned(old(self).local(), now, t), e);
                    let jj = choose|jj: int| 0 <= jj < ws.len() && ws[jj] == e;
                    assert(ws[jj].0 < self.num_pieces());
                } else {
                    assert(old(self).work().contains_key(p));
                    assert(self.work()[p] == old(self).work()[p]);
                }
            }
            Self::lemma_counting_kept(&*old(self), &*self);
            assert(self.managers() == old(self).managers());
            Self::lemma_inactive_kept(&*old(self), &*self);
        }
        Some(result)
    }

    /// Whether `peer_id` announced a piece that we do not hold.
    pub fn has_useful_pieces(&self, peer_id: &String) -> (r: bool)
        requires
            self.wf(),
            self.bitfields().contains_key(peer_id@),
        ensures
            r == exists|i: int| 0 <= i < self.num_pieces() && !self.local()[i] && self.peer_has(peer_id@, i),
    {
        let stored = self.peer_bitfields.get(peer_id).unwrap();
        proof {
            assert(bitfield_view(*stored) == self.bitfields()[peer_id@]);
        }
        let peer_bf = stored.duplicate();
        let mask = self.local_bitfield.duplicate().inverted().and(peer_bf);
        let ones = mask.count_ones();
        proof {
            let m = bitfield_view(mask);
            lemma_count_true_positive(m);
            if exists|i: int| 0 <= i < m.len() && m[i] {
                let i = choose|i: int| 0 <= i < m.len() && m[i];
                assert(!self.local()[i] && self.peer_has(peer_id@, i));
            }
            if exists|i: int| 0 <= i < self.num_pieces() && !self.local()[i] && self.peer_has(peer_id@, i) {
                let i = choose|i: int| 0 <= i < self.num_pieces() && !self.local()[i] && self.peer_has(peer_id@, i);
                assert(m[i]);
            }
        }
        ones > 0
    }

    /// The peers with a bitfield, in the order they were first added.
    pub fn active_peers(&self) -> (r: Vec<String>)
        requires
            self.wf(),
        ensures
            r@.map_values(|s: String| s@) == self.peers(),
    {
        self.peer_bitfields.key_list()
    }

    /// The pieces written to disk since the first `since` of them.
    pub fn have_message_progress(&self, since: u64) -> (r: Vec<u32>)
        requires
            since <= self.downloaded_log().len(),
        ensures
            r@ == self.downloaded_log().subrange(since as int, self.downloaded_log().len() as int),
    {
        let len = self.downloaded_piece_index.len();
        let mut r: Vec<u32> = Vec::new();
        let mut k = since as usize;
        proof {
            assert(r@ =~= self.downloaded_log().subrange(since as int, k as int));
        }
        while k < self.downloaded_piece_index.len()
            invariant
                since <= k <= self.downloaded_log().len(),
                r@ == self.downloaded_log().subrange(since as int, k as int),
            decreases self.downloaded_log().len() - k,
        {
            r.push(self.downloaded_piece_index[k]);
            k = k + 1;
            proof {
                assert(r@ =~= self.downloaded_log().subrange(since as int, k as int));
            }
        }
        r
    }

    /// Whether `peer_id` is tracked with a work list.
    pub fn tracks_work(&self, peer_id: &String) -> (r: bool)
        requires
            self.wf(),
        ensures
            r == self.work().contains_key(peer_id@),
    {
        let r = self.peer_active_work.find(peer_id).is_some();
        proof {
            self.peer_active_work.lemma_keys();
        }
        r
    }

    /// The limits the manager works with.
    pub fn get_peer_options(&self) -> (r: PeerOptions)
        ensures
            r == self.options(),
    {
        self.peer_options
    }

    /// The number of pieces of the torrent.
    pub fn piece_count(&self) -> (r: usize)
        ensures
            r == self.num_pieces(),
    {
        self.local_bitfield.len()
    }

    /// Whether we hold piece `idx` (false past the last piece).
    pub fn holds_piece(&self, idx: usize) -> (r: bool)
        ensures
            r == self.holds(idx as int),
    {
        self.local_bitfield.get(idx) == Some(true)
    }

    /// What a well-formed state guarantees: frequencies and rarity buckets
    /// agree (a piece is in bucket `b >= 1` exactly when its frequency is
    /// `b`, bucket 0 is empty); a piece we
    /// hold has frequency 0, no concurrency count and no download in
    /// progress; a piece we lack has a concurrency count, and frequency at
    /// least 1 once some peer announced it.
    pub proof fn lemma_wf_facts(&self)
        requires
            self.wf(),
        ensures
            rarity_consistent(self.freq(), self.buckets(), self.num_pieces()),
            self.held_uncounted(),
            self.held_inactive(),
            self.announced_counted(),
            forall|i: usize| #[trigger]
                self.counts().contains_key(i) <==> (i < self.num_pieces() && !self.local()[i as int]),
    {
    }

    /// Finishing a piece a second time changes nothing and hands nothing
    /// back.
    pub proof fn lemma_finish_idempotent(
        s0: Self,
        s1: Self,
        s2: Self,
        index: usize,
        r1: Option<M>,
        r2: Option<M>,
    )
        requires
            s0.wf(),
            index < s0.num_pieces(),
            Self::finish_step(s0, s1, index, r1),
            Self::finish_step(s1, s2, index, r2),
        ensures
            r2 is None,
            s2 == s1,
    {
    }

    /// The download recorded for a piece is what a lookup of that piece
    /// gives; finishing the piece hands that same download back, and a
    /// lookup afterwards gives nothing.
    pub proof fn lemma_manager_lookup(s0: Self, s1: Self, s2: Self, idx: usize, m: M, r: Option<M>)
        requires
            s1.wf(),
            s1.managers() == s0.managers().insert(idx, m),
            Self::finish_step(s1, s2, idx, r),
        ensures
            s1.managers().contains_key(idx),
            s1.managers()[idx] == m,
            r == Some(m),
            !s2.managers().contains_key(idx),
    {
        assert(s1.managers().contains_key(idx));
        assert(!s1.holds(idx as int));
    }

    /// A fresh manager for a torrent of `num_pieces` pieces: no peers, no
    /// piece held, no piece seen, every piece with a concurrency count of zero.
    pub fn new(num_pieces: usize, peer_options: PeerOptions) -> (r: Self)
        requires
            num_pieces <= usize::MAX / 8,
        ensures
            r.wf(),
            r.num_pieces() == num_pieces,
            r.local() == Seq::new(num_pieces as nat, |i: int| false),
            r.freq() == Seq::new(num_pieces as nat, |i: int| 0usize),
            forall|b: int| 0 <= b < 256 ==> #[trigger] r.buckets()[b] == Set::<usize>::empty(),
            r.bitfields() == Map::<Seq<char>, Seq<bool>>::empty(),
            r.work() == Map::<Seq<char>, Seq<(usize, u64)>>::empty(),
            r.counts() == Map::new(|i: usize| i < num_pieces, |i: usize| 0usize),
            r.managers() == Map::<usize, M>::empty(),
            r.downloaded_log() == Seq::<u32>::empty(),
            r.options() == peer_options,
    {
        let mut pieces_frequency: Vec<usize> = Vec::new();
        let mut counts: HashMap<usize, usize> = HashMap::new();
        let mut i: usize = 0;
        while i < num_pieces
            invariant
                i <= num_pieces,
                pieces_frequency@ == Seq::new(i as nat, |k: int| 0usize),
                counts@ == Map::new(|k: usize| k < i, |k: usize| 0usize),
            decreases num_pieces - i,
        {
            pieces_frequency.push(0);
            counts.insert(i, 0);
            i = i + 1;
            proof {
                assert(pieces_frequency@ =~= Seq::new(i as nat, |k: int| 0usize));
                assert(counts@ =~= Map::new(|k: usize| k < i, |k: usize| 0usize));
            }
        }
        let mut rarity_bucket: Vec<HashSet<usize>> = Vec::new();
        let mut b: usize = 0;
        while b < RARITY_BUCKETS
            invariant
                b <= 256,
                rarity_bucket@.len() == b,
                forall|k: int| 0 <= k < b ==> (#[trigger] rarity_bucket@[k])@ == Set::<usize>::empty(),
            decreases 256 - b,
        {
            rarity_bucket.push(HashSet::new());
            b = b + 1;
        }
        let r = TorrentManagerState {
            pieces_frequency,
            rarity_bucket,
            peer_bitfields: PeerTable::new(),
            local_bitfield: BitField::zeroed(num_pieces),
            peer_active_work: PeerTable::new(),
            piece_concurrency_counts: counts,
            active_pieces_manager: HashMap::new(),
            downloaded_piece_index: Vec::new(),
            peer_options,
        };
        proof {
            assert(r.bitfields() =~= Map::<Seq<char>, Seq<bool>>::empty());
            assert(r.work() =~= Map::<Seq<char>, Seq<(usize, u64)>>::empty());
            assert forall|b: int, x: usize| 1 <= b < 256 implies (#[trigger] r.buckets()[b].contains(x)
                <==> (x < num_pieces && r.freq()[x as int] == b)) by {
                assert(r.buckets()[b] == Set::<usize>::empty());
            }
            assert forall|x: usize| !#[trigger] r.buckets()[0].contains(x) by {
                assert(r.buckets()[0] == Set::<usize>::empty());
            }
        }
        r
    }
}

} // verus!
