//! The decisions of the tracker refresh loop: which trackers are spoken to
//! over HTTP, which peers of a reply are new, which tracker of a tier is
//! asked first next time, and how long to wait between announces.
use crate::protocols::tracker::{copy_peers, peer_views, Peer, PeerView, TrackerResponse, TrackerResponseView};
use vstd::prelude::*;
use vstd::string::StrSliceExecFns;

verus! {

/// Whether `s` begins with `prefix`.
pub open spec fn has_prefix(s: Seq<char>, prefix: Seq<char>) -> bool {
    prefix.len() <= s.len() && s.subrange(0, prefix.len() as int) == prefix
}

/// Whether `s` begins with `prefix`.
pub fn starts_with(s: &str, prefix: &str) -> (r: bool)
    ensures
        r == has_prefix(s@, prefix@),
{
    let n = s.unicode_len();
    let m = prefix.unicode_len();
    if m > n {
        return false;
    }
    let mut i: usize = 0;
    while i < m
        invariant
            i <= m <= n,
            n == s@.len(),
            m == prefix@.len(),
            s@.subrange(0, i as int) == prefix@.subrange(0, i as int),
        decreases m - i,
    {
        if s.get_char(i) != prefix.get_char(i) {
            proof {
                assert(s@.subrange(0, m as int)[i as int] != prefix@[i as int]);
            }
            return false;
        }
        i = i + 1;
        proof {
            assert(s@.subrange(0, i as int) =~= prefix@.subrange(0, i as int));
        }
    }
    proof {
        assert(prefix@.subrange(0, m as int) =~= prefix@);
    }
    true
}

/// Whether the tracker at `url` is spoken to over HTTP(S) rather than UDP.
pub fn is_http_tracker(url: &str) -> (r: bool)
    ensures
        r == (has_prefix(url@, "https"@) || has_prefix(url@, "http"@)),
{
    starts_with(url, "https") || starts_with(url, "http")
}

/// Whether some peer of `seen` has the address `ip`.
pub open spec fn ip_seen(seen: Seq<PeerView>, ip: Seq<char>) -> bool {
    exists|j: int| 0 <= j < seen.len() && seen[j].ip == ip
}

/// The peers of a reply whose address is not among those of `seen`.
pub open spec fn unseen_spec(new_peers: Seq<PeerView>, seen: Seq<PeerView>) -> Seq<PeerView> {
    new_peers.filter(|p: PeerView| !ip_seen(seen, p.ip))
}

/// The peers of `new_peers`, in order, whose address no peer of `seen` has.
pub fn unseen_peers(new_peers: Vec<Peer>, seen: &Vec<Peer>) -> (r: Vec<Peer>)
    ensures
        peer_views(r@) == unseen_spec(peer_views(new_peers@), peer_views(seen@)),
{
    let ghost sv = peer_views(seen@);
    let ghost nv = peer_views(new_peers@);
    let mut kept: Vec<Peer> = Vec::new();
    let mut rest = new_peers;
    let mut i: usize = 0;
    let n = rest.len();
    while i < n
        invariant
            n == rest@.len(),
            i <= n,
            nv == peer_views(rest@),
            sv == peer_views(seen@),
            peer_views(kept@) == unseen_spec(nv.subrange(0, i as int), sv),
        decreases n - i,
    {
        let p = &rest[i];
        let mut found = false;
        let mut j: usize = 0;
        while j < seen.len()
            invariant
                j <= seen@.len(),
                sv == peer_views(seen@),
                found <==> exists|t: int| 0 <= t < j && sv[t].ip == p@.ip,
            decreases seen@.len() - j,
        {
            proof {
                assert(sv[j as int] == seen@[j as int]@);
            }
            if seen[j].ip == p.ip {
                found = true;
            }
            j = j + 1;
        }
        proof {
            reveal(Seq::filter);
            assert(nv.subrange(0, i + 1).drop_last() =~= nv.subrange(0, i as int));
            assert(nv[i as int] == p@);
        }
        if !found {
            let c = p.clone();
            let ghost before = kept@;
            kept.push(c);
            proof {
                assert(peer_views(kept@) =~= peer_views(before).push(c@));
            }
        }
        i = i + 1;
    }
    proof {
        assert(nv.subrange(0, i as int) =~= nv);
    }
    kept
}

/// The peers passed on from a reply are exactly its peers whose address has
/// not been seen, in the reply's order: none of them has a seen address, and
/// each peer of the reply with an unseen address is among them.
pub proof fn lemma_unseen_peers_are_new(new_peers: Seq<PeerView>, seen: Seq<PeerView>)
    ensures
        forall|k: int|
            0 <= k < unseen_spec(new_peers, seen).len() ==> !ip_seen(seen, #[trigger] unseen_spec(new_peers, seen)[k].ip),
        forall|j: int|
            0 <= j < new_peers.len() && !ip_seen(seen, new_peers[j].ip) ==> unseen_spec(new_peers, seen).contains(
                #[trigger] new_peers[j],
            ),
        unseen_spec(new_peers, seen).len() <= new_peers.len(),
{
    let f = |p: PeerView| !ip_seen(seen, p.ip);
    broadcast use vstd::seq_lib::group_filter_ensures;
    assert forall|j: int| 0 <= j < new_peers.len() && !ip_seen(seen, new_peers[j].ip) implies unseen_spec(
        new_peers,
        seen,
    ).contains(#[trigger] new_peers[j]) by {
        assert(f(new_peers[j]));
        assert(new_peers.contains(new_peers[j]));
    }
}

/// Moves the tracker at `idx` of `tier` to its front, keeping the order of
/// the others: the tracker that answered is asked first next time.
pub fn promote_tracker(tier: &mut Vec<String>, idx: usize)
    requires
        idx < old(tier)@.len(),
    ensures
        final(tier)@ == seq![old(tier)@[idx as int]] + old(tier)@.remove(idx as int),
{
    let url = tier.remove(idx);
    tier.insert(0, url);
    proof {
        assert(final(tier)@ =~= seq![old(tier)@[idx as int]] + old(tier)@.remove(idx as int));
    }
}

/// `5` to the power `n`.
pub open spec fn five_pow(n: nat) -> nat
    decreases n,
{
    if n == 0 {
        1
    } else {
        5 * five_pow((n - 1) as nat)
    }
}

proof fn lemma_five_pow_monotone(i: nat, j: nat)
    requires
        i <= j,
    ensures
        1 <= five_pow(i) <= five_pow(j),
    decreases j,
{
    if j > i {
        lemma_five_pow_monotone(i, (j - 1) as nat);
    } else if i > 0 {
        lemma_five_pow_monotone((i - 1) as nat, (i - 1) as nat);
    }
}

/// How long, in seconds, a tier waits before its next round: the interval
/// of the tracker that answered (its 64 bits read as unsigned), or, when
/// none answered (`interval` 0), `5^tier_retry` after `tier_retry` failures.
pub fn tier_sleep_secs(interval: i64, tier_retry: u32) -> (r: u64)
    requires
        interval != 0 || five_pow(tier_retry as nat) <= u32::MAX,
    ensures
        interval != 0 ==> r == interval as u64,
        interval == 0 ==> r == five_pow(tier_retry as nat),
{
    if interval != 0 {
        interval as u64
    } else {
        let mut p: u32 = 1;
        let mut i: u32 = 0;
        while i < tier_retry
            invariant
                i <= tier_retry,
                p == five_pow(i as nat),
                five_pow(tier_retry as nat) <= u32::MAX,
            decreases tier_retry - i,
        {
            proof {
                lemma_five_pow_monotone((i + 1) as nat, tier_retry as nat);
            }
            p = p * 5;
            i = i + 1;
        }
        p as u64
    }
}

/// Whether two peers are the same: same id, address and port.
pub fn same_peer(a: &Peer, b: &Peer) -> (r: bool)
    ensures
        r == (a@ == b@),
{
    let same_id = match (&a.peer_id, &b.peer_id) {
        (Some(x), Some(y)) => *x == *y,
        (None, None) => true,
        _ => false,
    };
    same_id && a.ip == b.ip && a.port == b.port
}

/// Whether `ps` holds a peer equal to `p`.
fn holds_peer(ps: &Vec<Peer>, p: &Peer) -> (r: bool)
    ensures
        r == peer_views(ps@).contains(p@),
{
    let mut i: usize = 0;
    while i < ps.len()
        invariant
            i <= ps@.len(),
            forall|k: int| 0 <= k < i ==> ps@[k]@ != p@,
        decreases ps@.len() - i,
    {
        if same_peer(&ps[i], p) {
            proof {
                assert(peer_views(ps@)[i as int] == p@);
            }
            return true;
        }
        i = i + 1;
    }
    false
}

/// The peers of `new_peers`, in order, that `old_peers` does not hold.
pub open spec fn new_only_spec(new_peers: Seq<PeerView>, old_peers: Seq<PeerView>) -> Seq<PeerView> {
    new_peers.filter(|p: PeerView| !old_peers.contains(p))
}

/// The peers of `new_peers`, in order, that `old_peers` does not hold.
pub fn new_only_peers(new_peers: &Vec<Peer>, old_peers: &Vec<Peer>) -> (r: Vec<Peer>)
    ensures
        peer_views(r@) == new_only_spec(peer_views(new_peers@), peer_views(old_peers@)),
{
    let ghost nv = peer_views(new_peers@);
    let ghost ov = peer_views(old_peers@);
    let mut kept: Vec<Peer> = Vec::new();
    let mut i: usize = 0;
    while i < new_peers.len()
        invariant
            i <= new_peers@.len(),
            nv == peer_views(new_peers@),
            ov == peer_views(old_peers@),
            peer_views(kept@) == new_only_spec(nv.subrange(0, i as int), ov),
        decreases new_peers@.len() - i,
    {
        let held = holds_peer(old_peers, &new_peers[i]);
        proof {
            reveal(Seq::filter);
            assert(nv.subrange(0, i + 1).drop_last() =~= nv.subrange(0, i as int));
            assert(nv[i as int] == new_peers@[i as int]@);
        }
        if !held {
            let c = new_peers[i].clone();
            let ghost before = kept@;
            kept.push(c);
            proof {
                assert(peer_views(kept@) =~= peer_views(before).push(c@));
            }
        }
        i = i + 1;
    }
    proof {
        assert(nv.subrange(0, i as int) =~= nv);
    }
    kept
}

/// What the single-tracker refresh loop does with a reply.
#[derive(Debug)]
pub enum RefreshStep {
    /// The reply names no peers: ask again after a short wait.
    Retry,
    /// Keep the reply as the last one, send `send` on (when there is
    /// something to send), and wait `wait_secs` seconds.
    Publish { send: Option<TrackerResponse>, wait_secs: i64 },
}

/// What the single-tracker refresh loop sends on after a reply: the first
/// reply whole; later ones only when the last reply had a peer list, and
/// then with just the peers that list did not hold, if there are any.
pub open spec fn refresh_send_spec(last: Option<TrackerResponseView>, new_resp: TrackerResponseView) -> Option<TrackerResponseView> {
    match last {
        None => Some(new_resp),
        Some(old) => match old.peers {
            None => None,
            Some(op) => {
                let fresh = new_only_spec(new_resp.peers.unwrap(), op);
                if fresh.len() == 0 {
                    None
                } else {
                    Some(TrackerResponseView { peers: Some(fresh), ..new_resp })
                }
            },
        },
    }
}

/// The view of an optional reply.
pub open spec fn opt_response(o: Option<TrackerResponse>) -> Option<TrackerResponseView> {
    match o {
        Some(t) => Some(t@),
        None => None,
    }
}

/// The single-tracker refresh loop's step after the reply `new_resp`, the
/// last kept reply being `last`: retry when the reply names no peers, else
/// publish what [`refresh_send_spec`] says and wait the reply's interval
/// (900 seconds when it gives none).
pub fn legacy_refresh_step(last: &Option<TrackerResponse>, new_resp: &TrackerResponse) -> (r: RefreshStep)
    ensures
        new_resp.peers is None ==> r is Retry,
        new_resp.peers is Some ==> (r matches RefreshStep::Publish { send, wait_secs } && opt_response(send)
            == refresh_send_spec(opt_response(*last), new_resp@) && wait_secs == match new_resp.interval {
            Some(v) => v,
            None => 900,
        }),
{
    let new_peers = match &new_resp.peers {
        Some(p) => p,
        None => {
            return RefreshStep::Retry;
        },
    };
    let wait_secs = match new_resp.interval {
        Some(v) => v,
        None => 900,
    };
    let send = match last {
        None => Some(new_resp.clone()),
        Some(old_resp) => match &old_resp.peers {
            None => None,
            Some(old_peers) => {
                let fresh = new_only_peers(new_peers, old_peers);
                if fresh.len() == 0 {
                    None
                } else {
                    let failure_reason = match &new_resp.failure_reason {
                        Some(s) => Some(s.clone()),
                        None => None,
                    };
                    Some(TrackerResponse { failure_reason, interval: new_resp.interval, peers: Some(fresh) })
                }
            },
        },
    };
    RefreshStep::Publish { send, wait_secs }
}

/// Where a round over a tier of trackers stands: the interval of the
/// tracker that answered (0 while none has), and how many failed.
pub struct TierRound {
    pub interval: i64,
    pub tier_retry: u32,
}

impl TierRound {
    /// A round that has just begun: no answer, no failure.
    pub fn new() -> (r: Self)
        ensures
            r.interval == 0,
            r.tier_retry == 0,
    {
        TierRound { interval: 0, tier_retry: 0 }
    }

    /// Tracker `idx` of `tier` answered with `answer` (its interval), or
    /// failed (`None`). On an answer the round ends (`true` is returned): the
    /// interval is kept and the tracker moves to the front of the tier. On a
    /// failure one more failure is counted and the round goes on with the
    /// next tracker (`false`).
    pub fn after_tracker(&mut self, tier: &mut Vec<String>, idx: usize, answer: Option<i64>) -> (r: bool)
        requires
            idx < old(tier)@.len(),
            answer is None ==> old(self).tier_retry < u32::MAX,
        ensures
            r == answer is Some,
            match answer {
                Some(interval) => {
                    &&& final(self).interval == interval
                    &&& final(self).tier_retry == old(self).tier_retry
                    &&& final(tier)@ == seq![old(tier)@[idx as int]] + old(tier)@.remove(idx as int)
                },
                None => {
                    &&& final(self).interval == old(self).interval
                    &&& final(self).tier_retry == old(self).tier_retry + 1
                    &&& final(tier)@ == old(tier)@
                },
            },
    {
        match answer {
            Some(interval) => {
                self.interval = interval;
                promote_tracker(tier, idx);
                true
            },
            None => {
                self.tier_retry = self.tier_retry + 1;
                false
            },
        }
    }

    /// How long, in seconds, the tier waits after this round (see [`tier_sleep_secs`]).
    pub fn sleep_secs(&self) -> (r: u64)
        requires
            self.interval != 0 || five_pow(self.tier_retry as nat) <= u32::MAX,
        ensures
            self.interval != 0 ==> r == self.interval as u64,
            self.interval == 0 ==> r == five_pow(self.tier_retry as nat),
    {
        tier_sleep_secs(self.interval, self.tier_retry)
    }
}

/// How many empty receives in a row the peer handshake loop tolerates
/// before it stops waiting for trackers.
pub const HANDSHAKE_RETRIES: u32 = 10;

/// The receive attempts the peer handshake loop has left after one more:
/// a tracker reply restores the whole budget, an empty receive uses one up
/// (none left stays none). The loop stops once none is left.
pub fn handshake_retries_after(retries: u32, received: bool) -> (r: u32)
    ensures
        r == (if received {
            HANDSHAKE_RETRIES as int
        } else if retries > 0 {
            retries - 1
        } else {
            0
        }),
{
    if received {
        HANDSHAKE_RETRIES
    } else if retries > 0 {
        retries - 1
    } else {
        0
    }
}

} // verus!
