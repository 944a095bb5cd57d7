//! The decisions of a peer connection: what each received message changes
//! and asks for, how many block requests may be sent, when to declare
//! interest or take on a new piece, and which pieces remain assigned.
use crate::bits::{bitfield_view, BitField};
use crate::models::peer_messages::PeerMessage;
use crate::protocols::peer_handshake::PeerState;
use vstd::prelude::*;

verus! {

/// The most block requests kept in flight to one peer.
pub const MAX_INFLIGHT: u64 = 25;

/// The most pieces fetched from one peer at a time.
pub const MAX_ACTIVE_PIECES: u64 = 5;

/// The counters of one peer connection.
#[derive(Debug)]
pub struct PeerFsmCounters {
    /// Block requests sent and not yet answered.
    pub inflight_messages: u64,
    /// Pieces being fetched from this peer.
    pub pending_active_request_count: u64,
}

impl PeerFsmCounters {
    /// Nothing in flight, no piece being fetched.
    pub fn new() -> (r: Self)
        ensures
            r.inflight_messages == 0,
            r.pending_active_request_count == 0,
    {
        PeerFsmCounters { inflight_messages: 0, pending_active_request_count: 0 }
    }
}

/// How many more block requests may be sent: none while choked or with
/// `MAX_INFLIGHT` or more in flight, else what is left up to `MAX_INFLIGHT`.
pub fn request_window(is_choked: bool, inflight: u64) -> (r: u64)
    ensures
        r == window_spec(is_choked, inflight),
        !is_choked && inflight < MAX_INFLIGHT ==> inflight + r == MAX_INFLIGHT,
        is_choked || inflight >= MAX_INFLIGHT ==> r == 0,
{
    if is_choked || inflight >= MAX_INFLIGHT {
        0
    } else {
        MAX_INFLIGHT - inflight
    }
}

/// How many more block requests may be sent with `inflight` in flight.
pub open spec fn window_spec(is_choked: bool, inflight: u64) -> int {
    if is_choked || inflight >= MAX_INFLIGHT {
        0
    } else {
        MAX_INFLIGHT - inflight
    }
}

/// Requests sent within the window never take the number in flight above
/// `MAX_INFLIGHT`, and a choked connection sends none; an unchoked one with
/// room fills the window exactly: what is in flight plus what may be sent
/// is `MAX_INFLIGHT`.
pub proof fn lemma_window_bounded(is_choked: bool, inflight: u64)
    ensures
        0 <= window_spec(is_choked, inflight),
        inflight <= MAX_INFLIGHT ==> inflight + window_spec(is_choked, inflight) <= MAX_INFLIGHT,
        is_choked ==> window_spec(is_choked, inflight) == 0,
        !is_choked && inflight < MAX_INFLIGHT ==> inflight + window_spec(is_choked, inflight) == MAX_INFLIGHT,
        inflight >= MAX_INFLIGHT ==> window_spec(is_choked, inflight) == 0,
{
}

/// What changes the number of block requests in flight to a peer.
pub enum InflightEvent {
    /// The peer choked us: every request in flight is void.
    Choked,
    /// A block arrived: it answers one request.
    BlockArrived,
    /// We sent one more request.
    RequestSent,
    /// Anything else.
    Other,
}

/// The number of requests in flight after `e`, from `c`.
pub open spec fn inflight_step(c: u64, e: InflightEvent) -> u64 {
    match e {
        InflightEvent::Choked => 0,
        InflightEvent::BlockArrived => if c == 0 {
            0
        } else {
            (c - 1) as u64
        },
        InflightEvent::RequestSent => if c < MAX_INFLIGHT {
            (c + 1) as u64
        } else {
            c
        },
        InflightEvent::Other => c,
    }
}

/// The number of requests in flight after the events `events`, in order, from `c`.
pub open spec fn inflight_after(c: u64, events: Seq<InflightEvent>) -> u64
    decreases events.len(),
{
    if events.len() == 0 {
        c
    } else {
        inflight_after(inflight_step(c, events[0]), events.drop_first())
    }
}

/// The event that a received message is for the count of requests in flight.
pub open spec fn message_event(m: PeerMessage) -> InflightEvent {
    match m {
        PeerMessage::Choke => InflightEvent::Choked,
        PeerMessage::Piece { .. } => InflightEvent::BlockArrived,
        _ => InflightEvent::Other,
    }
}

/// Over any run of a connection (chokes, unchokes, blocks and requests sent
/// in any interleaving), the number of requests in flight never leaves
/// `0 ..= MAX_INFLIGHT` once it starts there.
pub proof fn lemma_inflight_stays_bounded(c: u64, events: Seq<InflightEvent>)
    requires
        c <= MAX_INFLIGHT,
    ensures
        inflight_after(c, events) <= MAX_INFLIGHT,
    decreases events.len(),
{
    if events.len() > 0 {
        lemma_inflight_stays_bounded(inflight_step(c, events[0]), events.drop_first());
    }
}

/// A block request was sent: one more is in flight. The writer sends no
/// more than [`request_window`] allows, so the count stays within
/// `MAX_INFLIGHT`; it is never taken past it.
pub fn on_request_sent(counters: &mut PeerFsmCounters)
    ensures
        final(counters).inflight_messages == (if old(counters).inflight_messages < MAX_INFLIGHT {
            old(counters).inflight_messages + 1
        } else {
            old(counters).inflight_messages as int
        }),
        final(counters).inflight_messages == inflight_step(old(counters).inflight_messages, InflightEvent::RequestSent),
        old(counters).inflight_messages <= MAX_INFLIGHT ==> final(counters).inflight_messages <= MAX_INFLIGHT,
        final(counters).pending_active_request_count == old(counters).pending_active_request_count,
{
    if counters.inflight_messages < MAX_INFLIGHT {
        counters.inflight_messages = counters.inflight_messages + 1;
    }
}

/// This connection took on one more piece to fetch. A pass asks for one
/// only while fewer than `MAX_ACTIVE_PIECES` are being fetched (see
/// [`plan_full_pass`]), so the count stays within it; it is never taken past it.
pub fn on_piece_taken(counters: &mut PeerFsmCounters)
    ensures
        final(counters).pending_active_request_count == (if old(counters).pending_active_request_count
            < MAX_ACTIVE_PIECES {
            old(counters).pending_active_request_count + 1
        } else {
            old(counters).pending_active_request_count as int
        }),
        final(counters).inflight_messages == old(counters).inflight_messages,
{
    if counters.pending_active_request_count < MAX_ACTIVE_PIECES {
        counters.pending_active_request_count = counters.pending_active_request_count + 1;
    }
}

/// What one pass over the connection's state decides.
#[derive(Debug)]
pub struct FullPassPlan {
    /// Tell the peer we are interested.
    pub send_interested: bool,
    /// Ask the torrent for one more piece to fetch from this peer.
    pub request_piece: bool,
}

/// The decisions of one pass: declare interest when the peer has pieces we
/// lack and we have not yet done so; take on another piece when we are not
/// choked and fetch fewer than `MAX_ACTIVE_PIECES` from this peer.
pub fn plan_full_pass(state: &PeerState, active_pieces_count: u64) -> (r: FullPassPlan)
    ensures
        r.send_interested == (state.has_useful_pieces && !state.am_interested),
        r.request_piece == (!state.peer_choking && active_pieces_count < MAX_ACTIVE_PIECES),
{
    FullPassPlan {
        send_interested: state.has_useful_pieces && !state.am_interested,
        request_piece: !state.peer_choking && active_pieces_count < MAX_ACTIVE_PIECES,
    }
}

/// What the connection must do after a received message.
#[derive(Debug)]
pub enum ReaderAction {
    /// Nothing (keep-alives, requests, which are not served, and messages
    /// the client does not use).
    Nothing,
    /// Wake the writer for a full pass: the choke or interest state changed.
    NotifyStateChange,
    /// Record that the peer now has piece `piece_index`.
    UpdateBitfield { piece_index: u64 },
    /// Record the peer's bitfield, then whether it has pieces we lack.
    AddBitfield,
    /// Drop the connection: the peer sent a bitfield of the wrong size or
    /// with spare bits set.
    DropConnection,
    /// Hand the block at `block_offset` of piece `piece_index` to the
    /// piece's manager: the connection's own when it fetches the piece,
    /// else the torrent's, while the torrent still downloads the piece.
    DeliverBlock { piece_index: u64, block_offset: u64 },
}

/// Whether a bitfield `bits` is well formed for a torrent of `n` pieces:
/// one bit per piece rounded up to whole bytes, and every spare bit clear.
pub open spec fn bitfield_acceptable(bits: Seq<bool>, n: int) -> bool {
    &&& bits.len() % 8 == 0
    &&& bits.len() / 8 == (if n % 8 == 0 { n / 8 } else { n / 8 + 1 })
    &&& forall|i: int| n <= i < bits.len() ==> !#[trigger] bits[i]
}

/// Whether `bitfield` is well formed for a torrent of `num_pieces` pieces.
pub fn is_acceptable_bitfield(bitfield: &BitField, num_pieces: usize) -> (r: bool)
    ensures
        r == bitfield_acceptable(bitfield_view(*bitfield), num_pieces as int),
{
    let len = bitfield.len();
    let bytes_needed = if num_pieces % 8 == 0 {
        num_pieces / 8
    } else {
        num_pieces / 8 + 1
    };
    if len % 8 != 0 || len / 8 != bytes_needed {
        return false;
    }
    let mut i = num_pieces;
    while i < len
        invariant
            num_pieces <= i <= len,
            len == bitfield_view(*bitfield).len(),
            forall|k: int| num_pieces <= k < i ==> !#[trigger] bitfield_view(*bitfield)[k],
        decreases len - i,
    {
        if bitfield.get(i) == Some(true) {
            return false;
        }
        i = i + 1;
    }
    true
}

/// The effect of a received message on a connection for a torrent of
/// `num_pieces` pieces: a choke stops all requests in flight, an unchoke or
/// a change of the peer's interest only updates the state; each of these
/// wakes the writer. A bitfield is recorded when it is well formed, else the
/// connection is dropped. A block received leaves one request fewer in
/// flight (none stays none).
pub fn on_peer_message(
    state: &mut PeerState,
    counters: &mut PeerFsmCounters,
    msg: &PeerMessage,
    num_pieces: usize,
) -> (r: ReaderAction)
    ensures
        final(state).peer_id == old(state).peer_id,
        final(state).am_choking == old(state).am_choking,
        final(state).am_interested == old(state).am_interested,
        final(state).keep_alive == old(state).keep_alive,
        final(state).has_useful_pieces == old(state).has_useful_pieces,
        final(counters).pending_active_request_count == old(counters).pending_active_request_count,
        final(counters).inflight_messages <= old(counters).inflight_messages,
        final(counters).inflight_messages == inflight_step(old(counters).inflight_messages, message_event(*msg)),
        match *msg {
            PeerMessage::Choke => {
                &&& final(state).peer_choking
                &&& final(state).peer_interested == old(state).peer_interested
                &&& final(counters).inflight_messages == 0
                &&& r is NotifyStateChange
            },
            PeerMessage::Unchoke => {
                &&& !final(state).peer_choking
                &&& final(state).peer_interested == old(state).peer_interested
                &&& final(counters).inflight_messages == old(counters).inflight_messages
                &&& r is NotifyStateChange
            },
            PeerMessage::Interested => {
                &&& final(state).peer_choking == old(state).peer_choking
                &&& final(state).peer_interested
                &&& final(counters).inflight_messages == old(counters).inflight_messages
                &&& r is NotifyStateChange
            },
            PeerMessage::NotInterested => {
                &&& final(state).peer_choking == old(state).peer_choking
                &&& !final(state).peer_interested
                &&& final(counters).inflight_messages == old(counters).inflight_messages
                &&& r is NotifyStateChange
            },
            PeerMessage::Have { piece_index } => {
                &&& final(state).peer_choking == old(state).peer_choking
                &&& final(state).peer_interested == old(state).peer_interested
                &&& final(counters).inflight_messages == old(counters).inflight_messages
                &&& r == ReaderAction::UpdateBitfield { piece_index }
            },
            PeerMessage::Bitfield { bitfield } => {
                &&& final(state).peer_choking == old(state).peer_choking
                &&& final(state).peer_interested == old(state).peer_interested
                &&& final(counters).inflight_messages == old(counters).inflight_messages
                &&& (if bitfield_acceptable(bitfield_view(bitfield), num_pieces as int) {
                    r is AddBitfield
                } else {
                    r is DropConnection
                })
            },
            PeerMessage::Piece { piece_index, block_offset, .. } => {
                &&& final(state).peer_choking == old(state).peer_choking
                &&& final(state).peer_interested == old(state).peer_interested
                &&& final(counters).inflight_messages == (if old(counters).inflight_messages == 0 {
                    0
                } else {
                    old(counters).inflight_messages - 1
                })
                &&& r == ReaderAction::DeliverBlock { piece_index, block_offset }
            },
            _ => {
                &&& final(state).peer_choking == old(state).peer_choking
                &&& final(state).peer_interested == old(state).peer_interested
                &&& final(counters).inflight_messages == old(counters).inflight_messages
                &&& r is Nothing
            },
        },
{
    match msg {
        PeerMessage::KeepAlive => ReaderAction::Nothing,
        PeerMessage::Choke => {
            state.peer_choking = true;
            counters.inflight_messages = 0;
            ReaderAction::NotifyStateChange
        },
        PeerMessage::Unchoke => {
            state.peer_choking = false;
            ReaderAction::NotifyStateChange
        },
        PeerMessage::Interested => {
            state.peer_interested = true;
            ReaderAction::NotifyStateChange
        },
        PeerMessage::NotInterested => {
            state.peer_interested = false;
            ReaderAction::NotifyStateChange
        },
        PeerMessage::Have { piece_index } => ReaderAction::UpdateBitfield { piece_index: *piece_index },
        PeerMessage::Bitfield { bitfield } => {
            if is_acceptable_bitfield(bitfield, num_pieces) {
                ReaderAction::AddBitfield
            } else {
                ReaderAction::DropConnection
            }
        },
        PeerMessage::Request { .. } => ReaderAction::Nothing,
        PeerMessage::Piece { piece_index, block_offset, .. } => {
            if counters.inflight_messages > 0 {
                counters.inflight_messages = counters.inflight_messages - 1;
            }
            ReaderAction::DeliverBlock { piece_index: *piece_index, block_offset: *block_offset }
        },
        _ => ReaderAction::Nothing,
    }
}

/// What follows a block handed to its piece's manager.
#[derive(Debug)]
pub enum BlockOutcome {
    /// The piece is complete and its digest matched: report it finished,
    /// stop tracking it (if the connection did) and wake the writer for a
    /// full pass.
    FinishPiece,
    /// Only the request window needs topping off.
    TopOffWindow,
}

/// After a block was handed to its piece's manager, which reported whether
/// the piece is now complete with a matching digest. `own_piece` tells
/// whether the connection itself fetches the piece (else the block was a
/// late one, handed to the torrent's manager of the piece): a completed
/// piece that the connection fetched frees its slot (none stays none).
pub fn on_block_result(counters: &mut PeerFsmCounters, hash_matched: bool, own_piece: bool) -> (r: BlockOutcome)
    ensures
        final(counters).inflight_messages == old(counters).inflight_messages,
        hash_matched ==> r is FinishPiece,
        !hash_matched ==> r is TopOffWindow,
        final(counters).pending_active_request_count == (if hash_matched && own_piece
            && old(counters).pending_active_request_count > 0 {
            old(counters).pending_active_request_count - 1
        } else {
            old(counters).pending_active_request_count as int
        }),
{
    if hash_matched {
        if own_piece && counters.pending_active_request_count > 0 {
            counters.pending_active_request_count = counters.pending_active_request_count - 1;
        }
        BlockOutcome::FinishPiece
    } else {
        BlockOutcome::TopOffWindow
    }
}

/// Whether piece `k` is among the `(piece, assigned at)` pairs of `still_active`.
pub open spec fn still_assigned(still_active: Seq<(usize, u64)>, k: u64) -> bool {
    exists|j: int| 0 <= j < still_active.len() && still_active[j].0 == k as usize
}

/// The pieces of `active`, in order, that the torrent still has assigned
/// to this peer (those named in `still_active`).
pub fn prune_active_requests(active: &Vec<u64>, still_active: &Vec<(usize, u64)>) -> (r: Vec<u64>)
    ensures
        r@ == active@.filter(|k: u64| still_assigned(still_active@, k)),
{
    let mut kept: Vec<u64> = Vec::new();
    let mut i: usize = 0;
    while i < active.len()
        invariant
            i <= active@.len(),
            kept@ == active@.subrange(0, i as int).filter(|k: u64| still_assigned(still_active@, k)),
        decreases active@.len() - i,
    {
        let k = active[i];
        let mut found = false;
        let mut j: usize = 0;
        while j < still_active.len()
            invariant
                j <= still_active@.len(),
                found <==> exists|t: int| 0 <= t < j && still_active@[t].0 == k as usize,
            decreases still_active@.len() - j,
        {
            if still_active[j].0 == k as usize {
                found = true;
            }
            j = j + 1;
        }
        proof {
            reveal(Seq::filter);
            assert(active@.subrange(0, i + 1).drop_last() =~= active@.subrange(0, i as int));
        }
        if found {
            kept.push(k);
        }
        i = i + 1;
    }
    proof {
        assert(active@.subrange(0, i as int) =~= active@);
    }
    kept
}

} // verus!
