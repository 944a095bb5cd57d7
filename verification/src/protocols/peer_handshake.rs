//! The BitTorrent handshake and the state kept for one peer connection.
use crate::protocols::tracker::append_bytes;
use vstd::prelude::*;
use vstd::utf8::{decode_utf8, encode_utf8, valid_utf8};

verus! {

/// What we know of one connected peer, and what it knows of us.
#[derive(Debug)]
pub struct PeerState {
    pub peer_id: Option<String>,
    /// We are choking them.
    pub am_choking: bool,
    /// We are interested in what they have.
    pub am_interested: bool,
    /// They are choking us.
    pub peer_choking: bool,
    /// They are interested in what we have.
    pub peer_interested: bool,
    /// When the connection was last known alive, in milliseconds.
    pub keep_alive: u64,
    /// They have pieces that we lack.
    pub has_useful_pieces: bool,
}

impl PeerState {
    /// The state of a fresh connection to the peer `peer_id`, made at
    /// `now` (milliseconds): both sides choking, neither interested, and
    /// the peer assumed useful until its bitfield says otherwise.
    pub fn new_connection(peer_id: Option<String>, now: u64) -> (r: Self)
        ensures
            r.peer_id == peer_id,
            r.am_choking,
            !r.am_interested,
            r.peer_choking,
            !r.peer_interested,
            r.keep_alive == now,
            r.has_useful_pieces,
    {
        PeerState {
            has_useful_pieces: true,
            peer_id,
            am_choking: true,
            peer_choking: true,
            peer_interested: false,
            am_interested: false,
            keep_alive: now,
        }
    }
}

/// The protocol name a handshake carries, "BitTorrent protocol", as bytes.
pub open spec fn protocol_name() -> Seq<u8> {
    seq![66u8, 105, 116, 84, 111, 114, 114, 101, 110, 116, 32, 112, 114, 111, 116, 111, 99, 111, 108]
}

/// The handshake we send: the protocol name's length (19) and the name,
/// eight zero reserved bytes, the info hash and our peer id.
pub open spec fn handshake_spec(info_hash: Seq<u8>, peer_id: Seq<u8>) -> Seq<u8> {
    seq![19u8] + protocol_name() + Seq::new(8, |i: int| 0u8) + info_hash + peer_id
}

/// The handshake we send for the torrent `info_hash` as peer `peer_id`.
pub fn handshake_bytes(info_hash: &[u8; 20], peer_id: &str) -> (r: Vec<u8>)
    ensures
        r@ == handshake_spec(info_hash@, encode_utf8(peer_id@)),
{
    let mut handshake: Vec<u8> = vec![
        19u8, 66, 105, 116, 84, 111, 114, 114, 101, 110, 116, 32, 112, 114, 111, 116, 111, 99, 111, 108,
        0, 0, 0, 0, 0, 0, 0, 0
    ];
    append_bytes(&mut handshake, info_hash.as_slice());
    append_bytes(&mut handshake, peer_id.as_bytes());
    proof {
        assert(handshake@ =~= handshake_spec(info_hash@, encode_utf8(peer_id@)));
    }
    handshake
}

/// How many bytes follow the length byte `pstr_len` of a peer's handshake:
/// the protocol name, 8 reserved bytes, the info hash and the peer id. No
/// handshake has an empty protocol name: `None` for a length of 0.
pub fn handshake_remaining_len(pstr_len: u8) -> (r: Option<usize>)
    ensures
        pstr_len == 0 ==> r is None,
        pstr_len != 0 ==> r == Some((pstr_len + 48) as usize),
{
    if pstr_len == 0 {
        None
    } else {
        Some(pstr_len as usize + 8 + 20 + 20)
    }
}

/// What `String::from_utf8_lossy` makes of `bytes`.
pub uninterp spec fn utf8_lossy(bytes: Seq<u8>) -> Seq<char>;

/// Calls `String::from_utf8_lossy`: the text of `bytes`, each invalid
/// sequence replaced by U+FFFD. The contract names the result and states
/// only that valid UTF-8 is decoded as it is.
#[verifier::external_body]
fn from_utf8_lossy(bytes: &[u8]) -> (r: String)
    ensures
        r@ == utf8_lossy(bytes@),
        valid_utf8(bytes@) ==> r@ == decode_utf8(bytes@),
{
    String::from_utf8_lossy(bytes).into_owned()
}

/// The peer id that a peer's handshake carries: the last 20 of the `rest`
/// of its handshake (what follows the length byte `pstr_len`), as text.
pub fn peer_id_from_handshake(pstr_len: u8, rest: &[u8]) -> (r: String)
    requires
        rest@.len() == pstr_len + 48,
    ensures
        r@ == utf8_lossy(rest@.subrange(pstr_len + 28, pstr_len + 48)),
{
    let peer_id_start = pstr_len as usize + 8 + 20;
    let peer_id_bytes = vstd::slice::slice_subrange(rest, peer_id_start, peer_id_start + 20);
    from_utf8_lossy(peer_id_bytes)
}

/// A handshake built for a 20-byte info hash and a 20-byte peer id is read
/// back by the receiving side as announced: its length byte is accepted,
/// the rest is the length the receiver reads, and the peer id read from it
/// is the one it carries.
pub proof fn lemma_handshake_read_back(info_hash: Seq<u8>, peer_id: Seq<u8>)
    requires
        info_hash.len() == 20,
        peer_id.len() == 20,
    ensures
        handshake_spec(info_hash, peer_id).len() == 68,
        handshake_spec(info_hash, peer_id)[0] == 19,
        ({
            let rest = handshake_spec(info_hash, peer_id).subrange(1, 68);
            &&& rest.len() == 19 + 48
            &&& rest.subrange(47int, 67int) == peer_id
        }),
{
    let h = handshake_spec(info_hash, peer_id);
    let rest = h.subrange(1, 68);
    assert(rest.subrange(47int, 67int) =~= peer_id);
}

} // verus!
