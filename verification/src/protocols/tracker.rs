//! Talking to trackers: the announce query string (HTTP), the connect and
//! announce packets (UDP, BEP 15), the peer lists of their replies, and the
//! `host:port` a UDP tracker is reached at.
use crate::bee_processor::bee_decoder::FissureErr;
use crate::models::peer_messages::{be_bytes, be_u32_at, push_be_u32, read_be_u32};
use crate::text::{decimal, hex_digit, hex_str, push_decimal, u64_to_decimal};
use vstd::prelude::*;
use vstd::string::StrSliceExecFns;
use vstd::utf8::encode_utf8;

verus! {

/// A peer that a tracker named.
#[derive(Debug)]
pub struct Peer {
    pub peer_id: Option<String>,
    /// IPv4 or IPv6 address, as text.
    pub ip: String,
    pub port: i32,
}

/// The abstract value of a [`Peer`].
pub struct PeerView {
    pub peer_id: Option<Seq<char>>,
    pub ip: Seq<char>,
    pub port: i32,
}

impl View for Peer {
    type V = PeerView;

    open spec fn view(&self) -> PeerView {
        PeerView {
            peer_id: match self.peer_id {
                Some(s) => Some(s@),
                None => None,
            },
            ip: self.ip@,
            port: self.port,
        }
    }
}

impl Clone for Peer {
    fn clone(&self) -> (r: Self)
        ensures
            r@ == self@,
    {
        let peer_id = match &self.peer_id {
            Some(s) => Some(s.clone()),
            None => None,
        };
        Peer { peer_id, ip: self.ip.clone(), port: self.port }
    }
}

/// The abstract values of a list of peers.
pub open spec fn peer_views(ps: Seq<Peer>) -> Seq<PeerView> {
    ps.map_values(|p: Peer| p@)
}

/// A copy of `ps`.
pub fn copy_peers(ps: &Vec<Peer>) -> (r: Vec<Peer>)
    ensures
        peer_views(r@) == peer_views(ps@),
{
    let mut out: Vec<Peer> = Vec::new();
    let mut i: usize = 0;
    while i < ps.len()
        invariant
            i <= ps@.len(),
            out@.len() == i,
            forall|k: int| 0 <= k < i ==> (#[trigger] out@[k])@ == ps@[k]@,
        decreases ps@.len() - i,
    {
        let c = ps[i].clone();
        out.push(c);
        i = i + 1;
    }
    proof {
        assert(peer_views(out@) =~= peer_views(ps@));
    }
    out
}

/// A tracker's reply to an announce.
#[derive(Debug)]
pub struct TrackerResponse {
    pub failure_reason: Option<String>,
    /// Seconds to wait before the next announce.
    pub interval: Option<i64>,
    pub peers: Option<Vec<Peer>>,
}

/// The abstract value of a [`TrackerResponse`].
pub struct TrackerResponseView {
    pub failure_reason: Option<Seq<char>>,
    pub interval: Option<i64>,
    pub peers: Option<Seq<PeerView>>,
}

impl View for TrackerResponse {
    type V = TrackerResponseView;

    open spec fn view(&self) -> TrackerResponseView {
        TrackerResponseView {
            failure_reason: match self.failure_reason {
                Some(s) => Some(s@),
                None => None,
            },
            interval: self.interval,
            peers: match self.peers {
                Some(ps) => Some(peer_views(ps@)),
                None => None,
            },
        }
    }
}

impl Clone for TrackerResponse {
    fn clone(&self) -> (r: Self)
        ensures
            r@ == self@,
    {
        let failure_reason = match &self.failure_reason {
            Some(s) => Some(s.clone()),
            None => None,
        };
        let peers = match &self.peers {
            Some(ps) => Some(copy_peers(ps)),
            None => None,
        };
        TrackerResponse { failure_reason, interval: self.interval, peers }
    }
}

/// The parameters of an HTTP announce.
#[derive(Debug)]
pub struct TrackerRequest {
    pub info_hash: [u8; 20],
    pub peer_id: String,
    pub port: String,
    /// Bytes, in decimal.
    pub uploaded: String,
    /// Bytes, in decimal.
    pub downloaded: String,
    /// Bytes, in decimal.
    pub left: String,
}

/// A tracker request failed.
#[derive(Debug)]
pub struct TrackerRequestErr {
    action: String,
    error_string: String,
}

/// `a.b.c.d`, the dotted-decimal text of an IPv4 address.
pub open spec fn dotted(a: u8, b: u8, c: u8, d: u8) -> Seq<char> {
    decimal(a as nat) + seq!['.'] + decimal(b as nat) + seq!['.'] + decimal(c as nat) + seq!['.']
        + decimal(d as nat)
}

/// The big-endian 16-bit number held by `s[at .. at + 2]`.
pub open spec fn be_u16_at(s: Seq<u8>, at: int) -> int {
    s[at] * 256 + s[at + 1]
}

/// The peer of the 6-byte compact entry at `s[at .. at + 6]`: four address
/// bytes and a big-endian port, no peer id.
pub open spec fn compact_peer(s: Seq<u8>, at: int) -> PeerView {
    PeerView {
        peer_id: None,
        ip: dotted(s[at], s[at + 1], s[at + 2], s[at + 3]),
        port: be_u16_at(s, at + 4) as i32,
    }
}

/// Whether the compact entry at `s[at .. at + 6]` names a usable peer: its
/// address is not 0.0.0.0 and its port is not 0.
pub open spec fn compact_entry_usable(s: Seq<u8>, at: int) -> bool {
    !(s[at] == 0 && s[at + 1] == 0 && s[at + 2] == 0 && s[at + 3] == 0) && be_u16_at(s, at + 4) != 0
}

/// The peers of the first `k` whole 6-byte entries of `s`.
pub open spec fn compact_peers_upto(s: Seq<u8>, k: int) -> Seq<PeerView>
    decreases k,
{
    if k <= 0 {
        Seq::empty()
    } else {
        compact_peers_upto(s, k - 1).push(compact_peer(s, 6 * (k - 1)))
    }
}

/// The usable peers of the first `k` whole 6-byte entries of `s`.
pub open spec fn usable_peers_upto(s: Seq<u8>, k: int) -> Seq<PeerView>
    decreases k,
{
    if k <= 0 {
        Seq::empty()
    } else if compact_entry_usable(s, 6 * (k - 1)) {
        usable_peers_upto(s, k - 1).push(compact_peer(s, 6 * (k - 1)))
    } else {
        usable_peers_upto(s, k - 1)
    }
}

/// The peers of a compact peer list (BEP 23): one per 6-byte entry when the
/// length is a multiple of 6, none otherwise.
pub open spec fn compact_peers(s: Seq<u8>) -> Seq<PeerView> {
    if s.len() % 6 == 0 {
        compact_peers_upto(s, (s.len() / 6) as int)
    } else {
        Seq::empty()
    }
}

/// Appends the decimal text of `v`.
fn push_u8_decimal(s: &mut String, v: u8)
    ensures
        final(s)@ == old(s)@ + decimal(v as nat),
{
    push_decimal(s, v as u64);
}

/// The dotted-decimal text of the IPv4 address `a.b.c.d`.
pub fn ipv4_text(a: u8, b: u8, c: u8, d: u8) -> (r: String)
    ensures
        r@ == dotted(a, b, c, d),
{
    let mut s = String::new();
    push_u8_decimal(&mut s, a);
    s.append(".");
    push_u8_decimal(&mut s, b);
    s.append(".");
    push_u8_decimal(&mut s, c);
    s.append(".");
    push_u8_decimal(&mut s, d);
    proof {
        reveal_strlit(".");
        assert(s@ =~= dotted(a, b, c, d));
    }
    s
}

/// The peer of the compact entry at `bytes[at .. at + 6]`.
fn compact_peer_at(bytes: &[u8], at: usize) -> (r: Peer)
    requires
        at + 6 <= bytes@.len(),
    ensures
        r@ == compact_peer(bytes@, at as int),
{
    let ip = ipv4_text(bytes[at], bytes[at + 1], bytes[at + 2], bytes[at + 3]);
    let port = (bytes[at + 4] as u16) * 256 + (bytes[at + 5] as u16);
    Peer { peer_id: None, ip, port: port as i32 }
}

/// The peers of a compact peer list: one per 6-byte entry when its length
/// is a multiple of 6, none otherwise.
pub fn peers_from_compact(bytes: &[u8]) -> (r: Vec<Peer>)
    ensures
        r@.map_values(|p: Peer| p@) == compact_peers(bytes@),
{
    let mut parsed_peers: Vec<Peer> = Vec::new();
    if bytes.len() % 6 == 0 {
        let n = bytes.len() / 6;
        let mut k: usize = 0;
        while k < n
            invariant
                k <= n,
                n == bytes@.len() / 6,
                bytes@.len() % 6 == 0,
                bytes@.len() <= usize::MAX,
                parsed_peers@.map_values(|p: Peer| p@) == compact_peers_upto(bytes@, k as int),
            decreases n - k,
        {
            assert(6 * k + 6 <= bytes@.len()) by (nonlinear_arith)
                requires k < n, n == bytes@.len() / 6;
            let p = compact_peer_at(bytes, 6 * k);
            parsed_peers.push(p);
            k = k + 1;
            proof {
                assert(parsed_peers@.map_values(|p: Peer| p@) =~= compact_peers_upto(bytes@, k as int));
            }
        }
    } else {
        proof {
            assert(parsed_peers@.map_values(|p: Peer| p@) =~= Seq::<PeerView>::empty());
        }
    }
    parsed_peers
}

/// The peers of a compact peer list, 6 bytes each (a trailing partial
/// entry is ignored), leaving out entries with address 0.0.0.0 or port 0.
pub fn usable_peers(bytes: &[u8]) -> (r: Vec<Peer>)
    ensures
        r@.map_values(|p: Peer| p@) == usable_peers_upto(bytes@, (bytes@.len() / 6) as int),
{
    let mut peers: Vec<Peer> = Vec::new();
    let n = bytes.len() / 6;
    let mut k: usize = 0;
    while k < n
        invariant
            k <= n,
            n == bytes@.len() / 6,
            bytes@.len() <= usize::MAX,
            peers@.map_values(|p: Peer| p@) == usable_peers_upto(bytes@, k as int),
        decreases n - k,
    {
        assert(6 * k + 6 <= bytes@.len()) by (nonlinear_arith)
            requires k < n, n == bytes@.len() / 6;
        let at = 6 * k;
        let unspecified = bytes[at] == 0 && bytes[at + 1] == 0 && bytes[at + 2] == 0 && bytes[at + 3] == 0;
        let port = (bytes[at + 4] as u16) * 256 + (bytes[at + 5] as u16);
        if !(unspecified || port == 0) {
            let p = compact_peer_at(bytes, at);
            peers.push(p);
        }
        k = k + 1;
        proof {
            assert(peers@.map_values(|p: Peer| p@) =~= usable_peers_upto(bytes@, k as int));
        }
    }
    peers
}

/// The reply that a UDP announce response `bytes` carries (its first 20
/// bytes are action, transaction id, interval, leechers and seeders).
pub open spec fn udp_reply_peers(bytes: Seq<u8>) -> Seq<PeerView> {
    usable_peers_upto(bytes.subrange(20, bytes.len() as int), (bytes.len() - 20) / 6)
}

/// A copy of `data[from ..]`.
fn tail_of(data: &[u8], from: usize) -> (r: Vec<u8>)
    requires
        from <= data@.len(),
    ensures
        r@ == data@.subrange(from as int, data@.len() as int),
{
    crate::models::peer_messages::copy_tail(data, from)
}

/// Whether `b` is sent as itself in a URL: an ASCII letter or digit, or one
/// of `-`, `.`, `_`, `~`.
pub open spec fn url_unreserved(b: u8) -> bool {
    (48 <= b <= 57) || (65 <= b <= 90) || (97 <= b <= 122) || b == 45 || b == 46 || b == 95 || b == 126
}

/// `%` followed by the two upper-case hexadecimal digits of `b`.
pub open spec fn percent_byte(b: u8) -> Seq<char> {
    seq!['%', hex_digit(b as int / 16), hex_digit(b as int % 16)]
}

/// Percent-encoding of `bytes`: unreserved bytes as themselves, every other
/// byte as `%XX`.
pub open spec fn percent_encode(bytes: Seq<u8>) -> Seq<char>
    decreases bytes.len(),
{
    if bytes.len() == 0 {
        Seq::empty()
    } else {
        percent_encode(bytes.drop_last()) + if url_unreserved(bytes.last()) {
            seq![bytes.last() as char]
        } else {
            percent_byte(bytes.last())
        }
    }
}

/// Every byte as `%XX`, whatever it is.
pub open spec fn percent_all(bytes: Seq<u8>) -> Seq<char>
    decreases bytes.len(),
{
    if bytes.len() == 0 {
        Seq::empty()
    } else {
        percent_all(bytes.drop_last()) + percent_byte(bytes.last())
    }
}

/// Calls `urlencoding::encode`, which percent-encodes the UTF-8 bytes of
/// `s`: every byte but ASCII letters, digits and `-`, `.`, `_`, `~` becomes
/// `%` and two upper-case hexadecimal digits.
#[verifier::external_body]
fn url_encode(s: &str) -> (r: String)
    ensures
        r@ == percent_encode(encode_utf8(s@)),
{
    urlencoding::encode(s).into_owned()
}

/// Appends `%XX` for each byte of `bytes`.
pub fn push_percent_all(out: &mut String, bytes: &[u8])
    ensures
        final(out)@ == old(out)@ + percent_all(bytes@),
{
    let mut i: usize = 0;
    while i < bytes.len()
        invariant
            i <= bytes@.len(),
            out@ == old(out)@ + percent_all(bytes@.subrange(0, i as int)),
        decreases bytes@.len() - i,
    {
        let b = bytes[i];
        out.append("%");
        out.append(hex_str(b / 16));
        out.append(hex_str(b % 16));
        proof {
            reveal_strlit("%");
            assert(bytes@.subrange(0, i + 1).drop_last() =~= bytes@.subrange(0, i as int));
            assert(out@ =~= old(out)@ + percent_all(bytes@.subrange(0, i + 1)));
        }
        i = i + 1;
    }
    proof {
        assert(bytes@.subrange(0, i as int) =~= bytes@);
    }
}

/// The query string of an HTTP announce with the given field values.
pub open spec fn announce_query(
    info_hash: Seq<u8>,
    peer_id: Seq<char>,
    port: Seq<char>,
    uploaded: Seq<char>,
    downloaded: Seq<char>,
    left: Seq<char>,
) -> Seq<char> {
    "info_hash="@ + percent_all(info_hash) + "&peer_id="@ + percent_encode(encode_utf8(peer_id))
        + "&port="@ + port + "&uploaded="@ + uploaded + "&downloaded="@ + downloaded + "&left="@ + left
        + "&compact=1&event=started"@
}

impl TrackerRequest {
    /// The query string of the announce: every byte of the info hash as
    /// `%XX`, the peer id URL-encoded, then port, uploaded, downloaded and
    /// left as given, asking for a compact reply to a `started` event.
    pub fn generate_query_string(&self) -> (r: String)
        ensures
            r@ == announce_query(
                self.info_hash@,
                self.peer_id@,
                self.port@,
                self.uploaded@,
                self.downloaded@,
                self.left@,
            ),
    {
        let encoded_peer_id = url_encode(self.peer_id.as_str());
        let mut q = String::from_str("info_hash=");
        push_percent_all(&mut q, self.info_hash.as_slice());
        q.append("&peer_id=");
        q.append(encoded_peer_id.as_str());
        q.append("&port=");
        q.append(self.port.as_str());
        q.append("&uploaded=");
        q.append(self.uploaded.as_str());
        q.append("&downloaded=");
        q.append(self.downloaded.as_str());
        q.append("&left=");
        q.append(self.left.as_str());
        q.append("&compact=1&event=started");
        proof {
            assert(q@ =~= announce_query(
                self.info_hash@,
                self.peer_id@,
                self.port@,
                self.uploaded@,
                self.downloaded@,
                self.left@,
            ));
        }
        q
    }
}

impl TrackerResponse {
    /// The reply of a UDP announce response (BEP 15): the interval and the
    /// usable peers; an error when the response is shorter than 20 bytes.
    pub fn from_udp_bytes(bytes: &[u8]) -> (r: Result<Self, FissureErr>)
        ensures
            bytes@.len() < 20 ==> r.is_err() && r.unwrap_err().message() == "Response buffer too short"@,
            bytes@.len() >= 20 ==> r.is_ok() && {
                let t = r.unwrap();
                &&& t.failure_reason is None
                &&& t.interval == Some(be_u32_at(bytes@, 8) as i64)
                &&& t.peers is Some
                &&& t.peers.unwrap()@.map_values(|p: Peer| p@) == udp_reply_peers(bytes@)
            },
    {
        if bytes.len() < 20 {
            return Err(FissureErr::new(String::from_str("Response buffer too short")));
        }
        let interval = read_be_u32(bytes, 8);
        let _leechers = read_be_u32(bytes, 12);
        let _seeders = read_be_u32(bytes, 16);
        let peer_bytes = tail_of(bytes, 20);
        let peers = usable_peers(peer_bytes.as_slice());
        Ok(TrackerResponse { failure_reason: None, interval: Some(interval as i64), peers: Some(peers) })
    }
}


/// The constant that opens a UDP connect request (BEP 15).
pub const UDP_PROTOCOL_ID: u64 = 0x41727101980;

/// The eight big-endian bytes of `v`.
pub open spec fn be_bytes64(v: u64) -> Seq<u8> {
    be_bytes((v / 0x1_0000_0000) as u32) + be_bytes((v % 0x1_0000_0000) as u32)
}

/// The big-endian 64-bit number held by `s[at .. at + 8]`.
pub open spec fn be_u64_at(s: Seq<u8>, at: int) -> int {
    be_u32_at(s, at) * 0x1_0000_0000 + be_u32_at(s, at + 4)
}

/// Appends the eight big-endian bytes of `v`.
fn push_be_u64(out: &mut Vec<u8>, v: u64)
    ensures
        final(out)@ == old(out)@ + be_bytes64(v),
{
    push_be_u32(out, (v / 0x1_0000_0000) as u32);
    push_be_u32(out, (v % 0x1_0000_0000) as u32);
    proof {
        assert(final(out)@ =~= old(out)@ + be_bytes64(v));
    }
}

/// The big-endian 64-bit number held by `data[at .. at + 8]`.
fn read_be_u64(data: &[u8], at: usize) -> (r: u64)
    requires
        at + 8 <= data@.len(),
    ensures
        r == be_u64_at(data@, at as int),
{
    let _n = data.len();
    let hi = read_be_u32(data, at) as u64;
    let lo = read_be_u32(data, at + 4) as u64;
    assert(hi * 0x1_0000_0000 + lo <= u64::MAX) by (nonlinear_arith)
        requires hi <= u32::MAX, lo <= u32::MAX;
    hi * 0x1_0000_0000 + lo
}

/// The UDP connect request with transaction id `t_id`: the protocol id,
/// action 0 (connect), then the transaction id.
pub open spec fn connect_request_spec(t_id: u32) -> Seq<u8> {
    be_bytes64(UDP_PROTOCOL_ID) + be_bytes(0) + be_bytes(t_id)
}

/// The UDP connect request with transaction id `t_id`.
pub fn connect_request(t_id: u32) -> (r: Vec<u8>)
    ensures
        r@ == connect_request_spec(t_id),
{
    let mut buf: Vec<u8> = Vec::new();
    push_be_u64(&mut buf, UDP_PROTOCOL_ID);
    push_be_u32(&mut buf, 0);
    push_be_u32(&mut buf, t_id);
    proof {
        assert(buf@ =~= connect_request_spec(t_id));
    }
    buf
}

/// Calls `rand::random::<u32>()`: a number drawn from the thread's
/// generator. Nothing is promised of its value.
#[verifier::external_body]
fn random_u32() -> u32 {
    rand::random::<u32>()
}

/// A fresh transaction id and the connect request that carries it.
pub fn start_connect() -> (r: (u32, Vec<u8>))
    ensures
        r.1@ == connect_request_spec(r.0),
{
    let t_id = random_u32();
    (t_id, connect_request(t_id))
}

/// The connection id of the tracker's reply `buf` to the connect request
/// with transaction id `t_id`; an error when the reply's action is not 0
/// (connect) or its transaction id is not `t_id`.
pub fn parse_connect_response(buf: &[u8], t_id: u32) -> (r: Result<u64, FissureErr>)
    requires
        buf@.len() >= 16,
    ensures
        r.is_ok() <==> (be_u32_at(buf@, 0) == 0 && be_u32_at(buf@, 4) == t_id),
        r.is_ok() ==> r.unwrap() == be_u64_at(buf@, 8),
        r.is_err() ==> r.unwrap_err().message() == "Malcious UDP tracker messing with stuff in first req"@,
{
    let res_action = read_be_u32(buf, 0);
    let r_t_id = read_be_u32(buf, 4);
    let c_id = read_be_u64(buf, 8);
    if res_action != 0 || r_t_id != t_id {
        return Err(FissureErr::new(String::from_str("Malcious UDP tracker messing with stuff in first req")));
    }
    Ok(c_id)
}

/// The UDP announce request: connection id, action 1 (announce),
/// transaction id, info hash, peer id, bytes downloaded, left and uploaded,
/// event 2 (started), IP 0 (the sender's), the key, -1 peers wanted (as
/// many as the tracker likes), and the port.
#[verifier::opaque]
pub open spec fn announce_request_spec(
    c_id: u64,
    t_id: u32,
    info_hash: Seq<u8>,
    peer_id: Seq<u8>,
    downloaded: u64,
    left: u64,
    uploaded: u64,
    key: u32,
    port: u16,
) -> Seq<u8> {
    be_bytes64(c_id) + be_bytes(1) + be_bytes(t_id) + info_hash + peer_id + be_bytes64(downloaded)
        + be_bytes64(left) + be_bytes64(uploaded) + be_bytes(2) + be_bytes(0) + be_bytes(key)
        + be_bytes(0xFFFF_FFFF) + seq![(port / 256) as u8, (port % 256) as u8]
}

/// The UDP announce request for the given values.
pub fn announce_request(
    c_id: u64,
    t_id: u32,
    info_hash: &[u8; 20],
    peer_id: &str,
    downloaded: u64,
    left: u64,
    uploaded: u64,
    key: u32,
    port: u16,
) -> (r: Vec<u8>)
    ensures
        r@ == announce_request_spec(
            c_id,
            t_id,
            info_hash@,
            encode_utf8(peer_id@),
            downloaded,
            left,
            uploaded,
            key,
            port,
        ),
{
    let mut buf: Vec<u8> = Vec::new();
    push_be_u64(&mut buf, c_id);
    push_be_u32(&mut buf, 1);
    push_be_u32(&mut buf, t_id);
    append_bytes(&mut buf, info_hash.as_slice());
    append_bytes(&mut buf, peer_id.as_bytes());
    push_be_u64(&mut buf, downloaded);
    push_be_u64(&mut buf, left);
    push_be_u64(&mut buf, uploaded);
    push_be_u32(&mut buf, 2);
    push_be_u32(&mut buf, 0);
    push_be_u32(&mut buf, key);
    push_be_u32(&mut buf, 0xFFFF_FFFF);
    buf.push((port / 256) as u8);
    buf.push((port % 256) as u8);
    proof {
        reveal(announce_request_spec);
        assert(buf@ =~= announce_request_spec(
            c_id,
            t_id,
            info_hash@,
            encode_utf8(peer_id@),
            downloaded,
            left,
            uploaded,
            key,
            port,
        ));
    }
    buf
}

/// Appends `bytes` to `out`.
pub fn append_bytes(out: &mut Vec<u8>, bytes: &[u8])
    ensures
        final(out)@ == old(out)@ + bytes@,
{
    let mut i: usize = 0;
    while i < bytes.len()
        invariant
            i <= bytes@.len(),
            out@ == old(out)@ + bytes@.subrange(0, i as int),
        decreases bytes@.len() - i,
    {
        out.push(bytes[i]);
        i = i + 1;
        proof {
            assert(out@ =~= old(out)@ + bytes@.subrange(0, i as int));
        }
    }
    proof {
        assert(bytes@.subrange(0, i as int) =~= bytes@);
    }
}

/// A fresh transaction id and key, and the announce request that carries
/// them: `(transaction id, key, request)`.
pub fn start_announce(
    c_id: u64,
    info_hash: &[u8; 20],
    peer_id: &str,
    downloaded: u64,
    left: u64,
    uploaded: u64,
    port: u16,
) -> (r: (u32, u32, Vec<u8>))
    ensures
        r.2@ == announce_request_spec(
            c_id,
            r.0,
            info_hash@,
            encode_utf8(peer_id@),
            downloaded,
            left,
            uploaded,
            r.1,
            port,
        ),
{
    let key = random_u32();
    let t_id = random_u32();
    let packet = announce_request(c_id, t_id, info_hash, peer_id, downloaded, left, uploaded, key, port);
    (t_id, key, packet)
}

/// Whether `buf` is a well-formed reply to the announce with transaction id
/// `t_id`: at least 20 bytes, action 1 (announce) and that transaction id.
pub open spec fn announce_reply_matches(buf: Seq<u8>, t_id: u32) -> bool {
    buf.len() >= 20 && be_u32_at(buf, 0) == 1 && be_u32_at(buf, 4) == t_id
}

/// The tracker's reply `buf` to the announce with transaction id `t_id`:
/// its interval and usable peers; an error when it is not a well-formed
/// reply to that announce.
pub fn parse_announce_response(buf: &[u8], t_id: u32) -> (r: Result<TrackerResponse, FissureErr>)
    ensures
        r.is_ok() <==> announce_reply_matches(buf@, t_id),
        r.is_err() ==> r.unwrap_err().message() == "Invalid second response from UDP tracker"@,
        r.is_ok() ==> {
            let t = r.unwrap();
            &&& t.failure_reason is None
            &&& t.interval == Some(be_u32_at(buf@, 8) as i64)
            &&& t.peers is Some
            &&& t.peers.unwrap()@.map_values(|p: Peer| p@) == udp_reply_peers(buf@)
        },
{
    if buf.len() < 20 {
        return Err(FissureErr::new(String::from_str("Invalid second response from UDP tracker")));
    }
    let res_action = read_be_u32(buf, 0);
    let res_tx_id = read_be_u32(buf, 4);
    if res_action != 1 || res_tx_id != t_id {
        return Err(FissureErr::new(String::from_str("Invalid second response from UDP tracker")));
    }
    match TrackerResponse::from_udp_bytes(buf) {
        Ok(t) => Ok(t),
        Err(e) => Err(e),
    }
}

/// `2` to the power `n`.
pub open spec fn two_pow(n: nat) -> nat
    decreases n,
{
    if n == 0 {
        1
    } else {
        2 * two_pow((n - 1) as nat)
    }
}

proof fn lemma_two_pow_monotone(i: nat, j: nat)
    requires
        i <= j,
    ensures
        1 <= two_pow(i) <= two_pow(j),
    decreases j,
{
    if j > i {
        lemma_two_pow_monotone(i, (j - 1) as nat);
    } else if i > 0 {
        lemma_two_pow_monotone((i - 1) as nat, (i - 1) as nat);
    }
}

/// How long, in seconds, to wait for a UDP tracker's reply on attempt
/// `retry` (from 0): `15 * (2^retry + 1)`.
pub fn udp_timeout_secs(retry: u32) -> (r: u64)
    requires
        15 * (two_pow(retry as nat) + 1) <= u64::MAX,
    ensures
        r == 15 * (two_pow(retry as nat) + 1),
{
    let mut p: u64 = 1;
    let mut i: u32 = 0;
    while i < retry
        invariant
            i <= retry,
            p == two_pow(i as nat),
            15 * (two_pow(retry as nat) + 1) <= u64::MAX,
        decreases retry - i,
    {
        proof {
            lemma_two_pow_monotone((i + 1) as nat, retry as nat);
        }
        p = p * 2;
        i = i + 1;
    }
    15 * (p + 1)
}

/// What `url::Url::parse` makes of `raw`: the host, the explicit port (none
/// when absent or the scheme's default) and the scheme; or the text of the
/// parse error.
pub uninterp spec fn url_parse(raw: Seq<char>) -> Result<(Option<Seq<char>>, Option<u16>, Seq<char>), Seq<char>>;

/// The view of an optional string.
pub open spec fn opt_text(o: Option<String>) -> Option<Seq<char>> {
    match o {
        Some(s) => Some(s@),
        None => None,
    }
}

/// Calls `url::Url::parse` on `raw` and reads the host (`host_str`), the
/// port (`port`) and the scheme (`scheme`) of the result, or the error's
/// text. The contract names the outcome `url_parse(raw)` and says nothing
/// more of it.
#[verifier::external_body]
fn parse_url(raw: &str) -> (r: Result<(Option<String>, Option<u16>, String), String>)
    ensures
        url_parse(raw@) == match r {
            Ok(t) => Ok((opt_text(t.0), t.1, t.2@)),
            Err(e) => Err(e@),
        },
{
    match url::Url::parse(raw) {
        Ok(u) => {
            let host = match u.host_str() {
                Some(h) => Some(h.to_string()),
                None => None,
            };
            Ok((host, u.port(), u.scheme().to_string()))
        },
        Err(e) => Err(e.to_string()),
    }
}

/// The port a tracker URL of scheme `scheme` is reached at when it names none.
pub open spec fn default_port(scheme: Seq<char>) -> u16 {
    if scheme == "http"@ {
        80
    } else if scheme == "https"@ {
        443
    } else {
        80
    }
}

/// `host:port`.
pub open spec fn host_port_text(host: Seq<char>, port: u16) -> Seq<char> {
    host + seq![':'] + decimal(port as nat)
}

/// The `host:port` of a parsed tracker URL (its host, explicit port and
/// scheme, or the parse error's text): the port is the explicit one, else
/// 443 for `https` and 80 for any other scheme; an error when the URL did
/// not parse or has no host.
pub fn tracker_host_port(parsed: Result<(Option<String>, Option<u16>, String), String>) -> (r: Result<String, FissureErr>)
    ensures
        match parsed {
            Err(e) => r matches Err(x) && x.message() == e@,
            Ok((None, _, _)) => r.is_err() && r.unwrap_err().message() == "Missing host in tracker URL"@,
            Ok((Some(h), p, s)) => r.is_ok() && r.unwrap()@ == host_port_text(
                h@,
                match p {
                    Some(x) => x,
                    None => default_port(s@),
                },
            ),
        },
{
    match parsed {
        Err(e) => {
            let err = FissureErr::new(e);
            proof {
                assert(err.message() == e@);
            }
            Err(err)
        },
        Ok((None, _, _)) => Err(FissureErr::new(String::from_str("Missing host in tracker URL"))),
        Ok((Some(h), p, s)) => {
            let port: u16 = match p {
                Some(x) => x,
                None => {
                    let http = String::from_str("http");
                    let https = String::from_str("https");
                    if s == http {
                        80
                    } else if s == https {
                        443
                    } else {
                        80
                    }
                },
            };
            let mut out = h;
            out.append(":");
            push_decimal(&mut out, port as u64);
            proof {
                reveal_strlit(":");
            }
            Ok(out)
        },
    }
}

/// The `host:port` a tracker URL names (see [`tracker_host_port`]).
pub fn extract_tracker_host_port(raw_url: &str) -> (r: Result<String, FissureErr>)
    ensures
        match url_parse(raw_url@) {
            Err(e) => r.is_err() && r.unwrap_err().message() == e,
            Ok((None, _, _)) => r.is_err() && r.unwrap_err().message() == "Missing host in tracker URL"@,
            Ok((Some(h), p, s)) => r.is_ok() && r.unwrap()@ == host_port_text(
                h,
                match p {
                    Some(x) => x,
                    None => default_port(s),
                },
            ),
        },
{
    tracker_host_port(parse_url(raw_url))
}

/// The URL of an HTTP announce: the tracker's URL, then `&` when it already
/// holds a `?` and `?` otherwise, then the query string.
pub open spec fn announce_url_spec(url: Seq<char>, query: Seq<char>) -> Seq<char> {
    url + (if url.contains('?') {
        seq!['&']
    } else {
        seq!['?']
    }) + query
}

/// The URL of an HTTP announce to the tracker at `url` with query string `query`.
pub fn announce_url(url: &str, query: &str) -> (r: String)
    ensures
        r@ == announce_url_spec(url@, query@),
{
    let n = url.unicode_len();
    let mut has_query = false;
    let mut i: usize = 0;
    while i < n
        invariant
            i <= n,
            n == url@.len(),
            has_query <==> url@.subrange(0, i as int).contains('?'),
        decreases n - i,
    {
        let c = url.get_char(i);
        proof {
            let pre = url@.subrange(0, i as int);
            let post = url@.subrange(0, i + 1);
            assert(post =~= pre.push(c));
            if pre.contains('?') {
                let w = choose|j: int| 0 <= j < pre.len() && pre[j] == '?';
                assert(post[w] == '?');
            }
            if post.contains('?') && !pre.contains('?') {
                let w = choose|j: int| 0 <= j < post.len() && post[j] == '?';
                assert(w == i);
            }
            if c == '?' {
                assert(post[i as int] == '?');
            }
        }
        has_query = has_query || c == '?';
        i = i + 1;
    }
    proof {
        assert(url@.subrange(0, i as int) =~= url@);
    }
    let mut r = url.to_owned();
    if has_query {
        r.append("&");
    } else {
        r.append("?");
    }
    r.append(query);
    proof {
        reveal_strlit("&");
        reveal_strlit("?");
        assert(r@ =~= announce_url_spec(url@, query@));
    }
    r
}

} // verus!
