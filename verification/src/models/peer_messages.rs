//! Messages of the BitTorrent peer wire protocol, their encoding and decoding.
use crate::bits::{BitField, bitfield_view, msb_bits};
use vstd::prelude::*;

verus! {

/// A message of the peer wire protocol, without its 4-byte length prefix.
#[derive(Debug)]
pub enum PeerMessage {
    KeepAlive,
    /// We are being choked.
    Choke,
    /// We are being unchoked.
    Unchoke,
    /// The peer is interested in what we have.
    Interested,
    /// The peer is not interested in what we have.
    NotInterested,
    Have { piece_index: u64 },
    Bitfield { bitfield: BitField },
    Request { piece_index: u64, block_offset: u64, length: u64 },
    Piece { piece_index: u64, block_offset: u64, data: Vec<u8> },
    /// Cancels a request the peer may have made (used during the endgame).
    Cancel { piece_index: u64, block_offset: u64, length: u64 },
    /// Any other message id (DHT port and protocol extensions).
    Port {},
}

/// The abstract value of a [`PeerMessage`].
pub enum MessageView {
    KeepAlive,
    Choke,
    Unchoke,
    Interested,
    NotInterested,
    Have { piece_index: u64 },
    Bitfield { bits: Seq<bool> },
    Request { piece_index: u64, block_offset: u64, length: u64 },
    Piece { piece_index: u64, block_offset: u64, data: Seq<u8> },
    Cancel { piece_index: u64, block_offset: u64, length: u64 },
    Port,
}

impl View for PeerMessage {
    type V = MessageView;

    open spec fn view(&self) -> MessageView {
        match self {
            PeerMessage::KeepAlive => MessageView::KeepAlive,
            PeerMessage::Choke => MessageView::Choke,
            PeerMessage::Unchoke => MessageView::Unchoke,
            PeerMessage::Interested => MessageView::Interested,
            PeerMessage::NotInterested => MessageView::NotInterested,
            PeerMessage::Have { piece_index } => MessageView::Have { piece_index: *piece_index },
            PeerMessage::Bitfield { bitfield } => MessageView::Bitfield {
                bits: bitfield_view(*bitfield),
            },
            PeerMessage::Request { piece_index, block_offset, length } => MessageView::Request {
                piece_index: *piece_index,
                block_offset: *block_offset,
                length: *length,
            },
            PeerMessage::Piece { piece_index, block_offset, data } => MessageView::Piece {
                piece_index: *piece_index,
                block_offset: *block_offset,
                data: data@,
            },
            PeerMessage::Cancel { piece_index, block_offset, length } => MessageView::Cancel {
                piece_index: *piece_index,
                block_offset: *block_offset,
                length: *length,
            },
            PeerMessage::Port {} => MessageView::Port,
        }
    }
}

/// The big-endian 32-bit number held by `s[at .. at + 4]`.
pub open spec fn be_u32_at(s: Seq<u8>, at: int) -> int {
    s[at] * 16777216 + s[at + 1] * 65536 + s[at + 2] * 256 + s[at + 3]
}

/// The four big-endian bytes of `v`.
pub open spec fn be_bytes(v: u32) -> Seq<u8> {
    seq![
        (v / 16777216) as u8,
        ((v / 65536) % 256) as u8,
        ((v / 256) % 256) as u8,
        (v % 256) as u8,
    ]
}

/// Whether `payload` (a message without its length prefix) is long enough
/// for the fields that its message id carries.
pub open spec fn decodable(payload: Seq<u8>) -> bool {
    payload.len() == 0 || {
        let id = payload[0];
        &&& (id == 4 ==> payload.len() >= 5)
        &&& (id == 5 ==> payload.len() - 1 <= usize::MAX / 64)
        &&& (id == 6 || id == 8 ==> payload.len() >= 13)
        &&& (id == 7 ==> payload.len() >= 9)
    }
}

/// The message that `payload` (a message without its length prefix) encodes:
/// an empty payload is a keep-alive; otherwise the first byte is the message
/// id and the fields that follow are big-endian 32-bit numbers.
pub open spec fn decode_spec(payload: Seq<u8>) -> MessageView {
    if payload.len() == 0 {
        MessageView::KeepAlive
    } else {
        let id = payload[0];
        if id == 0 {
            MessageView::Choke
        } else if id == 1 {
            MessageView::Unchoke
        } else if id == 2 {
            MessageView::Interested
        } else if id == 3 {
            MessageView::NotInterested
        } else if id == 4 {
            MessageView::Have { piece_index: be_u32_at(payload, 1) as u64 }
        } else if id == 5 {
            MessageView::Bitfield { bits: msb_bits(payload.subrange(1, payload.len() as int)) }
        } else if id == 6 {
            MessageView::Request {
                piece_index: be_u32_at(payload, 1) as u64,
                block_offset: be_u32_at(payload, 5) as u64,
                length: be_u32_at(payload, 9) as u64,
            }
        } else if id == 7 {
            MessageView::Piece {
                piece_index: be_u32_at(payload, 1) as u64,
                block_offset: be_u32_at(payload, 5) as u64,
                data: payload.subrange(9, payload.len() as int),
            }
        } else if id == 8 {
            MessageView::Cancel {
                piece_index: be_u32_at(payload, 1) as u64,
                block_offset: be_u32_at(payload, 5) as u64,
                length: be_u32_at(payload, 9) as u64,
            }
        } else {
            MessageView::Port
        }
    }
}

/// The bytes, length prefix included, that are sent for a message: an
/// `Interested`, a `Request` (each field cut to 32 bits) and a keep-alive are
/// encoded; every other message is not sent and encodes to nothing.
pub open spec fn encode_spec(m: MessageView) -> Seq<u8> {
    match m {
        MessageView::Interested => be_bytes(1) + seq![2u8],
        MessageView::Request { piece_index, block_offset, length } => be_bytes(13) + seq![6u8]
            + be_bytes(piece_index as u32) + be_bytes(block_offset as u32) + be_bytes(
            length as u32,
        ),
        MessageView::KeepAlive => be_bytes(0),
        _ => Seq::empty(),
    }
}

/// The big-endian 32-bit number held by `data[at .. at + 4]`.
pub fn read_be_u32(data: &[u8], at: usize) -> (r: u32)
    requires
        at + 4 <= data@.len(),
    ensures
        r == be_u32_at(data@, at as int),
{
    (data[at] as u32) * 16777216 + (data[at + 1] as u32) * 65536 + (data[at + 2] as u32) * 256
        + (data[at + 3] as u32)
}

/// Appends the four big-endian bytes of `v` to `out`.
pub fn push_be_u32(out: &mut Vec<u8>, v: u32)
    ensures
        final(out)@ == old(out)@ + be_bytes(v),
{
    out.push((v / 16777216) as u8);
    out.push(((v / 65536) % 256) as u8);
    out.push(((v / 256) % 256) as u8);
    out.push((v % 256) as u8);
    proof {
        assert(final(out)@ =~= old(out)@ + be_bytes(v));
    }
}

/// Copies `data[from ..]` into a new vector.
pub fn copy_tail(data: &[u8], from: usize) -> (r: Vec<u8>)
    requires
        from <= data@.len(),
    ensures
        r@ == data@.subrange(from as int, data@.len() as int),
{
    let mut r: Vec<u8> = Vec::new();
    let mut i = from;
    while i < data.len()
        invariant
            from <= i <= data@.len(),
            r@ == data@.subrange(from as int, i as int),
        decreases data@.len() - i,
    {
        r.push(data[i]);
        i = i + 1;
        proof {
            assert(r@ =~= data@.subrange(from as int, i as int));
        }
    }
    r
}

impl PeerMessage {
    /// Whether `data` can be handed to [`PeerMessage::decode`]: it is long
    /// enough for the fields that its message id carries.
    pub fn is_decodable(data: &[u8]) -> (r: bool)
        ensures
            r == decodable(data@),
    {
        if data.len() == 0 {
            return true;
        }
        let id = data[0];
        if id == 4 {
            data.len() >= 5
        } else if id == 5 {
            data.len() - 1 <= usize::MAX / 64
        } else if id == 6 || id == 8 {
            data.len() >= 13
        } else if id == 7 {
            data.len() >= 9
        } else {
            true
        }
    }

    /// Decodes one message from its payload (the bytes after the length prefix).
    pub fn decode(data: &[u8]) -> (r: Self)
        requires
            decodable(data@),
        ensures
            r@ == decode_spec(data@),
    {
        if data.len() == 0 {
            return PeerMessage::KeepAlive;
        }
        let message_id = data[0];
        if message_id == 0 {
            PeerMessage::Choke
        } else if message_id == 1 {
            PeerMessage::Unchoke
        } else if message_id == 2 {
            PeerMessage::Interested
        } else if message_id == 3 {
            PeerMessage::NotInterested
        } else if message_id == 4 {
            let piece_index = read_be_u32(data, 1) as u64;
            PeerMessage::Have { piece_index }
        } else if message_id == 5 {
            let bitfield_bytes = copy_tail(data, 1);
            let bitfield = BitField::from_bytes(bitfield_bytes);
            PeerMessage::Bitfield { bitfield }
        } else if message_id == 6 {
            let piece_index = read_be_u32(data, 1) as u64;
            let block_offset = read_be_u32(data, 5) as u64;
            let length = read_be_u32(data, 9) as u64;
            PeerMessage::Request { piece_index, block_offset, length }
        } else if message_id == 7 {
            let piece_index = read_be_u32(data, 1) as u64;
            let block_offset = read_be_u32(data, 5) as u64;
            let data = copy_tail(data, 9);
            PeerMessage::Piece { piece_index, block_offset, data }
        } else if message_id == 8 {
            let piece_index = read_be_u32(data, 1) as u64;
            let block_offset = read_be_u32(data, 5) as u64;
            let length = read_be_u32(data, 9) as u64;
            PeerMessage::Cancel { piece_index, block_offset, length }
        } else {
            PeerMessage::Port {}
        }
    }

    /// The bytes, length prefix included, that are written to the wire for
    /// this message (nothing for the messages this client does not send).
    pub fn encode(&self) -> (r: Vec<u8>)
        ensures
            r@ == encode_spec(self@),
    {
        let mut dst: Vec<u8> = Vec::new();
        match self {
            PeerMessage::Interested => {
                push_be_u32(&mut dst, 1);
                dst.push(2);
            },
            PeerMessage::Request { piece_index, block_offset, length } => {
                push_be_u32(&mut dst, 13);
                dst.push(6);
                push_be_u32(&mut dst, *piece_index as u32);
                push_be_u32(&mut dst, *block_offset as u32);
                push_be_u32(&mut dst, *length as u32);
            },
            PeerMessage::KeepAlive => {
                push_be_u32(&mut dst, 0);
            },
            _ => {},
        }
        proof {
            assert(dst@ =~= encode_spec(self@));
        }
        dst
    }
}

/// Splits a stream of length-prefixed messages.
pub struct PeerCodec {}

/// The length of the first message in `buf` when `buf` holds all of it: its
/// 4-byte big-endian length prefix, followed by at least that many bytes.
pub open spec fn frame_length_spec(buf: Seq<u8>) -> Option<int> {
    if buf.len() < 4 {
        None
    } else if buf.len() < 4 + be_u32_at(buf, 0) {
        None
    } else {
        Some(be_u32_at(buf, 0))
    }
}

impl PeerCodec {
    pub fn new() -> (r: Self) {
        PeerCodec {}
    }

    /// The length of the payload of the first message in `buf`, when the
    /// whole message has arrived; `None` while more bytes are needed.
    pub fn frame_length(&self, buf: &[u8]) -> (r: Option<usize>)
        ensures
            match frame_length_spec(buf@) {
                Some(n) => r == Some(n as usize),
                None => r is None,
            },
    {
        if buf.len() < 4 {
            return None;
        }
        let msg_len = read_be_u32(buf, 0);
        if (buf.len() as u64) < 4 + msg_len as u64 {
            return None;
        }
        Some(msg_len as usize)
    }
}

/// Decoding an encoded message gives it back: the bytes of an encoded
/// `Request` whose fields fit in 32 bits (likewise of an `Interested` and a
/// keep-alive) are exactly one whole frame, its payload can be decoded, and
/// decoding it gives back the same message.
pub proof fn lemma_encode_decode_roundtrip(m: MessageView)
    requires
        match m {
            MessageView::Request { piece_index, block_offset, length } => piece_index
                <= u32::MAX && block_offset <= u32::MAX && length <= u32::MAX,
            MessageView::Interested => true,
            MessageView::KeepAlive => true,
            _ => false,
        },
    ensures
        frame_length_spec(encode_spec(m)) == Some(encode_spec(m).len() - 4),
        decodable(encode_spec(m).subrange(4, encode_spec(m).len() as int)),
        decode_spec(encode_spec(m).subrange(4, encode_spec(m).len() as int)) == m,
{
    let e = encode_spec(m);
    let p = e.subrange(4, e.len() as int);
    match m {
        MessageView::Request { piece_index, block_offset, length } => {
            assert(e.len() == 17);
            assert(p =~= seq![6u8] + be_bytes(piece_index as u32) + be_bytes(block_offset as u32)
                + be_bytes(length as u32));
            assert(be_u32_at(e, 0) == 13);
            assert(be_u32_at(p, 1) == piece_index);
            assert(be_u32_at(p, 5) == block_offset);
            assert(be_u32_at(p, 9) == length);
            assert(p.len() == 13 && p[0] == 6);
            assert(decodable(p));
        },
        MessageView::Interested => {
            assert(be_u32_at(e, 0) == 1);
            assert(p =~= seq![2u8]);
            assert(decodable(p));
        },
        _ => {
            assert(be_u32_at(e, 0) == 0);
            assert(p =~= Seq::<u8>::empty());
            assert(decodable(p));
        },
    }
}

/// The wire format of a received message, for every payload that can be
/// decoded: an empty payload is a keep-alive; ids 0 to 3 are choke,
/// unchoke, interested and not interested; a `have` (id 4) carries a piece
/// index, a `request` (6) and a `cancel` (8) a piece index, a block offset
/// and a length, a `piece` (7) a piece index, a block offset and the block's
/// bytes, each number a big-endian 32-bit field right after the id and the
/// one before; a `bitfield` (5) carries the bits of the bytes after the id;
/// any other id is an extension message.
pub proof fn lemma_wire_format(p: Seq<u8>)
    requires
        decodable(p),
    ensures
        p.len() == 0 ==> decode_spec(p) == MessageView::KeepAlive,
        p.len() > 0 && p[0] == 0 ==> decode_spec(p) == MessageView::Choke,
        p.len() > 0 && p[0] == 1 ==> decode_spec(p) == MessageView::Unchoke,
        p.len() > 0 && p[0] == 2 ==> decode_spec(p) == MessageView::Interested,
        p.len() > 0 && p[0] == 3 ==> decode_spec(p) == MessageView::NotInterested,
        p.len() > 0 && p[0] == 4 ==> decode_spec(p) == (MessageView::Have { piece_index: (p[1] * 16777216 + p[2] * 65536 + p[3] * 256 + p[4]) as u64 }),
        p.len() > 0 && p[0] == 5 ==> decode_spec(p) == (MessageView::Bitfield {
            bits: msb_bits(p.subrange(1, p.len() as int)),
        }),
        p.len() > 0 && p[0] == 6 ==> decode_spec(p) == (MessageView::Request {
            piece_index: (p[1] * 16777216 + p[2] * 65536 + p[3] * 256 + p[4]) as u64,
            block_offset: (p[5] * 16777216 + p[6] * 65536 + p[7] * 256 + p[8]) as u64,
            length: (p[9] * 16777216 + p[10] * 65536 + p[11] * 256 + p[12]) as u64,
        }),
        p.len() > 0 && p[0] == 7 ==> decode_spec(p) == (MessageView::Piece {
            piece_index: (p[1] * 16777216 + p[2] * 65536 + p[3] * 256 + p[4]) as u64,
            block_offset: (p[5] * 16777216 + p[6] * 65536 + p[7] * 256 + p[8]) as u64,
            data: p.subrange(9, p.len() as int),
        }),
        p.len() > 0 && p[0] == 8 ==> decode_spec(p) == (MessageView::Cancel {
            piece_index: (p[1] * 16777216 + p[2] * 65536 + p[3] * 256 + p[4]) as u64,
            block_offset: (p[5] * 16777216 + p[6] * 65536 + p[7] * 256 + p[8]) as u64,
            length: (p[9] * 16777216 + p[10] * 65536 + p[11] * 256 + p[12]) as u64,
        }),
        p.len() > 0 && p[0] > 8 ==> decode_spec(p) == MessageView::Port,
{
}

/// The four bytes of a 32-bit field read back as the same number.
proof fn lemma_be_bytes_read(v: u32, s: Seq<u8>, at: int)
    requires
        0 <= at,
        at + 4 <= s.len(),
        s.subrange(at, at + 4) == be_bytes(v),
    ensures
        be_u32_at(s, at) == v,
{
    assert(s[at] == be_bytes(v)[0]);
    assert(s[at + 1] == be_bytes(v)[1]);
    assert(s[at + 2] == be_bytes(v)[2]);
    assert(s[at + 3] == be_bytes(v)[3]);
}

/// Fields written big-endian after an id are read back: a payload made of
/// id 6 or 8 and three 32-bit numbers decodes to the request or cancel with
/// those numbers, one made of id 4 and a number to the `have` of it.
pub proof fn lemma_fields_roundtrip(a: u32, b: u32, c: u32)
    ensures
        decode_spec(seq![8u8] + be_bytes(a) + be_bytes(b) + be_bytes(c)) == (MessageView::Cancel {
            piece_index: a as u64,
            block_offset: b as u64,
            length: c as u64,
        }),
        decode_spec(seq![6u8] + be_bytes(a) + be_bytes(b) + be_bytes(c)) == (MessageView::Request {
            piece_index: a as u64,
            block_offset: b as u64,
            length: c as u64,
        }),
        decode_spec(seq![4u8] + be_bytes(a)) == (MessageView::Have { piece_index: a as u64 }),
{
    let p8 = seq![8u8] + be_bytes(a) + be_bytes(b) + be_bytes(c);
    let p6 = seq![6u8] + be_bytes(a) + be_bytes(b) + be_bytes(c);
    let p4 = seq![4u8] + be_bytes(a);
    assert(p8.subrange(1, 5) =~= be_bytes(a));
    assert(p8.subrange(5, 9) =~= be_bytes(b));
    assert(p8.subrange(9, 13) =~= be_bytes(c));
    lemma_be_bytes_read(a, p8, 1);
    lemma_be_bytes_read(b, p8, 5);
    lemma_be_bytes_read(c, p8, 9);
    assert(p6.subrange(1, 5) =~= be_bytes(a));
    assert(p6.subrange(5, 9) =~= be_bytes(b));
    assert(p6.subrange(9, 13) =~= be_bytes(c));
    lemma_be_bytes_read(a, p6, 1);
    lemma_be_bytes_read(b, p6, 5);
    lemma_be_bytes_read(c, p6, 9);
    assert(p4.subrange(1, 5) =~= be_bytes(a));
    lemma_be_bytes_read(a, p4, 1);
    assert(p8[0] == 8 && p6[0] == 6 && p4[0] == 4);
}

} // verus!
