use fissure_client::models::peer_messages::{PeerCodec, PeerMessage};
use fissure_client::protocols::peer_handshake::{
    handshake_bytes, handshake_remaining_len, peer_id_from_handshake, PeerState,
};
use fissure_client::protocols::peer_protocol_state_machine::{
    on_block_result, on_peer_message, on_piece_taken, on_request_sent, plan_full_pass, prune_active_requests, request_window,
    BlockOutcome, MAX_INFLIGHT,
    PeerFsmCounters, ReaderAction,
};

fn state() -> PeerState {
    PeerState::new_connection(Some("peer".to_string()), 1000)
}

#[test]
fn decode_reads_each_message_id() {
    assert!(matches!(PeerMessage::decode(&[]), PeerMessage::KeepAlive));
    assert!(matches!(PeerMessage::decode(&[0]), PeerMessage::Choke));
    assert!(matches!(PeerMessage::decode(&[1]), PeerMessage::Unchoke));
    assert!(matches!(PeerMessage::decode(&[2]), PeerMessage::Interested));
    assert!(matches!(PeerMessage::decode(&[3]), PeerMessage::NotInterested));
    assert!(matches!(PeerMessage::decode(&[4, 0, 0, 1, 2]), PeerMessage::Have { piece_index: 258 }));
    match PeerMessage::decode(&[7, 0, 0, 0, 3, 0, 0, 0x40, 0, 9, 8]) {
        PeerMessage::Piece { piece_index, block_offset, data } => {
            assert_eq!((piece_index, block_offset), (3, 16384));
            assert_eq!(data, vec![9, 8]);
        }
        _ => panic!("expected a piece"),
    }
    assert!(matches!(PeerMessage::decode(&[9, 1, 2]), PeerMessage::Port {}));
}

#[test]
fn decode_reads_bitfield_high_bit_first() {
    match PeerMessage::decode(&[5, 0b1010_0000]) {
        PeerMessage::Bitfield { bitfield } => {
            assert_eq!(bitfield.len(), 8);
            assert_eq!(bitfield.get(0), Some(true));
            assert_eq!(bitfield.get(1), Some(false));
            assert_eq!(bitfield.get(2), Some(true));
            assert_eq!(bitfield.get(8), None);
        }
        _ => panic!("expected a bitfield"),
    }
}

#[test]
fn short_messages_are_not_decodable() {
    assert!(!PeerMessage::is_decodable(&[4, 0, 0]));
    assert!(!PeerMessage::is_decodable(&[6, 0, 0, 0, 0, 0]));
    assert!(!PeerMessage::is_decodable(&[7, 0]));
    assert!(PeerMessage::is_decodable(&[]));
    assert!(PeerMessage::is_decodable(&[2]));
}

#[test]
fn encode_writes_length_prefix_and_fields() {
    assert_eq!(PeerMessage::Interested.encode(), vec![0, 0, 0, 1, 2]);
    assert_eq!(PeerMessage::KeepAlive.encode(), vec![0, 0, 0, 0]);
    assert_eq!(
        PeerMessage::Request { piece_index: 1, block_offset: 16384, length: 16384 }.encode(),
        vec![0, 0, 0, 13, 6, 0, 0, 0, 1, 0, 0, 0x40, 0, 0, 0, 0x40, 0]
    );
    assert!(PeerMessage::Choke.encode().is_empty());
}

#[test]
fn encoded_request_decodes_to_itself() {
    let bytes = PeerMessage::Request { piece_index: 77, block_offset: 32768, length: 100 }.encode();
    let codec = PeerCodec::new();
    assert_eq!(codec.frame_length(&bytes), Some(bytes.len() - 4));
    match PeerMessage::decode(&bytes[4..]) {
        PeerMessage::Request { piece_index, block_offset, length } => {
            assert_eq!((piece_index, block_offset, length), (77, 32768, 100));
        }
        _ => panic!("expected a request"),
    }
    let interested = PeerMessage::Interested.encode();
    assert!(matches!(PeerMessage::decode(&interested[4..]), PeerMessage::Interested));
}

#[test]
fn frame_length_waits_for_the_whole_message() {
    let codec = PeerCodec::new();
    assert_eq!(codec.frame_length(&[0, 0]), None);
    assert_eq!(codec.frame_length(&[0, 0, 0, 3, 1, 2]), None);
    assert_eq!(codec.frame_length(&[0, 0, 0, 3, 1, 2, 3, 4]), Some(3));
    assert_eq!(codec.frame_length(&[0, 0, 0, 0]), Some(0));
}

#[test]
fn handshake_layout() {
    let peer_id = "-FS0001-abcdefghijkl";
    let h = handshake_bytes(&[7u8; 20], peer_id);
    assert_eq!(h.len(), 68);
    assert_eq!(h[0], 19);
    assert_eq!(&h[1..20], b"BitTorrent protocol");
    assert_eq!(&h[20..28], &[0u8; 8]);
    assert_eq!(&h[28..48], &[7u8; 20]);
    assert_eq!(&h[48..68], peer_id.as_bytes());
}

#[test]
fn handshake_reply_lengths() {
    assert_eq!(handshake_remaining_len(0), None);
    assert_eq!(handshake_remaining_len(19), Some(67));
}

#[test]
fn peer_id_is_read_from_the_end_of_the_handshake() {
    let mut rest = Vec::new();
    rest.extend_from_slice(b"BitTorrent protocol");
    rest.extend_from_slice(&[0u8; 8]);
    rest.extend_from_slice(&[1u8; 20]);
    rest.extend_from_slice(b"ABCDEFGHIJKLMNOPQRST");
    assert_eq!(peer_id_from_handshake(19, &rest), "ABCDEFGHIJKLMNOPQRST");
    let n = rest.len();
    rest[n - 1] = 0xFF;
    assert_eq!(peer_id_from_handshake(19, &rest), "ABCDEFGHIJKLMNOPQRS\u{FFFD}");
}

#[test]
fn new_connection_starts_choked_and_uninterested() {
    let s = state();
    assert!(s.am_choking && s.peer_choking && s.has_useful_pieces);
    assert!(!s.am_interested && !s.peer_interested);
    assert_eq!(s.keep_alive, 1000);
    assert_eq!(s.peer_id.as_deref(), Some("peer"));
}

#[test]
fn request_window_fills_up_to_the_limit() {
    assert_eq!(request_window(true, 0), 0);
    assert_eq!(request_window(false, 25), 0);
    assert_eq!(request_window(false, 30), 0);
    assert_eq!(request_window(false, 10), 15);
    assert_eq!(request_window(false, 0), 25);
}

#[test]
fn full_pass_declares_interest_and_takes_pieces() {
    let mut s = state();
    let plan = plan_full_pass(&s, 0);
    assert!(plan.send_interested);
    assert!(!plan.request_piece);
    s.am_interested = true;
    s.peer_choking = false;
    let plan = plan_full_pass(&s, 4);
    assert!(!plan.send_interested);
    assert!(plan.request_piece);
    assert!(!plan_full_pass(&s, 5).request_piece);
}

#[test]
fn choke_clears_requests_in_flight() {
    let mut s = state();
    s.peer_choking = false;
    let mut c = PeerFsmCounters::new();
    c.inflight_messages = 7;
    let a = on_peer_message(&mut s, &mut c, &PeerMessage::Choke, 8);
    assert!(matches!(a, ReaderAction::NotifyStateChange));
    assert!(s.peer_choking);
    assert_eq!(c.inflight_messages, 0);
    let a = on_peer_message(&mut s, &mut c, &PeerMessage::Unchoke, 8);
    assert!(matches!(a, ReaderAction::NotifyStateChange));
    assert!(!s.peer_choking);
    on_peer_message(&mut s, &mut c, &PeerMessage::Interested, 8);
    assert!(s.peer_interested);
    on_peer_message(&mut s, &mut c, &PeerMessage::NotInterested, 8);
    assert!(!s.peer_interested);
}

#[test]
fn received_block_is_delivered_and_counted() {
    let mut s = state();
    let mut c = PeerFsmCounters::new();
    c.inflight_messages = 2;
    let a = on_peer_message(&mut s, &mut c, &PeerMessage::Piece { piece_index: 4, block_offset: 16384, data: vec![1] }, 8);
    assert!(matches!(a, ReaderAction::DeliverBlock { piece_index: 4, block_offset: 16384 }));
    assert_eq!(c.inflight_messages, 1);
    let mut c = PeerFsmCounters::new();
    on_peer_message(&mut s, &mut c, &PeerMessage::Piece { piece_index: 4, block_offset: 0, data: vec![] }, 8);
    assert_eq!(c.inflight_messages, 0);
}

#[test]
fn other_messages_ask_for_their_bookkeeping() {
    let mut s = state();
    let mut c = PeerFsmCounters::new();
    assert!(matches!(
        on_peer_message(&mut s, &mut c, &PeerMessage::Have { piece_index: 9 }, 8),
        ReaderAction::UpdateBitfield { piece_index: 9 }
    ));
    assert!(matches!(on_peer_message(&mut s, &mut c, &PeerMessage::KeepAlive, 8), ReaderAction::Nothing));
    assert!(matches!(
        on_peer_message(&mut s, &mut c, &PeerMessage::Request { piece_index: 0, block_offset: 0, length: 1 }, 8),
        ReaderAction::Nothing
    ));
    assert!(matches!(on_peer_message(&mut s, &mut c, &PeerMessage::decode(&[5, 0xFF]), 8), ReaderAction::AddBitfield));
}

#[test]
fn finished_piece_frees_its_slot() {
    let mut c = PeerFsmCounters::new();
    c.pending_active_request_count = 3;
    assert!(matches!(on_block_result(&mut c, false, true), BlockOutcome::TopOffWindow));
    assert_eq!(c.pending_active_request_count, 3);
    assert!(matches!(on_block_result(&mut c, true, true), BlockOutcome::FinishPiece));
    assert_eq!(c.pending_active_request_count, 2);
    assert!(matches!(on_block_result(&mut c, true, false), BlockOutcome::FinishPiece));
    assert_eq!(c.pending_active_request_count, 2);
    let mut z = PeerFsmCounters::new();
    assert!(matches!(on_block_result(&mut z, true, true), BlockOutcome::FinishPiece));
    assert_eq!(z.pending_active_request_count, 0);
}

#[test]
fn pruning_keeps_pieces_still_assigned() {
    let kept = prune_active_requests(&vec![1, 5, 9, 12], &vec![(9, 100), (1, 50), (3, 7)]);
    assert_eq!(kept, vec![1, 9]);
    assert!(prune_active_requests(&vec![2], &vec![]).is_empty());
}

#[test]
fn our_handshake_is_read_back_by_a_peer() {
    let peer_id = "-FS0001-zyxwvutsrqpo";
    let h = handshake_bytes(&[3u8; 20], peer_id);
    assert_eq!(handshake_remaining_len(h[0]), Some(h.len() - 1));
    assert_eq!(peer_id_from_handshake(h[0], &h[1..]), peer_id);
}

#[test]
fn malformed_bitfield_drops_the_connection() {
    let mut s = state();
    let mut c = PeerFsmCounters::new();
    // 10 pieces need 2 bytes; one byte is too short.
    assert!(matches!(on_peer_message(&mut s, &mut c, &PeerMessage::decode(&[5, 0xFF]), 10), ReaderAction::DropConnection));
    // A spare bit (index 10) set.
    assert!(matches!(
        on_peer_message(&mut s, &mut c, &PeerMessage::decode(&[5, 0xFF, 0b1110_0000]), 10),
        ReaderAction::DropConnection
    ));
    assert!(matches!(
        on_peer_message(&mut s, &mut c, &PeerMessage::decode(&[5, 0xFF, 0b1100_0000]), 10),
        ReaderAction::AddBitfield
    ));
    // Three bytes for 10 pieces is too long.
    assert!(matches!(
        on_peer_message(&mut s, &mut c, &PeerMessage::decode(&[5, 0xFF, 0, 0]), 10),
        ReaderAction::DropConnection
    ));
}

#[test]
fn in_flight_count_stays_within_the_window() {
    let mut s = state();
    let mut c = PeerFsmCounters::new();
    c.inflight_messages = 3;
    on_peer_message(&mut s, &mut c, &PeerMessage::Choke, 8);
    for _ in 0..3 {
        on_peer_message(&mut s, &mut c, &PeerMessage::Piece { piece_index: 0, block_offset: 0, data: vec![] }, 8);
        assert_eq!(c.inflight_messages, 0);
    }
    assert_eq!(request_window(false, c.inflight_messages), 25);
}

#[test]
fn sent_requests_fill_the_window_and_no_further() {
    let mut c = PeerFsmCounters::new();
    let w = request_window(false, c.inflight_messages);
    assert_eq!(w, 25);
    for _ in 0..w {
        on_request_sent(&mut c);
    }
    assert_eq!(c.inflight_messages, MAX_INFLIGHT);
    assert_eq!(request_window(false, c.inflight_messages), 0);
    on_request_sent(&mut c);
    assert_eq!(c.inflight_messages, MAX_INFLIGHT);
    assert_eq!(c.pending_active_request_count, 0);
}

#[test]
fn pieces_taken_stay_within_the_active_limit() {
    let mut c = PeerFsmCounters::new();
    for _ in 0..7 {
        on_piece_taken(&mut c);
    }
    assert_eq!(c.pending_active_request_count, 5);
    assert_eq!(c.inflight_messages, 0);
}

#[test]
fn encoded_request_decodes_back() {
    let m = PeerMessage::Request { piece_index: 3, block_offset: 16384, length: 100 };
    let bytes = m.encode();
    let codec = PeerCodec::new();
    assert_eq!(codec.frame_length(&bytes), Some(bytes.len() - 4));
    match PeerMessage::decode(&bytes[4..]) {
        PeerMessage::Request { piece_index, block_offset, length } => {
            assert_eq!((piece_index, block_offset, length), (3, 16384, 100));
        }
        other => panic!("unexpected {:?}", other),
    }
}
