use fissure_client::bits::BitField;
use fissure_client::managers::disk_manager::{DiskLayout, FileSegment};
use fissure_client::managers::peer_table::PeerTable;
use fissure_client::managers::piece_manager::PieceRequestManagerActor;
use fissure_client::managers::torrent_manager::{TorrentManagerState, WorkChoice};
use fissure_client::models::peer_settings::PeerOptions;
use fissure_client::models::torrent_meta::FileInfo;
use sha1::{Digest, Sha1};

fn piece_bytes(n: usize) -> Vec<u8> {
    (0..n).map(|i| (i % 251) as u8).collect()
}

#[test]
fn blocks_are_requested_lowest_first_and_never_twice() {
    let mut m = PieceRequestManagerActor::new(40000, vec![0u8; 20]);
    assert_eq!(m.blocks_to_request(2, 0), vec![(0, 16384), (16384, 16384)]);
    assert_eq!(m.blocks_to_request(5, 1), vec![(32768, 40000 - 32768)]);
    assert!(m.blocks_to_request(5, 2).is_empty());
}

#[test]
fn expired_requests_can_be_made_again() {
    let mut m = PieceRequestManagerActor::new(40000, vec![0u8; 20]);
    m.blocks_to_request(1, 0);
    m.blocks_to_request(1, 3000);
    m.expire_requests(6000);
    assert_eq!(m.blocks_to_request(3, 6000), vec![(0, 16384), (32768, 40000 - 32768)]);
}

#[test]
fn complete_piece_with_matching_digest_is_accepted() {
    let data = piece_bytes(40000);
    let hash = Sha1::digest(&data).to_vec();
    let mut m = PieceRequestManagerActor::new(40000, hash);
    m.blocks_to_request(3, 0);
    assert!(!m.block_received(0, &data[0..16384]));
    assert!(!m.block_received(32768, &data[32768..40000]));
    assert!(m.block_received(16384, &data[16384..32768]));
    assert_eq!(m.get_data(0, 40000), data);
    assert_eq!(m.get_data_with_len(100, 5), data[100..105].to_vec());
}

#[test]
fn complete_piece_with_wrong_digest_is_asked_for_again() {
    let data = piece_bytes(20000);
    let mut m = PieceRequestManagerActor::new(20000, vec![0u8; 20]);
    m.blocks_to_request(2, 0);
    assert!(!m.block_received(0, &data[0..16384]));
    assert!(!m.block_received(16384, &data[16384..20000]));
    assert_eq!(m.blocks_to_request(2, 1), vec![(0, 16384), (16384, 20000 - 16384)]);
}

#[test]
fn block_offsets_and_indices_convert() {
    assert_eq!(PieceRequestManagerActor::convert_block_offset_to_index(16384), 1);
    assert_eq!(PieceRequestManagerActor::convert_block_offset_to_index(16383), 0);
    assert_eq!(PieceRequestManagerActor::convert_block_index_to_offset(2), 32768);
}

#[test]
fn rarest_piece_is_selected_first() {
    let mut t: TorrentManagerState<u32> = TorrentManagerState::new(4, PeerOptions::default());
    let a = "A".to_string();
    let b = "B".to_string();
    t.add_peer(a.clone(), BitField::from_bytes(vec![0b1110_0000]));
    t.add_peer(b.clone(), BitField::from_bytes(vec![0b1010_0000]));
    assert_eq!(t.select_piece(&a), Some(1));
    t.assign_piece(&a, 1, 0);
    let next = t.select_piece(&a);
    assert!(next == Some(0) || next == Some(2));
    assert_eq!(t.select_piece(&"C".to_string()), None);
    assert!(t.has_useful_pieces(&a));
}

#[test]
fn finished_piece_is_no_longer_selected() {
    let mut t: TorrentManagerState<u32> = TorrentManagerState::new(2, PeerOptions::default());
    let a = "A".to_string();
    t.add_peer(a.clone(), BitField::from_bytes(vec![0b0100_0000]));
    assert_eq!(t.select_piece(&a), Some(1));
    t.insert_manager(1, 42);
    assert_eq!(t.piece_finish(1), Some(42));
    assert_eq!(t.select_piece(&a), None);
    assert!(!t.has_useful_pieces(&a));
    assert_eq!(t.record_downloaded(1), 1);
    assert_eq!(t.have_message_progress(0), vec![1]);
    assert_eq!(t.active_peers(), vec!["A".to_string()]);
    assert!(t.tracks_work(&a));
    assert_eq!(t.piece_count(), 2);
}

#[test]
fn peer_table_keeps_one_value_per_key() {
    let mut p: PeerTable<u32> = PeerTable::new();
    p.insert("a".to_string(), 1);
    p.insert("b".to_string(), 2);
    p.insert("a".to_string(), 3);
    assert_eq!(p.len(), 2);
    assert_eq!(p.get(&"a".to_string()), Some(&3));
    assert_eq!(p.find(&"b".to_string()), Some(1));
    assert_eq!(p.get(&"c".to_string()), None);
    assert_eq!(p.key_list(), vec!["a".to_string(), "b".to_string()]);
}

fn layout() -> DiskLayout {
    let files: Vec<FileInfo> = [10u64, 0, 5, 20]
        .iter()
        .map(|&length| FileInfo { path: vec!["f".to_string()], length })
        .collect();
    DiskLayout::new(&files, 8)
}

#[test]
fn segments_tile_a_range_across_files() {
    let segs = layout().segments(8, 16);
    let expected = vec![
        FileSegment { file_index: 0, file_offset: 8, length: 2, span_offset: 0 },
        FileSegment { file_index: 1, file_offset: 0, length: 0, span_offset: 2 },
        FileSegment { file_index: 2, file_offset: 0, length: 5, span_offset: 2 },
        FileSegment { file_index: 3, file_offset: 0, length: 1, span_offset: 7 },
    ];
    assert_eq!(segs, expected);
    assert_eq!(segs.iter().map(|s| s.length).sum::<u64>(), 8);
}

#[test]
fn segments_of_a_range_inside_one_file() {
    assert_eq!(
        layout().segments(20, 30),
        vec![FileSegment { file_index: 3, file_offset: 5, length: 10, span_offset: 0 }]
    );
    assert!(layout().segments(4, 4).is_empty());
}

#[test]
fn piece_and_block_spans() {
    let l = layout();
    assert_eq!(l.piece_span(2, 8), (16, 24));
    assert_eq!(l.piece_span(4, 3), (32, 35));
    assert_eq!(l.block_span(1, 4, 2), (12, 14));
}

#[test]
fn bitfield_reads_high_bit_first() {
    let b = BitField::from_bytes(vec![0b1010_0000, 0b0000_0001]);
    assert_eq!(b.len(), 16);
    assert_eq!(b.get(0), Some(true));
    assert_eq!(b.get(1), Some(false));
    assert_eq!(b.get(15), Some(true));
    assert_eq!(b.get(16), None);
    assert_eq!(b.ones(), vec![0, 2, 15]);
}

#[test]
fn useful_pieces_are_those_we_lack() {
    let mut t: TorrentManagerState<u32> = TorrentManagerState::new(3, PeerOptions::default());
    let a = "A".to_string();
    let local = t.add_peer(a.clone(), BitField::from_bytes(vec![0b1000_0000]));
    assert_eq!(local.len(), 3);
    assert!(local.ones().is_empty());
    assert!(t.has_useful_pieces(&a));
    assert_eq!(t.piece_finish(0), None);
    assert!(!t.has_useful_pieces(&a));
    t.update_bitfield(&a, 2);
    assert!(t.has_useful_pieces(&a));
    assert_eq!(t.select_piece(&a), Some(2));
}

#[test]
fn small_files_take_their_byte_lengths() {
    let files = vec![
        FileInfo { path: vec!["a".to_string()], length: 3_000 },
        FileInfo { path: vec!["b".to_string()], length: 500_000 },
    ];
    let l = DiskLayout::new(&files, 4096);
    assert_eq!(
        l.segments(2_500, 3_500),
        vec![
            FileSegment { file_index: 0, file_offset: 2_500, length: 500, span_offset: 0 },
            FileSegment { file_index: 1, file_offset: 0, length: 500, span_offset: 500 },
        ]
    );
    assert_eq!(l.segments(0, 503_000).iter().map(|s| s.length).sum::<u64>(), 503_000);
}

#[test]
fn finishing_a_piece_twice_changes_nothing_more() {
    let mut t: TorrentManagerState<u32> = TorrentManagerState::new(2, PeerOptions::default());
    let a = "A".to_string();
    t.add_peer(a.clone(), BitField::from_bytes(vec![0b1100_0000]));
    t.insert_manager(0, 7);
    assert!(!t.holds_piece(0));
    assert_eq!(t.piece_finish(0), Some(7));
    assert!(t.holds_piece(0));
    assert!(!t.holds_piece(2));
    assert_eq!(t.piece_finish(0), None);
    assert_eq!(t.piece_manager(0), None);
    assert_eq!(t.select_piece(&a), Some(1));
}

#[test]
fn work_never_times_out_with_a_huge_timeout() {
    let mut opts = PeerOptions::default();
    opts.piece_request_timeout = usize::MAX;
    let mut t: TorrentManagerState<u32> = TorrentManagerState::new(2, opts);
    let a = "A".to_string();
    t.add_peer(a.clone(), BitField::from_bytes(vec![0b1100_0000]));
    t.assign_piece(&a, 0, 0);
    assert_eq!(t.refresh_active_work(&a, u64::MAX), Some(vec![(0, 0)]));
    let mut t2: TorrentManagerState<u32> = TorrentManagerState::new(2, PeerOptions::default());
    t2.add_peer(a.clone(), BitField::from_bytes(vec![0b1100_0000]));
    t2.assign_piece(&a, 0, 0);
    assert_eq!(t2.refresh_active_work(&a, 30_001), Some(vec![]));
    assert_eq!(t2.refresh_active_work(&"B".to_string(), 0), None);
}

#[test]
fn bytes_read_back_are_the_bytes_written() {
    let l = layout();
    let mut files: Vec<Vec<u8>> = vec![vec![0u8; 10], vec![], vec![0u8; 5], vec![0u8; 20]];
    let data: Vec<u8> = (100u8..124).collect();
    let (start, end) = l.piece_span(1, 24);
    assert_eq!((start, end), (8, 32));
    for s in l.segments(start, end) {
        let from = s.span_offset as usize;
        let to = from + s.length as usize;
        let at = s.file_offset as usize;
        files[s.file_index][at..at + s.length as usize].copy_from_slice(&data[from..to]);
    }
    let (a, b) = l.block_span(1, 5, 9);
    assert_eq!((a, b), (13, 22));
    let mut read = vec![0u8; (b - a) as usize];
    for s in l.segments(a, b) {
        let from = s.span_offset as usize;
        let at = s.file_offset as usize;
        read[from..from + s.length as usize].copy_from_slice(&files[s.file_index][at..at + s.length as usize]);
    }
    assert_eq!(read, data[5..14].to_vec());
}

#[test]
fn work_request_reuses_a_download_in_progress() {
    let mut t: TorrentManagerState<u32> = TorrentManagerState::new(2, PeerOptions::default());
    let a = "A".to_string();
    let b = "B".to_string();
    t.add_peer(a.clone(), BitField::from_bytes(vec![0b0100_0000]));
    t.add_peer(b.clone(), BitField::from_bytes(vec![0b0100_0000]));
    assert!(matches!(t.choose_work(&a), WorkChoice::Fresh(1)));
    assert!(t.give_work(&a, 1, Some(9), 5));
    assert_eq!(t.piece_manager(1), Some(&9));
    assert!(matches!(t.choose_work(&a), WorkChoice::NoWork));
    assert!(matches!(t.choose_work(&b), WorkChoice::Existing(1)));
    assert!(t.give_work(&b, 1, None, 6));
    assert_eq!(t.piece_manager(1), Some(&9));
    assert!(!t.give_work(&"C".to_string(), 1, Some(3), 7));
    assert_eq!(t.piece_manager(1), Some(&9));
}
