use fissure_client::managers::client_manager::ClientTorrentMetaInfo;
use fissure_client::models::client_meta::ClientTorrentMetaInfo as ClientTorrent;
use fissure_client::models::torrent_meta::{FileInfo, Info, MetaInfo};
use fissure_client::protocols::tracker::{Peer, TrackerResponse};

fn hashes(n: u8) -> Vec<u8> {
    let mut v = Vec::new();
    for i in 0..n {
        v.extend_from_slice(&[i + 1; 20]);
    }
    v
}

fn single_file(length: u64, piece_length: u64) -> MetaInfo {
    MetaInfo {
        announce: "udp://tracker.example.com:80".to_string(),
        announce_list: None,
        info: Info {
            name: "a.txt".to_string(),
            piece_length,
            pieces_hash: hashes(3),
            length: Some(length),
            files: None,
        },
    }
}

fn multi_file() -> MetaInfo {
    MetaInfo {
        announce: "http://tracker.example.com/announce".to_string(),
        announce_list: None,
        info: Info {
            name: "dir".to_string(),
            piece_length: 16,
            pieces_hash: hashes(2),
            length: None,
            files: Some(vec![
                FileInfo { length: 10, path: vec!["x".to_string(), "a.bin".to_string()] },
                FileInfo { length: 3_500_000, path: vec!["b.bin".to_string()] },
            ]),
        },
    }
}

#[test]
fn single_file_torrent_has_one_file_named_after_it() {
    let m = single_file(70000, 32768);
    let files = m.files();
    assert_eq!(files.len(), 1);
    assert_eq!(files[0].length, 70000);
    assert_eq!(files[0].path, vec!["a.txt".to_string()]);
}

#[test]
fn multi_file_torrent_sums_its_files() {
    let m = multi_file();
    assert_eq!(m.files().len(), 2);
    assert_eq!(m.download_size(), 3_500_010);
}

#[test]
fn piece_geometry_of_a_single_file() {
    let m = single_file(70000, 32768);
    assert_eq!(m.download_size(), 70000);
    assert_eq!(m.get_number_of_pieces(), 3);
    assert_eq!(m.get_piece_length(0), 32768);
    assert_eq!(m.get_piece_length(1), 32768);
    assert_eq!(m.get_piece_length(2), 70000 - 65536);
    assert_eq!(m.get_piece_length(3), 0);
    assert_eq!(m.get_standard_piece_len(), 32768);
    assert_eq!(m.get_piece_hash(1), &[2u8; 20][..]);
}

#[test]
fn last_piece_of_an_exact_multiple_is_whole() {
    let m = single_file(65536, 32768);
    assert_eq!(m.get_number_of_pieces(), 2);
    assert_eq!(m.get_piece_length(1), 32768);
}

#[test]
fn info_hash_is_sha1_of_the_bencoded_info() {
    let t = ClientTorrentMetaInfo::from_torrent_file_meta(multi_file(), b"abc");
    assert_eq!(
        t.info_hash,
        [
            0xa9, 0x99, 0x3e, 0x36, 0x47, 0x06, 0x81, 0x6a, 0xba, 0x3e, 0x25, 0x71, 0x78, 0x50, 0xc2, 0x6c, 0x9c,
            0xd0, 0xd8, 0x9d
        ]
    );
    assert_eq!(t.files.len(), 2);
    assert_eq!(t.files[0].path, vec!["x".to_string(), "a.bin".to_string()]);
    assert_eq!(t.files[0].size, 0);
    assert_eq!(t.files[1].size, 3);
}

#[test]
fn client_torrent_starts_with_nothing_transferred() {
    let t = ClientTorrent::from_torrent_file_meta(single_file(70000, 32768), b"");
    assert_eq!(t.downloaded, "0");
    assert_eq!(t.uploaded, "0");
    assert_eq!(t.left, "70000");
    assert!(t.peers.is_none());
    assert!(t.tracker_response.is_none());
    assert_eq!(t.get_torrent_name(), "a.txt");
    assert_eq!(
        t.info_hash,
        [
            0xda, 0x39, 0xa3, 0xee, 0x5e, 0x6b, 0x4b, 0x0d, 0x32, 0x55, 0xbf, 0xef, 0x95, 0x60, 0x18, 0x90, 0xaf,
            0xd8, 0x07, 0x09
        ]
    );
}

#[test]
fn tracker_reply_replaces_the_peer_list() {
    let mut t = ClientTorrent::from_torrent_file_meta(single_file(70000, 32768), b"");
    let reply = TrackerResponse {
        failure_reason: None,
        interval: Some(10),
        peers: Some(vec![Peer { peer_id: None, ip: "1.2.3.4".to_string(), port: 5 }]),
    };
    t.add_peer_list_from_tracker_response(reply);
    let peers = t.peers.unwrap();
    assert_eq!(peers.len(), 1);
    assert_eq!(peers[0].ip, "1.2.3.4");
    assert_eq!(t.left, "70000");
}

#[test]
fn piece_lengths_add_up_to_the_download() {
    for (length, piece_length) in [(70000u64, 32768u64), (65536, 32768), (1, 16384), (0, 16384)] {
        let m = single_file(length, piece_length);
        let n = m.get_number_of_pieces();
        let total: u64 = (0..n).map(|i| m.get_piece_length(i)).sum();
        assert_eq!(total, m.download_size());
    }
    let m = multi_file();
    let total: u64 = (0..m.get_number_of_pieces()).map(|i| m.get_piece_length(i)).sum();
    assert_eq!(total, 3_500_010);
}

#[test]
fn piece_count_accepts_the_largest_download() {
    let m = single_file(u64::MAX - 1, 2);
    assert_eq!(m.get_number_of_pieces() as u64, u64::MAX / 2);
}
