use fissure_client::protocols::tracker::{
    announce_request, announce_url, connect_request, extract_tracker_host_port, ipv4_text,
    parse_announce_response, parse_connect_response, peers_from_compact, start_announce,
    start_connect, tracker_host_port, udp_timeout_secs, usable_peers, Peer, TrackerRequest,
    TrackerResponse,
};

fn reply_header(action: u32, t_id: u32, interval: u32) -> Vec<u8> {
    let mut v = Vec::new();
    v.extend_from_slice(&action.to_be_bytes());
    v.extend_from_slice(&t_id.to_be_bytes());
    v.extend_from_slice(&interval.to_be_bytes());
    v.extend_from_slice(&3u32.to_be_bytes());
    v.extend_from_slice(&7u32.to_be_bytes());
    v
}

#[test]
fn ipv4_text_is_dotted_decimal() {
    assert_eq!(ipv4_text(192, 168, 0, 1), "192.168.0.1");
    assert_eq!(ipv4_text(0, 0, 0, 0), "0.0.0.0");
    assert_eq!(ipv4_text(255, 10, 100, 7), "255.10.100.7");
}

#[test]
fn compact_peer_list_gives_one_peer_per_entry() {
    let bytes = [10u8, 0, 0, 1, 0x1A, 0xE1, 127, 0, 0, 1, 0, 80];
    let peers = peers_from_compact(&bytes);
    assert_eq!(peers.len(), 2);
    assert_eq!(peers[0].ip, "10.0.0.1");
    assert_eq!(peers[0].port, 6881);
    assert!(peers[0].peer_id.is_none());
    assert_eq!(peers[1].ip, "127.0.0.1");
    assert_eq!(peers[1].port, 80);
}

#[test]
fn compact_peer_list_with_partial_entry_gives_no_peer() {
    let bytes = [10u8, 0, 0, 1, 0x1A, 0xE1, 9];
    assert!(peers_from_compact(&bytes).is_empty());
    assert!(peers_from_compact(&[]).is_empty());
}

#[test]
fn usable_peers_skip_unspecified_address_and_port_zero() {
    let bytes = [0u8, 0, 0, 0, 0, 80, 1, 2, 3, 4, 0, 0, 5, 6, 7, 8, 1, 187, 9, 9, 9];
    let peers = usable_peers(&bytes);
    assert_eq!(peers.len(), 1);
    assert_eq!(peers[0].ip, "5.6.7.8");
    assert_eq!(peers[0].port, 443);
}

#[test]
fn udp_reply_shorter_than_header_is_refused() {
    let r = TrackerResponse::from_udp_bytes(&[0u8; 19]);
    assert_eq!(r.unwrap_err().error_string(), "Response buffer too short");
}

#[test]
fn udp_reply_gives_interval_and_peers() {
    let mut buf = reply_header(1, 9, 1800);
    buf.extend_from_slice(&[8, 8, 4, 4, 0x1F, 0x90]);
    buf.extend_from_slice(&[0, 0, 0, 0, 0x1F, 0x90]);
    let r = TrackerResponse::from_udp_bytes(&buf).unwrap();
    assert!(r.failure_reason.is_none());
    assert_eq!(r.interval, Some(1800));
    let peers = r.peers.unwrap();
    assert_eq!(peers.len(), 1);
    assert_eq!(peers[0].ip, "8.8.4.4");
    assert_eq!(peers[0].port, 8080);
}

#[test]
fn query_string_escapes_every_hash_byte_and_encodes_peer_id() {
    let mut info_hash = [0u8; 20];
    info_hash[0] = 0x12;
    info_hash[1] = 0xAB;
    info_hash[2] = b'a';
    let req = TrackerRequest {
        info_hash,
        peer_id: "-FS0001-abc def~".to_string(),
        port: "6881".to_string(),
        uploaded: "0".to_string(),
        downloaded: "5".to_string(),
        left: "1000".to_string(),
    };
    let mut expected = String::from("info_hash=%12%AB%61");
    for _ in 0..17 {
        expected.push_str("%00");
    }
    expected.push_str("&peer_id=-FS0001-abc%20def~&port=6881&uploaded=0&downloaded=5&left=1000&compact=1&event=started");
    assert_eq!(req.generate_query_string(), expected);
}

#[test]
fn connect_request_layout() {
    assert_eq!(
        connect_request(0x01020304),
        vec![0, 0, 0x04, 0x17, 0x27, 0x10, 0x19, 0x80, 0, 0, 0, 0, 1, 2, 3, 4]
    );
}

#[test]
fn start_connect_carries_its_transaction_id() {
    let (t_id, packet) = start_connect();
    assert_eq!(packet, connect_request(t_id));
}

#[test]
fn connect_response_gives_connection_id() {
    let mut buf = vec![0u8, 0, 0, 0, 0, 0, 0, 42];
    buf.extend_from_slice(&0x0102030405060708u64.to_be_bytes());
    assert_eq!(parse_connect_response(&buf, 42).unwrap(), 0x0102030405060708);
}

#[test]
fn connect_response_with_wrong_action_or_id_is_refused() {
    let mut buf = vec![0u8, 0, 0, 3, 0, 0, 0, 42];
    buf.extend_from_slice(&[0u8; 8]);
    assert_eq!(
        parse_connect_response(&buf, 42).unwrap_err().error_string(),
        "Malcious UDP tracker messing with stuff in first req"
    );
    buf[3] = 0;
    assert!(parse_connect_response(&buf, 43).is_err());
}

#[test]
fn announce_request_layout() {
    let info_hash = [7u8; 20];
    let peer_id = "-FS0001-abcdefghijkl";
    let r = announce_request(0x1122334455667788, 5, &info_hash, peer_id, 100, 200, 300, 0xCAFEBABE, 6881);
    assert_eq!(r.len(), 98);
    assert_eq!(&r[0..8], &[0x11, 0x22, 0x33, 0x44, 0x55, 0x66, 0x77, 0x88]);
    assert_eq!(&r[8..12], &[0, 0, 0, 1]);
    assert_eq!(&r[12..16], &[0, 0, 0, 5]);
    assert_eq!(&r[16..36], &info_hash);
    assert_eq!(&r[36..56], peer_id.as_bytes());
    assert_eq!(&r[56..64], &100u64.to_be_bytes());
    assert_eq!(&r[64..72], &200u64.to_be_bytes());
    assert_eq!(&r[72..80], &300u64.to_be_bytes());
    assert_eq!(&r[80..84], &[0, 0, 0, 2]);
    assert_eq!(&r[84..88], &[0, 0, 0, 0]);
    assert_eq!(&r[88..92], &[0xCA, 0xFE, 0xBA, 0xBE]);
    assert_eq!(&r[92..96], &[0xFF, 0xFF, 0xFF, 0xFF]);
    assert_eq!(&r[96..98], &[0x1A, 0xE1]);
}

#[test]
fn start_announce_carries_its_transaction_id_and_key() {
    let info_hash = [1u8; 20];
    let (t_id, key, packet) = start_announce(9, &info_hash, "-FS0001-abcdefghijkl", 1, 2, 3, 80);
    assert_eq!(packet, announce_request(9, t_id, &info_hash, "-FS0001-abcdefghijkl", 1, 2, 3, key, 80));
}

#[test]
fn announce_response_must_match_the_announce() {
    let short = reply_header(1, 5, 60);
    assert_eq!(
        parse_announce_response(&short[..19], 5).unwrap_err().error_string(),
        "Invalid second response from UDP tracker"
    );
    let wrong_action = reply_header(3, 5, 60);
    assert!(parse_announce_response(&wrong_action, 5).is_err());
    let wrong_id = reply_header(1, 6, 60);
    assert!(parse_announce_response(&wrong_id, 5).is_err());
    let mut good = reply_header(1, 5, 60);
    good.extend_from_slice(&[1, 1, 1, 1, 0, 1]);
    let r = parse_announce_response(&good, 5).unwrap();
    assert_eq!(r.interval, Some(60));
    let peers = r.peers.unwrap();
    assert_eq!(peers.len(), 1);
    assert_eq!(peers[0].ip, "1.1.1.1");
    assert_eq!(peers[0].port, 1);
}

#[test]
fn udp_timeouts_double_with_each_retry() {
    assert_eq!(udp_timeout_secs(0), 30);
    assert_eq!(udp_timeout_secs(1), 45);
    assert_eq!(udp_timeout_secs(2), 75);
    assert_eq!(udp_timeout_secs(4), 255);
}

#[test]
fn tracker_host_port_uses_explicit_or_default_port() {
    assert_eq!(
        extract_tracker_host_port("udp://tracker.opentrackr.org:1337/announce").unwrap(),
        "tracker.opentrackr.org:1337"
    );
    assert_eq!(extract_tracker_host_port("http://tracker.example.com/announce").unwrap(), "tracker.example.com:80");
    assert_eq!(
        extract_tracker_host_port("https://tracker.example.com/announce").unwrap(),
        "tracker.example.com:443"
    );
    assert_eq!(extract_tracker_host_port("udp://tracker.example.com/announce").unwrap(), "tracker.example.com:80");
}

#[test]
fn tracker_host_port_errors() {
    assert_eq!(
        extract_tracker_host_port("mailto:someone@example.com").unwrap_err().error_string(),
        "Missing host in tracker URL"
    );
    assert_eq!(
        extract_tracker_host_port("not a url").unwrap_err().error_string(),
        "relative URL without a base"
    );
    assert_eq!(tracker_host_port(Err("boom".to_string())).unwrap_err().error_string(), "boom");
    assert_eq!(
        tracker_host_port(Ok((Some("h".to_string()), None, "https".to_string()))).unwrap(),
        "h:443"
    );
    assert_eq!(tracker_host_port(Ok((Some("h".to_string()), Some(7), "https".to_string()))).unwrap(), "h:7");
}

#[test]
fn announce_url_picks_the_separator() {
    assert_eq!(announce_url("http://t.example/announce", "a=1"), "http://t.example/announce?a=1");
    assert_eq!(announce_url("http://t.example/announce?k=v", "a=1"), "http://t.example/announce?k=v&a=1");
}

#[test]
fn tracker_response_copy_keeps_every_field() {
    let r = TrackerResponse {
        failure_reason: Some("no".to_string()),
        interval: Some(5),
        peers: Some(vec![Peer { peer_id: Some("x".to_string()), ip: "1.2.3.4".to_string(), port: 9 }]),
    };
    let c = r.clone();
    assert_eq!(c.failure_reason, r.failure_reason);
    assert_eq!(c.interval, r.interval);
    let (a, b) = (c.peers.unwrap(), r.peers.unwrap());
    assert_eq!(a.len(), 1);
    assert_eq!(a[0].peer_id, b[0].peer_id);
    assert_eq!(a[0].ip, b[0].ip);
    assert_eq!(a[0].port, b[0].port);
}
