use fissure_client::orchestration::torrent_refresh::{
    handshake_retries_after, is_http_tracker, legacy_refresh_step, new_only_peers, promote_tracker, same_peer, starts_with,
    tier_sleep_secs, unseen_peers, RefreshStep, TierRound, HANDSHAKE_RETRIES,
};
use fissure_client::protocols::tracker::{Peer, TrackerResponse};

fn peer(ip: &str, port: i32) -> Peer {
    Peer { peer_id: None, ip: ip.to_string(), port }
}

fn reply(peers: Option<Vec<Peer>>, interval: Option<i64>) -> TrackerResponse {
    TrackerResponse { failure_reason: None, interval, peers }
}

fn ips(ps: &[Peer]) -> Vec<String> {
    ps.iter().map(|p| p.ip.clone()).collect()
}

#[test]
fn http_trackers_are_told_apart_from_udp() {
    assert!(is_http_tracker("http://t.example/announce"));
    assert!(is_http_tracker("https://t.example/announce"));
    assert!(!is_http_tracker("udp://t.example:80"));
    assert!(!is_http_tracker("htt"));
    assert!(starts_with("abc", ""));
    assert!(!starts_with("ab", "abc"));
}

#[test]
fn peers_already_seen_by_address_are_dropped() {
    let seen = vec![peer("1.1.1.1", 1), peer("2.2.2.2", 2)];
    let new_peers = vec![peer("2.2.2.2", 9), peer("3.3.3.3", 3), peer("1.1.1.1", 1), peer("4.4.4.4", 4)];
    let fresh = unseen_peers(new_peers, &seen);
    assert_eq!(ips(&fresh), vec!["3.3.3.3".to_string(), "4.4.4.4".to_string()]);
    assert!(fresh.iter().all(|p| !seen.iter().any(|s| s.ip == p.ip)));
}

#[test]
fn answering_tracker_moves_to_the_front() {
    let mut tier = vec!["a".to_string(), "b".to_string(), "c".to_string()];
    promote_tracker(&mut tier, 2);
    assert_eq!(tier, vec!["c".to_string(), "a".to_string(), "b".to_string()]);
    promote_tracker(&mut tier, 0);
    assert_eq!(tier, vec!["c".to_string(), "a".to_string(), "b".to_string()]);
}

#[test]
fn tier_waits_the_interval_or_backs_off() {
    assert_eq!(tier_sleep_secs(1800, 3), 1800);
    assert_eq!(tier_sleep_secs(0, 0), 1);
    assert_eq!(tier_sleep_secs(0, 3), 125);
    assert_eq!(tier_sleep_secs(-1, 0), u64::MAX);
}

#[test]
fn peers_compare_by_id_address_and_port() {
    assert!(same_peer(&peer("1.1.1.1", 1), &peer("1.1.1.1", 1)));
    assert!(!same_peer(&peer("1.1.1.1", 1), &peer("1.1.1.1", 2)));
    let mut named = peer("1.1.1.1", 1);
    named.peer_id = Some("x".to_string());
    assert!(!same_peer(&named, &peer("1.1.1.1", 1)));
    let old = vec![peer("1.1.1.1", 1)];
    let fresh = new_only_peers(&vec![peer("1.1.1.1", 1), peer("1.1.1.1", 2)], &old);
    assert_eq!(fresh.len(), 1);
    assert_eq!(fresh[0].port, 2);
}

#[test]
fn first_reply_is_sent_whole() {
    match legacy_refresh_step(&None, &reply(Some(vec![peer("1.1.1.1", 1)]), None)) {
        RefreshStep::Publish { send, wait_secs } => {
            assert_eq!(wait_secs, 900);
            assert_eq!(ips(&send.unwrap().peers.unwrap()), vec!["1.1.1.1".to_string()]);
        }
        RefreshStep::Retry => panic!("expected a publish"),
    }
}

#[test]
fn later_replies_send_only_new_peers() {
    let last = Some(reply(Some(vec![peer("1.1.1.1", 1)]), Some(60)));
    match legacy_refresh_step(&last, &reply(Some(vec![peer("1.1.1.1", 1), peer("2.2.2.2", 2)]), Some(30))) {
        RefreshStep::Publish { send, wait_secs } => {
            assert_eq!(wait_secs, 30);
            let sent = send.unwrap();
            assert_eq!(sent.interval, Some(30));
            assert_eq!(ips(&sent.peers.unwrap()), vec!["2.2.2.2".to_string()]);
        }
        RefreshStep::Retry => panic!("expected a publish"),
    }
    match legacy_refresh_step(&last, &reply(Some(vec![peer("1.1.1.1", 1)]), Some(30))) {
        RefreshStep::Publish { send, .. } => assert!(send.is_none()),
        RefreshStep::Retry => panic!("expected a publish"),
    }
}

#[test]
fn reply_without_peers_is_retried() {
    assert!(matches!(legacy_refresh_step(&None, &reply(None, Some(5))), RefreshStep::Retry));
    let last = Some(reply(None, Some(60)));
    match legacy_refresh_step(&last, &reply(Some(vec![peer("9.9.9.9", 9)]), None)) {
        RefreshStep::Publish { send, .. } => assert!(send.is_none()),
        RefreshStep::Retry => panic!("expected a publish"),
    }
}

#[test]
fn handshake_retries_reset_on_a_reply_and_run_out() {
    let mut r = HANDSHAKE_RETRIES;
    for _ in 0..3 {
        r = handshake_retries_after(r, false);
    }
    assert_eq!(r, 7);
    assert_eq!(handshake_retries_after(r, true), 10);
    let mut tries = 0;
    let mut left = HANDSHAKE_RETRIES;
    while left > 0 {
        left = handshake_retries_after(left, false);
        tries += 1;
    }
    assert_eq!(tries, 10);
    assert_eq!(handshake_retries_after(0, false), 0);
}

#[test]
fn tier_round_counts_failures_and_promotes_the_tracker_that_answers() {
    let mut tier = vec!["udp://a:1".to_string(), "udp://b:2".to_string(), "udp://c:3".to_string()];
    let mut round = TierRound::new();
    assert!(!round.after_tracker(&mut tier, 0, None));
    assert!(!round.after_tracker(&mut tier, 1, None));
    assert_eq!(round.tier_retry, 2);
    assert_eq!(round.sleep_secs(), 25);
    assert!(round.after_tracker(&mut tier, 2, Some(1800)));
    assert_eq!(round.interval, 1800);
    assert_eq!(round.sleep_secs(), 1800);
    assert_eq!(tier, vec!["udp://c:3".to_string(), "udp://a:1".to_string(), "udp://b:2".to_string()]);
}
