use fissure_client::bee_processor::bee_decoder::{BeeDecoderErr, FissureErr};
use fissure_client::bee_processor::bee_encoder::BeeEncoderErr;
use fissure_client::helper::{generate_peer_id, ClientEnv};
use fissure_client::managers::client_manager::FissureClientOptions;
use fissure_client::models::peer_settings::PeerOptions;
use fissure_client::protcols::tracker::escaped_info_hash;
use fissure_client::text::{join, u64_to_decimal};

#[test]
fn peer_id_is_fs_version_and_fourteen_alphanumerics() {
    let id = generate_peer_id(&FissureClientOptions::default());
    assert_eq!(id.len(), 20);
    assert!(id.starts_with("FS0001"));
    assert!(id[6..].chars().all(|c| c.is_ascii_alphanumeric()));
    let mut opts = FissureClientOptions::default();
    opts.version = "12".to_string();
    let id = generate_peer_id(&opts);
    assert_eq!(id.len(), 18);
    assert!(id.starts_with("FS12"));
}

#[test]
fn defaults_of_the_settings() {
    let o = FissureClientOptions::default();
    assert_eq!((o.port.as_str(), o.ip.as_str(), o.version.as_str()), ("6001", "0.0.0.0", "0001"));
    let p = PeerOptions::default();
    assert_eq!(p.per_peer_inflight_count, 25);
    assert_eq!(p.per_peer_active_request_count, 5);
    assert_eq!(p.per_piece_active_peer_count, 5);
    assert_eq!(p.block_request_timeout, 4);
    assert_eq!(p.piece_request_timeout, 30);
    assert_eq!(ClientEnv::default().settings_yaml, "settings.yaml");
}

#[test]
fn escaped_info_hash_writes_decimal_bytes() {
    assert_eq!(escaped_info_hash(&[0, 255, 16]), "\\x0\\x255\\x16");
    assert_eq!(escaped_info_hash(&[]), "");
}

#[test]
fn decimal_text() {
    assert_eq!(u64_to_decimal(0), "0");
    assert_eq!(u64_to_decimal(1234567), "1234567");
    assert_eq!(u64_to_decimal(u64::MAX), "18446744073709551615");
    assert_eq!(join("ab", "cd"), "abcd");
}

#[test]
fn errors_keep_their_text() {
    assert_eq!(FissureErr::new("x".to_string()).error_string(), "x");
    assert_eq!(BeeDecoderErr::new("y".to_string()).error_string(), "y");
    assert_eq!(BeeEncoderErr::new("z".to_string()).error_string(), "z");
}
