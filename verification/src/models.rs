pub mod client_meta;
pub mod peer_messages;
pub mod peer_settings;
pub mod torrent_jobs;
pub mod torrent_meta;
