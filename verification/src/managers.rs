pub mod client_manager;
pub mod disk_manager;
pub mod peer_table;
pub mod piece_manager;
pub mod torrent_manager;
