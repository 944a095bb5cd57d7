pub mod peer_handshake;
pub mod peer_protocol_state_machine;
pub mod tracker;
