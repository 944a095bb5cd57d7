pub mod bee_decoder;
pub mod bee_encoder;
