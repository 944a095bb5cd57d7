pub mod bee_processor;
pub mod bits;
pub mod hashing;
pub mod helper;
pub mod managers;
pub mod models;
pub mod orchestration;
pub mod protcols;
pub mod protocols;
pub mod text;
