//! LZ4 block format: constants, the format's meaning, the decoder and the encoder.

pub mod types;
pub mod spec;
pub mod decompress;
pub mod lemmas;
pub mod compress;
pub mod stream;

pub use decompress as decompress_api;
