//! LZ4 frame format: a header, a series of blocks, an end mark and an
//! optional content checksum.

pub mod types;
pub mod header;
pub mod format;
pub mod compress;
pub mod decompress;
pub mod laws;

pub use compress::{lz4f_compress_frame, lz4f_compress_frame_bound};
