//! LZ4 compression: the block format (one-shot and streaming encoder and
//! decoder), the frame format, in-memory frame files, the benchmark's
//! compression strategies and the command line's parsing, each stated and
//! proved with Verus.

pub mod block;
pub mod frame;
pub mod file;
pub mod bench;
pub mod cli;
pub mod io;
pub mod config;

pub use block::compress::{
    compress_bound, compress_dest_size, compress_fast, compress_default as lz4_compress_default,
    Lz4Error, LZ4_ACCELERATION_DEFAULT, LZ4_ACCELERATION_MAX, LZ4_MAX_INPUT_SIZE,
};
pub use block::decompress::{
    decompress_safe as lz4_decompress_safe, decompress_safe_partial, decompress_safe_using_dict,
    DecompressError,
};
pub use frame::compress::lz4f_compress_frame;
pub use frame::decompress::lz4f_decompress;
