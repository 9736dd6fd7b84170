//! Benchmark support: parameters, the compression strategies that the
//! benchmark measures, frame decoding for decode-only runs, and the memory
//! budget.

pub mod config;
pub mod compress_strategy;
pub mod decompress_binding;
pub mod bench_mem;
pub mod runner;
pub mod timing;

pub use config::BenchConfig;
