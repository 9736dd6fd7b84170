use lz4::bench::compress_strategy::{
    build_compression_parameters, build_compression_parameters_with_dict, BenchStrategy, NoStreamFast,
    StreamFast,
};
use lz4::bench::config::{
    BenchConfig, ACTIVEPERIOD_NANOSEC, KB, LZ4_MAX_DICT_SIZE, MB, TIMELOOP_MICROSEC, TIMELOOP_NANOSEC,
};
use lz4::bench::decompress_binding::{decompress_frame_block, FrameDecompressor};
use lz4::bench::runner::{find_max_mem, MEM_STEP};
use lz4::bench::bench_mem::BlockParams;
use lz4::bench::timing::{bench_loop_next, bench_loop_start, max_time_ns, roundtrip_ok, BenchLoop};
use lz4::bench::config::MAX_MEMORY;
use lz4::block::decompress::decompress_safe;
use lz4::frame::{lz4f_compress_frame, lz4f_compress_frame_bound};

#[test]
fn default_nb_seconds() {
    assert_eq!(BenchConfig::default().nb_seconds, 3);
}

#[test]
fn default_block_size() {
    assert_eq!(BenchConfig::default().block_size, 0);
}

#[test]
fn default_display_level() {
    assert_eq!(BenchConfig::default().display_level, 2);
}

#[test]
fn setter_nb_seconds() {
    let mut cfg = BenchConfig::default();
    cfg.set_nb_seconds(10);
    assert_eq!(cfg.nb_seconds, 10);
}

#[test]
fn setter_block_size() {
    let mut cfg = BenchConfig::default();
    cfg.set_block_size(64 * KB);
    assert_eq!(cfg.block_size, 65536);
}

#[test]
fn setter_chain() {
    let mut cfg = BenchConfig::default();
    cfg.set_nb_seconds(5)
        .set_block_size(1 * MB)
        .set_decode_only(true)
        .set_skip_checksums(true);
    assert_eq!(cfg.nb_seconds, 5);
    assert_eq!(cfg.block_size, MB);
    assert!(cfg.decode_only);
    assert!(cfg.skip_checksums);
}

#[test]
fn setter_bench_separately_false() {
    let mut cfg = BenchConfig::default();
    cfg.set_bench_separately(false);
    assert!(!cfg.bench_separately);
}

#[test]
fn constants_sanity() {
    assert_eq!(KB, 1024);
    assert_eq!(MB, 1024 * 1024);
    assert_eq!(LZ4_MAX_DICT_SIZE, 65536);
    assert_eq!(TIMELOOP_MICROSEC, 1_000_000);
    assert_eq!(TIMELOOP_NANOSEC, 1_000_000_000);
    assert_eq!(ACTIVEPERIOD_NANOSEC, 70_000_000_000);
}

#[test]
fn find_max_mem_sanity() {
    let r = find_max_mem(1024 * 1024);
    assert!(r > 0, "find_max_mem must return > 0 for non-trivial input");
    assert!(r <= MAX_MEMORY, "find_max_mem must not exceed MAX_MEMORY");
}

#[test]
fn find_max_mem_large_input() {
    let r = find_max_mem(u64::MAX / 2);
    assert!(r <= MAX_MEMORY);
    assert!(r > 0);
}

#[test]
fn find_max_mem_zero() {
    let r = find_max_mem(0);
    assert!(r > 0);
    assert!(r <= MAX_MEMORY);
}

#[test]
fn find_max_mem_exact_values() {
    // 0 rounds up to one step, plus two: three steps, less two: one step.
    assert_eq!(find_max_mem(0), MEM_STEP);
    assert_eq!(find_max_mem(MEM_STEP), 2 * MEM_STEP);
    assert_eq!(find_max_mem(u64::MAX / 2), MAX_MEMORY - 2 * MEM_STEP);
}

fn compress_frame(data: &[u8]) -> Vec<u8> {
    let bound = lz4f_compress_frame_bound(data.len(), None);
    let mut buf = vec![0u8; bound];
    let n = lz4f_compress_frame(&mut buf, data, None).unwrap();
    buf.truncate(n);
    buf
}

#[test]
fn round_trip_basic() {
    let input = b"hello, lz4 frame decompressor!";
    let frame = compress_frame(input);
    let mut decompressor = FrameDecompressor::new();
    let mut dst = Vec::new();
    let n = decompress_frame_block(&mut decompressor, &frame, &mut dst, input.len(), false).unwrap();
    assert_eq!(n, input.len());
    assert_eq!(dst, input);
}

#[test]
fn round_trip_1mb() {
    let input: Vec<u8> = (0u8..=255).cycle().take(1024 * 1024).collect();
    let frame = compress_frame(&input);
    let mut decompressor = FrameDecompressor::new();
    let mut dst = Vec::new();
    let n = decompress_frame_block(&mut decompressor, &frame, &mut dst, input.len(), false).unwrap();
    assert_eq!(n, input.len());
    assert_eq!(dst, input);
}

#[test]
fn skip_checksums_flag_accepted() {
    let data = b"test data";
    let frame = compress_frame(data);
    let mut dec = FrameDecompressor::new();
    let mut dst = Vec::new();
    let result = decompress_frame_block(&mut dec, &frame, &mut dst, data.len(), true);
    assert!(result.is_ok());
}

#[test]
fn invalid_frame_returns_error() {
    let mut dec = FrameDecompressor::new();
    let mut dst = Vec::new();
    let result = decompress_frame_block(&mut dec, b"not valid lz4 data", &mut dst, 1024, false);
    assert!(result.is_err());
}

#[test]
fn dst_capacity_exceeded_returns_error() {
    let data = b"hello, capacity check!";
    let frame = compress_frame(data);
    let mut dec = FrameDecompressor::new();
    let mut dst = Vec::new();
    let result = decompress_frame_block(&mut dec, &frame, &mut dst, data.len() - 1, false);
    assert!(result.is_err());
    assert!(dst.is_empty());
}

const SAMPLE: &[u8] = b"hello world hello world hello world hello world \
      this is a test of lz4 block compression round-trip!";

fn lz4_decompress(compressed: &[u8], original_len: usize) -> Vec<u8> {
    let mut out = vec![0u8; original_len];
    let n = decompress_safe(compressed, &mut out).expect("decompress_safe failed");
    assert_eq!(n, original_len);
    out
}

#[test]
fn no_stream_fast_roundtrip() {
    let mut strategy = NoStreamFast::new(1);
    let mut dst = Vec::new();
    let n = strategy.compress_block(SAMPLE, &mut dst).unwrap();
    let recovered = lz4_decompress(&dst[..n], SAMPLE.len());
    assert_eq!(recovered.as_slice(), SAMPLE);
}

#[test]
fn no_stream_fast_negative_level_roundtrip() {
    let mut strategy = NoStreamFast::new(-5);
    assert_eq!(strategy.acceleration, 6);
    let mut dst = Vec::new();
    let n = strategy.compress_block(SAMPLE, &mut dst).unwrap();
    let recovered = lz4_decompress(&dst[..n], SAMPLE.len());
    assert_eq!(recovered.as_slice(), SAMPLE);
}

#[test]
fn stream_fast_no_dict_roundtrip() {
    let mut strategy = StreamFast::new(1, b"").unwrap();
    let mut dst = Vec::new();
    let n = strategy.compress_block(SAMPLE, &mut dst).unwrap();
    let recovered = lz4_decompress(&dst[..n], SAMPLE.len());
    assert_eq!(recovered.as_slice(), SAMPLE);
}

#[test]
fn stream_fast_with_dict_roundtrip() {
    let dict = b"hello world ";
    let mut strategy = StreamFast::new(1, dict).unwrap();
    let mut dst = Vec::new();
    let n = strategy.compress_block(SAMPLE, &mut dst).unwrap();
    assert!(n > 0);
}

#[test]
fn build_compression_parameters_selects_fast() {
    let mut s = build_compression_parameters(1, 65536, 65536).unwrap();
    assert!(matches!(s, BenchStrategy::NoStream(_)));
    let mut dst = Vec::new();
    let n = s.compress_block(SAMPLE, &mut dst).unwrap();
    let recovered = lz4_decompress(&dst[..n], SAMPLE.len());
    assert_eq!(recovered.as_slice(), SAMPLE);
}

#[test]
fn build_with_dict_selects_stream_fast() {
    let dict = b"hello world ";
    let mut s = build_compression_parameters_with_dict(1, dict).unwrap();
    assert!(matches!(s, BenchStrategy::Stream(_)));
    let mut dst = Vec::new();
    s.compress_block(SAMPLE, &mut dst).unwrap();
}

#[test]
fn block_params_hold_their_input() {
    let p = BlockParams::new(vec![1, 2, 3]);
    assert_eq!(p.src, vec![1, 2, 3]);
}

#[test]
fn stream_fast_block_decodes_against_its_dictionary() {
    let dict: Vec<u8> = b"a dictionary the sample shares words with: quick brown fox lazy dog ".repeat(4);
    let src: Vec<u8> = b"the quick brown fox jumps over the lazy dog; ".repeat(20);
    let mut strategy = StreamFast::new(1, &dict).unwrap();
    let mut dst = Vec::new();
    let n = strategy.compress_block(&src, &mut dst).unwrap();
    let mut out = vec![0u8; src.len()];
    let m = lz4::block::decompress::decompress_safe_using_dict(&dst[..n], &mut out, &dict).unwrap();
    assert_eq!(&out[..m], src.as_slice());
    // A second block is compressed against the same dictionary again.
    let mut dst2 = Vec::new();
    let n2 = strategy.compress_block(&src, &mut dst2).unwrap();
    let mut out2 = vec![0u8; src.len()];
    let m2 = lz4::block::decompress::decompress_safe_using_dict(&dst2[..n2], &mut out2, &dict).unwrap();
    assert_eq!(&out2[..m2], src.as_slice());
}

#[test]
fn no_stream_fast_very_fast_level_keeps_acceleration() {
    let mut strategy = NoStreamFast::new(-100000);
    assert_eq!(strategy.acceleration, 100001);
    let mut dst = Vec::new();
    let n = strategy.compress_block(SAMPLE, &mut dst).unwrap();
    let recovered = lz4_decompress(&dst[..n], SAMPLE.len());
    assert_eq!(recovered.as_slice(), SAMPLE);
}

#[test]
fn bench_loop_first_pass_counts() {
    let l = bench_loop_start(5 * MB, 1_000_000, 3, max_time_ns(3), false);
    assert_eq!(l.nb_loops, 6);
    assert_eq!(l.fastest_ns, u64::MAX);
    assert_eq!(l.limit_ns, 3_000_000_100);
    assert!(!l.completed);
    assert_eq!(bench_loop_start(5 * MB, 1_000_000, 0, 100, false).nb_loops, 1);
    assert!(bench_loop_start(5 * MB, 10, 3, 100, true).completed);
}

#[test]
fn bench_loop_aims_at_one_second() {
    let l = BenchLoop { fastest_ns: u64::MAX, nb_loops: 4, total_ns: 0, limit_ns: 1_000, completed: false };
    let n = bench_loop_next(l, 400);
    assert_eq!(n.fastest_ns, 100);
    assert_eq!(n.nb_loops, (TIMELOOP_NANOSEC / 100) as u32 + 1);
    assert_eq!(n.total_ns, 400);
    assert!(!n.completed);
    let m = bench_loop_next(n, 0);
    assert_eq!(m.nb_loops, n.nb_loops * 100);
    assert_eq!(m.fastest_ns, 100);
    let k = bench_loop_next(BenchLoop { nb_loops: 1, ..m }, 700);
    assert_eq!(k.fastest_ns, 100);
    assert!(k.completed);
}

#[test]
fn roundtrip_check_compares_hashes() {
    assert!(roundtrip_ok(b"same bytes", b"same bytes"));
    assert!(!roundtrip_ok(b"same bytes", b"same bytez"));
}
