use lz4::block::compress::{compress_fast_ext_state, compress_fast_ext_state_fast_reset};
use lz4::block::types::StreamStateInternal;
use lz4::block::compress::{compress_bound, compress_default, compress_dest_size, compress_fast};
use lz4::block::decompress::{
    decompress_safe, decompress_safe_partial, decompress_safe_using_dict, Lz4StreamDecode,
    decompress_safe_continue,
};
use lz4::block::stream::Lz4Stream;
use lz4::frame::compress::lz4f_compress_frame;
use lz4::frame::decompress::{lz4f_decompress, Lz4FDCtx};
use lz4::frame::header::{parse_header, write_header};
use lz4::frame::types::{
    default_frame_info, default_preferences, BlockMode, BlockSizeId, Lz4FError, LZ4F_VERSION,
};

use lz4::bench::bench_mem::{bench_block_size, split_blocks};
use lz4::bench::runner::bench_level_range;
use lz4::file::{lz4_read_frame, Lz4WriteFile};
use lz4::file::{lz4_write_frame, Lz4ReadFile};
use lz4::frame::compress::lz4f_compress_frame_bound;
use lz4::frame::compress::{
    lz4f_compress_begin, lz4f_compress_bound, lz4f_compress_end, lz4f_compress_update,
    lz4f_create_compression_context,
};
use lz4::frame::decompress::lz4f_decompress_into;
use lz4::frame::types::DecompressOptions;

fn samples() -> Vec<Vec<u8>> {
    vec![
        Vec::new(),
        b"a".to_vec(),
        b"abcabcabcabcabcabcabcabc".to_vec(),
        (0u8..=255).cycle().take(70_000).collect(),
        b"The quick brown fox jumps over the lazy dog. ".repeat(300),
        (0u32..5000).map(|i| (i.wrapping_mul(2654435761) >> 13) as u8).collect(),
    ]
}

#[test]
fn block_round_trip_on_samples() {
    for s in samples() {
        for accel in [1, 2, 17, 65537] {
            let mut dst = vec![0u8; compress_bound(s.len() as i32) as usize];
            let n = compress_fast(&s, &mut dst, accel).unwrap();
            assert!(n <= compress_bound(s.len() as i32) as usize);
            let mut out = vec![0u8; s.len()];
            assert_eq!(decompress_safe(&dst[..n], &mut out), Ok(s.len()));
            assert_eq!(out, s);
        }
    }
}

#[test]
fn compress_bound_exact_values() {
    assert_eq!(compress_bound(0), 16);
    assert_eq!(compress_bound(255), 255 + 1 + 16);
    assert_eq!(compress_bound(1000), 1000 + 3 + 16);
    assert_eq!(compress_bound(-1), 0);
    assert_eq!(compress_bound(0x7E00_0001), 0);
}

#[test]
fn empty_input_gives_one_byte_block() {
    let mut dst = vec![0u8; 16];
    assert_eq!(compress_default(&[], &mut dst), Ok(1));
    assert_eq!(dst[0], 0);
}

#[test]
fn dest_size_round_trip() {
    let s: Vec<u8> = (0u8..=255).cycle().take(10_000).collect();
    for cap in [1usize, 13, 64, 300, 20_000] {
        let mut dst = vec![0u8; cap];
        let (consumed, written) = compress_dest_size(&s, &mut dst).unwrap();
        assert!(written <= cap);
        let mut out = vec![0u8; consumed];
        assert_eq!(decompress_safe(&dst[..written], &mut out), Ok(consumed));
        assert_eq!(&out[..], &s[..consumed]);
    }
}

#[test]
fn partial_decode_gives_a_prefix() {
    let s = b"0123456789".repeat(15);
    let mut dst = vec![0u8; compress_bound(s.len() as i32) as usize];
    let n = compress_default(&s, &mut dst).unwrap();
    for target in [0usize, 1, 7, 50, 149, 150, 151] {
        let mut out = vec![0u8; 200];
        let k = decompress_safe_partial(&dst[..n], &mut out, target).unwrap();
        assert_eq!(k, target.min(s.len()));
        assert_eq!(&out[..k], &s[..k]);
    }
}

#[test]
fn streaming_chain_decodes_with_history() {
    let text = b"Lorem ipsum dolor sit amet, consectetur adipiscing elit. ".repeat(100);
    let mut enc = Lz4Stream::new();
    let mut dec = Lz4StreamDecode::new();
    let mut all = Vec::new();
    for chunk in text.chunks(700) {
        let mut c = vec![0u8; compress_bound(chunk.len() as i32) as usize];
        let n = enc.compress_fast_continue(chunk, &mut c, 1);
        assert!(n > 0);
        let mut out = vec![0u8; chunk.len()];
        let k = decompress_safe_continue(&mut dec, &c[..n as usize], &mut out).unwrap();
        assert_eq!(k, chunk.len());
        all.extend_from_slice(&out);
    }
    assert_eq!(all, text);
}

#[test]
fn dictionary_block_decodes_with_longer_dictionary() {
    let dict = b"Common prefix data that appears in many messages. ".repeat(3);
    let src = b"Common prefix data that appears in many messages. The end.";
    let mut enc = Lz4Stream::new();
    assert!(enc.load_dict(&dict) > 0);
    let mut c = vec![0u8; compress_bound(src.len() as i32) as usize];
    let n = enc.compress_fast_continue(src, &mut c, 1) as usize;
    let mut longer = b"some earlier bytes ".to_vec();
    longer.extend_from_slice(&dict);
    let mut out = vec![0u8; src.len()];
    assert_eq!(decompress_safe_using_dict(&c[..n], &mut out, &longer), Ok(src.len()));
    assert_eq!(&out[..], &src[..]);
}

#[test]
fn compress_fast_continue_large_block_with_attached_dict_ctx() {
    let dict_data: Vec<u8> = (0u8..=255).cycle().take(64 * 1024).collect();
    let mut dict_stream = Lz4Stream::new();
    dict_stream.load_dict(&dict_data);
    let mut working_stream = Lz4Stream::new();
    working_stream.attach_dictionary(Some(&dict_stream));
    let src: Vec<u8> = (0u8..=127).cycle().take(8 * 1024).collect();
    let bound = compress_bound(src.len() as i32).max(0) as usize;
    let mut dst = vec![0u8; bound.max(src.len() + 64)];
    let n = working_stream.compress_fast_continue(&src, &mut dst, 1);
    assert!(n >= 0);
    let mut out = vec![0u8; src.len()];
    assert_eq!(decompress_safe_using_dict(&dst[..n as usize], &mut out, &dict_data), Ok(src.len()));
    assert_eq!(out, src);
}

#[test]
fn header_round_trip() {
    let mut info = default_frame_info();
    info.block_size_id = BlockSizeId::Max256Kb;
    info.block_mode = BlockMode::Independent;
    info.content_checksum = true;
    info.content_size = 123456;
    info.dict_id = 7;
    let h = write_header(&info);
    let (back, len) = parse_header(&h).unwrap();
    assert_eq!(len, h.len());
    assert_eq!(back, info);
}

#[test]
fn frame_checksum_detects_a_flipped_byte() {
    let data = b"checksummed frame content ".repeat(40);
    let mut prefs = default_preferences();
    prefs.frame_info.content_checksum = true;
    prefs.frame_info.block_checksum = true;
    let mut buf = vec![0u8; 4096];
    let n = lz4f_compress_frame(&mut buf, &data, Some(&prefs)).unwrap();
    let frame = &buf[..n];

    let mut dctx = Lz4FDCtx::new(LZ4F_VERSION);
    let mut out = vec![0u8; data.len()];
    let (consumed, written, hint) = lz4f_decompress(&mut dctx, Some(&mut out), frame, None).unwrap();
    assert_eq!((consumed, written, hint), (n, data.len(), 0));
    assert_eq!(out, data);

    let mut bad = frame.to_vec();
    let last = bad.len() - 1;
    bad[last] ^= 1;
    let mut dctx2 = Lz4FDCtx::new(LZ4F_VERSION);
    let mut out2 = vec![0u8; data.len()];
    assert_eq!(
        lz4f_decompress(&mut dctx2, Some(&mut out2), &bad, None),
        Err(Lz4FError::ContentChecksumInvalid)
    );
}

#[test]
fn header_checksum_uses_xxh32() {
    // Default header: magic, FLG 0x40 (version 1, linked blocks), BD 0x40
    // (64 KiB), then the second byte of the xxh32 of FLG and BD.
    let h = write_header(&default_frame_info());
    assert_eq!(h, vec![0x04, 0x22, 0x4D, 0x18, 0x40, 0x40, 0xC0]);
}

#[test]
fn frame_followed_by_more_data_reads_the_frame() {
    let data = b"first frame content ".repeat(10);
    let bound = lz4f_compress_frame_bound(data.len(), None);
    let mut buf = vec![0u8; bound];
    let n = lz4f_compress_frame(&mut buf, &data, None).unwrap();
    let mut stream = buf[..n].to_vec();
    stream.extend_from_slice(b"trailing bytes");
    let mut dctx = Lz4FDCtx::new(LZ4F_VERSION);
    let mut out = Vec::new();
    let (consumed, hint) = lz4f_decompress_into(&mut dctx, &stream, &mut out, None).unwrap();
    assert_eq!((consumed, hint), (n, 0));
    assert_eq!(out, data);
}

#[test]
fn frame_bound_is_enough_and_exact() {
    // 100 bytes: one 64 KiB block, 19 + 4 + 100 + 4 + 4 (content checksum off by default: 0).
    assert_eq!(lz4f_compress_frame_bound(100, None), 19 + 4 + 100 + 4);
    assert_eq!(lz4f_compress_frame_bound(0, None), 19 + 4);
    let incompressible: Vec<u8> = (0u32..70_000).map(|i| (i.wrapping_mul(2654435761) >> 7) as u8).collect();
    let bound = lz4f_compress_frame_bound(incompressible.len(), None);
    let mut buf = vec![0u8; bound];
    let n = lz4f_compress_frame(&mut buf, &incompressible, None).unwrap();
    assert!(n <= bound);
    let mut small = vec![0u8; 10];
    assert_eq!(lz4f_compress_frame(&mut small, &incompressible, None), Err(Lz4FError::DstMaxSizeTooSmall));
}

#[test]
fn skipped_checksums_read_the_same_valid_frame() {
    let data = b"checksums on, skipped on reading ".repeat(5);
    let mut prefs = default_preferences();
    prefs.frame_info.content_checksum = true;
    let mut buf = vec![0u8; 1024];
    let n = lz4f_compress_frame(&mut buf, &data, Some(&prefs)).unwrap();
    let opts = DecompressOptions { stable_dst: true, skip_checksums: true };
    let mut dctx = Lz4FDCtx::new(LZ4F_VERSION);
    let mut out = Vec::new();
    assert_eq!(lz4f_decompress_into(&mut dctx, &buf[..n], &mut out, Some(&opts)), Ok((n, 0)));
    assert_eq!(out, data);
}

#[test]
fn streaming_frame_writer_round_trip_with_linked_blocks() {
    let mut prefs = default_preferences();
    prefs.frame_info.block_mode = BlockMode::Linked;
    prefs.frame_info.block_checksum = true;
    prefs.frame_info.content_checksum = true;
    let data: Vec<u8> = b"linked blocks refer back to earlier ones. ".iter().cycle().take(300_000).cloned().collect();
    let mut w = Lz4WriteFile::open(Vec::new(), Some(&prefs)).unwrap();
    for piece in data.chunks(7_777) {
        w.write_all(piece).unwrap();
    }
    let frame = w.finish().unwrap();
    assert!(frame.len() < data.len() / 10);
    let mut out = Vec::new();
    lz4_read_frame(&frame, &mut out).unwrap();
    assert_eq!(out, data);
}

#[test]
fn error_names() {
    assert_eq!(Lz4FError::DstMaxSizeTooSmall.name(), "ERROR_dstMaxSize_tooSmall");
    assert_eq!(Lz4FError::OkNoError.name(), "OK_NoError");
}

#[test]
fn bench_blocks_cut_each_file() {
    assert_eq!(split_blocks(&[10, 3], 13, 4), vec![(0, 4), (4, 4), (8, 2), (10, 3)]);
    assert_eq!(split_blocks(&[], 9, 4), vec![(0, 4), (4, 4), (8, 1)]);
    assert_eq!(split_blocks(&[], 0, 1), vec![(0, 0)]);
    assert_eq!(split_blocks(&[0, 0], 0, 5), vec![(0, 0)]);
    assert_eq!(bench_block_size(64, false, 1000), 64);
    assert_eq!(bench_block_size(16, false, 1000), 1000);
    assert_eq!(bench_block_size(64, true, 1000), 1000);
    assert_eq!(bench_block_size(64, true, 0), 1);
    assert_eq!(bench_level_range(1, 3, false), (1, 3));
    assert_eq!(bench_level_range(5, 2, false), (5, 5));
    assert_eq!(bench_level_range(20, 30, false), (12, 12));
    assert_eq!(bench_level_range(1, 9, true), (1, 1));
}

#[test]
fn reader_reads_in_pieces() {
    let data = b"0123456789".to_vec();
    let frame = lz4_write_frame(&data, Vec::new()).unwrap();
    let mut r = Lz4ReadFile::open(&frame).unwrap();
    let mut buf = [0u8; 4];
    assert_eq!(r.read(&mut buf), Ok(4));
    assert_eq!(&buf, b"0123");
    assert_eq!(r.read(&mut buf), Ok(4));
    assert_eq!(r.read(&mut buf), Ok(2));
    assert_eq!(&buf[..2], b"89");
    assert_eq!(r.read(&mut buf), Ok(0));
}

#[test]
fn frame_decompress_into_a_buffer_writes_the_content() {
    let data = b"content written straight into the caller's buffer ".repeat(40);
    let mut buf = vec![0u8; 4096];
    let n = lz4f_compress_frame(&mut buf, &data, None).unwrap();
    let mut dctx = Lz4FDCtx::new(LZ4F_VERSION);
    let mut out = vec![0xAAu8; data.len() + 10];
    let r = lz4f_decompress(&mut dctx, Some(&mut out[..]), &buf[..n], None).unwrap();
    assert_eq!(r, (n, data.len(), 0));
    assert_eq!(&out[..data.len()], data.as_slice());
    assert_eq!(&out[data.len()..], &[0xAAu8; 10]);
}

#[test]
fn streaming_frame_compression_with_bounded_buffers() {
    let data = b"pieces of a frame, compressed as they come. ".repeat(3000);
    let mut cctx = lz4f_create_compression_context(LZ4F_VERSION).unwrap();
    let mut frame = Vec::new();
    let mut head = [0u8; 19];
    let h = lz4f_compress_begin(&mut cctx, &mut head, None).unwrap();
    frame.extend_from_slice(&head[..h]);
    for piece in data.chunks(10_000) {
        // Too small a buffer is refused before anything is taken.
        let mut small = vec![0u8; 16];
        assert_eq!(lz4f_compress_update(&mut cctx, &mut small, piece), Err(Lz4FError::DstMaxSizeTooSmall));
        let mut out = vec![0u8; lz4f_compress_bound(piece.len(), None)];
        let n = lz4f_compress_update(&mut cctx, &mut out, piece).unwrap();
        frame.extend_from_slice(&out[..n]);
    }
    let mut tail = vec![0u8; lz4f_compress_bound(0, None)];
    let n = lz4f_compress_end(&mut cctx, &mut tail).unwrap();
    frame.extend_from_slice(&tail[..n]);
    let mut dctx = Lz4FDCtx::new(LZ4F_VERSION);
    let mut out = Vec::new();
    let (consumed, hint) = lz4f_decompress_into(&mut dctx, &frame, &mut out, None).unwrap();
    assert_eq!((consumed, hint), (frame.len(), 0));
    assert_eq!(out, data);
    // Without a frame begun, both refuse.
    let mut buf = vec![0u8; 1024];
    assert_eq!(lz4f_compress_update(&mut cctx, &mut buf, b"x"), Err(Lz4FError::CompressionStateUninitialized));
    assert_eq!(lz4f_compress_end(&mut cctx, &mut buf), Err(Lz4FError::CompressionStateUninitialized));
}

#[test]
fn single_byte_block_is_exact() {
    let mut dst = [0u8; 100];
    let n = compress_default(b"X", &mut dst).unwrap();
    assert_eq!(n, 2);
    assert_eq!(&dst[..2], &[0x10, 0x58]);
}

#[test]
fn compression_is_deterministic_and_clamps_acceleration() {
    let data: Vec<u8> = (0..5000u32).map(|i| ((i * 7) % 61) as u8).collect();
    let mut a = vec![0u8; compress_bound(data.len() as i32) as usize];
    let mut b = vec![0u8; a.len()];
    let mut c = vec![0u8; a.len()];
    let na = compress_fast(&data, &mut a, 0).unwrap();
    let nb = compress_fast(&data, &mut b, 1).unwrap();
    let nc = compress_fast(&data, &mut c, -5).unwrap();
    assert_eq!(na, nb);
    assert_eq!(nb, nc);
    assert_eq!(a, b);
    assert_eq!(b, c);
    assert!(na < data.len());
    let mut d = vec![0u8; a.len()];
    let mut e = vec![0u8; a.len()];
    let nd = compress_fast(&data, &mut d, 65537).unwrap();
    let ne = compress_fast(&data, &mut e, 1_000_000).unwrap();
    assert_eq!(nd, ne);
    assert_eq!(d, e);
}

#[test]
fn unknown_magic_is_refused() {
    let bad = [0x01u8, 0x02, 0x03, 0x04, 0, 0, 0, 0];
    let mut dctx = Lz4FDCtx::new(LZ4F_VERSION);
    let mut out = [0u8; 16];
    let r = lz4f_decompress(&mut dctx, Some(&mut out[..]), &bad, None);
    assert_eq!(r.err(), Some(Lz4FError::FrameTypeUnknown));
    let mut dctx2 = Lz4FDCtx::new(LZ4F_VERSION);
    let mut v = Vec::new();
    assert_eq!(lz4f_decompress_into(&mut dctx2, &bad, &mut v, None).err(), Some(Lz4FError::FrameTypeUnknown));
    assert!(matches!(Lz4ReadFile::open(&bad), Err(Lz4FError::FrameTypeUnknown)));
    let mut w = Vec::new();
    assert_eq!(lz4_read_frame(&bad, &mut w), Err(Lz4FError::FrameTypeUnknown));
}

#[test]
fn stream_reset_compresses_like_a_fresh_stream() {
    let m1 = b"first message first message first message".to_vec();
    let m2 = b"second message, second message, second message".to_vec();
    let cap = compress_bound(m2.len() as i32) as usize;
    let mut s = Lz4Stream::new();
    let mut tmp = vec![0u8; compress_bound(m1.len() as i32) as usize];
    assert!(s.compress_fast_continue(&m1, &mut tmp, 1) > 0);
    s.reset();
    let mut a = vec![0u8; cap];
    let na = s.compress_fast_continue(&m2, &mut a, 1);
    let mut f = Lz4Stream::new();
    let mut b = vec![0u8; cap];
    let nb = f.compress_fast_continue(&m2, &mut b, 1);
    assert!(na > 0);
    assert_eq!(na, nb);
    assert_eq!(a, b);
    let mut out = vec![0u8; m2.len()];
    let k = decompress_safe(&a[..na as usize], &mut out).unwrap();
    assert_eq!(&out[..k], &m2[..]);
}

#[test]
fn corrupt_header_checksum_is_refused() {
    let data = b"a frame whose header checksum byte gets flipped".to_vec();
    let mut buf = vec![0u8; 1024];
    let n = lz4f_compress_frame(&mut buf, &data, None).unwrap();
    let mut bad = buf[..n].to_vec();
    bad[6] ^= 0x5A;
    let mut dctx = Lz4FDCtx::new(LZ4F_VERSION);
    let mut out = vec![0u8; data.len()];
    let r = lz4f_decompress(&mut dctx, Some(&mut out), &bad, None);
    assert_eq!(r.err(), Some(Lz4FError::HeaderChecksumInvalid));
    assert!(Lz4ReadFile::open(&bad).is_err());
}

#[test]
fn bytes_past_the_block_are_left_alone() {
    let data = b"tail bytes stay as they were, tail bytes stay as they were".to_vec();
    let cap = compress_bound(data.len() as i32) as usize;
    let mut dst = vec![0xAAu8; cap + 10];
    let n = compress_default(&data, &mut dst).unwrap();
    assert!(dst[n..].iter().all(|&b| b == 0xAA));
    let mut small = vec![0x55u8; n + 20];
    if let Ok(m) = compress_default(&data, &mut small) {
        assert_eq!(&small[..m], &dst[..n]);
        assert!(small[m..].iter().all(|&b| b == 0x55));
    }
}

#[test]
fn fast_reset_matches_fresh_state_compression() {
    let data: Vec<u8> = (0..3000u32).map(|i| ((i * 13) % 37) as u8).collect();
    let cap = compress_bound(data.len() as i32) as usize;
    for len in [cap, cap / 2, 40, 1] {
        let mut s1 = StreamStateInternal::new();
        let mut s2 = StreamStateInternal::new();
        let mut d1 = vec![7u8; len];
        let mut d2 = vec![7u8; len];
        let r1 = compress_fast_ext_state(&mut s1, &data, &mut d1, 1);
        let r2 = compress_fast_ext_state_fast_reset(&mut s2, &data, &mut d2, 1);
        assert_eq!(r1, r2);
        if let Ok(n) = r1 {
            assert_eq!(&d1[..n], &d2[..n]);
            assert_eq!(&d1[n..], &d2[n..]);
            assert_eq!(s1.hash_table, s2.hash_table);
            assert_eq!(s1.current_offset, s2.current_offset);
        }
    }
}

#[test]
fn frame_fed_in_two_pieces_completes() {
    let data = b"a frame whose bytes arrive in two pieces ".repeat(50);
    let mut buf = vec![0u8; 8192];
    let n = lz4f_compress_frame(&mut buf, &data, None).unwrap();
    let frame = &buf[..n];
    let cut = n / 2;
    let mut dctx = Lz4FDCtx::new(LZ4F_VERSION);
    let mut out1 = vec![0u8; data.len()];
    let (c1, w1, h1) = lz4f_decompress(&mut dctx, Some(&mut out1), &frame[..cut], None).unwrap();
    assert_eq!(c1, cut);
    assert!(h1 > 0);
    let mut out2 = vec![0u8; data.len()];
    let (c2, w2, h2) = lz4f_decompress(&mut dctx, Some(&mut out2), &frame[cut..], None).unwrap();
    assert_eq!(c2, n - cut);
    assert_eq!(h2, 0);
    let mut all = out1[..w1].to_vec();
    all.extend_from_slice(&out2[..w2]);
    assert_eq!(all, data);
}

#[test]
fn frame_fed_in_small_pieces_gives_its_content() {
    let data = b"small pieces of a frame, small pieces of a frame; ".repeat(30);
    let mut buf = vec![0u8; 8192];
    let n = lz4f_compress_frame(&mut buf, &data, None).unwrap();
    let frame = &buf[..n];
    let mut dctx = Lz4FDCtx::new(LZ4F_VERSION);
    let mut all = Vec::new();
    let mut last_hint = 1;
    let mut pos = 0;
    while pos < n {
        let end = if pos + 7 < n { pos + 7 } else { n };
        let mut out = vec![0u8; data.len()];
        let (c, w, h) = lz4f_decompress(&mut dctx, Some(&mut out), &frame[pos..end], None).unwrap();
        assert_eq!(c, end - pos);
        all.extend_from_slice(&out[..w]);
        last_hint = h;
        pos = end;
    }
    assert_eq!(last_hint, 0);
    assert_eq!(all, data);
}

#[test]
fn dest_size_fill_takes_a_prefix_that_fits() {
    let s = b"abcabcabcabc-the quick brown fox-".repeat(300);
    let mut dst = vec![0u8; 64];
    let (consumed, written) = compress_dest_size(&s, &mut dst).unwrap();
    assert!(consumed > 64, "a repetitive input compresses well past its output size");
    assert!(consumed < s.len());
    assert!(written <= 64 && written > 0);
    let mut again = vec![0u8; 64];
    assert_eq!(compress_dest_size(&s, &mut again), Ok((consumed, written)));
    assert_eq!(&again[..written], &dst[..written]);
    let mut big = vec![0u8; compress_bound(s.len() as i32) as usize];
    let full = compress_default(&s, &mut big).unwrap();
    let mut dst2 = vec![0u8; big.len()];
    assert_eq!(compress_dest_size(&s, &mut dst2), Ok((s.len(), full)));
    assert_eq!(&dst2[..full], &big[..full]);
}

#[test]
fn header_in_pieces_waits_then_decodes() {
    let data = b"header arrives first in pieces".to_vec();
    let mut buf = vec![0u8; 1024];
    let n = lz4f_compress_frame(&mut buf, &data, None).unwrap();
    let mut dctx = Lz4FDCtx::new(LZ4F_VERSION);
    let mut out = vec![0u8; 256];
    let (c, w, h) = lz4f_decompress(&mut dctx, Some(&mut out), &buf[..3], None).unwrap();
    assert_eq!((c, w), (3, 0));
    assert!(h >= 1);
    let (c, w, h) = lz4f_decompress(&mut dctx, Some(&mut out), &buf[3..n], None).unwrap();
    assert_eq!((c, w, h), (n - 3, data.len(), 0));
    assert_eq!(&out[..w], &data[..]);
}
