use lz4::file::{lz4_read_frame, lz4_write_frame, Lz4ReadFile, Lz4WriteFile};

#[test]
fn round_trip_small() {
    let original = b"Hello, LZ4 world! This is a test of the lz4 file streaming API.";
    let compressed = lz4_write_frame(original, Vec::new()).unwrap();
    let mut recovered = Vec::new();
    lz4_read_frame(&compressed, &mut recovered).unwrap();
    assert_eq!(recovered, original);
}

#[test]
fn round_trip_multi_block() {
    let original: Vec<u8> = (0u8..=255).cycle().take(200 * 1024).collect();
    let compressed = lz4_write_frame(&original, Vec::new()).unwrap();
    let mut recovered = Vec::new();
    lz4_read_frame(&compressed, &mut recovered).unwrap();
    assert_eq!(recovered, original);
}

#[test]
fn streaming_write_read() {
    let original: Vec<u8> = b"streaming test data".iter().cycle().take(4096).cloned().collect();
    let mut lz4w = Lz4WriteFile::open(Vec::new(), None).unwrap();
    for chunk in original.chunks(256) {
        lz4w.write_all(chunk).unwrap();
    }
    let compressed = lz4w.finish().unwrap();
    let mut lz4r = Lz4ReadFile::open(&compressed).unwrap();
    let mut recovered = Vec::new();
    let mut tmp = [0u8; 512];
    loop {
        let n = lz4r.read(&mut tmp).unwrap();
        if n == 0 {
            break;
        }
        recovered.extend_from_slice(&tmp[..n]);
    }
    assert_eq!(recovered, original);
}

#[test]
fn round_trip_one_byte() {
    let original = b"x";
    let compressed = lz4_write_frame(original, Vec::new()).unwrap();
    let mut recovered = Vec::new();
    lz4_read_frame(&compressed, &mut recovered).unwrap();
    assert_eq!(recovered.as_slice(), original.as_ref());
}

#[test]
fn round_trip_empty() {
    let original: &[u8] = b"";
    let compressed = lz4_write_frame(original, Vec::new()).unwrap();
    let mut recovered = Vec::new();
    lz4_read_frame(&compressed, &mut recovered).unwrap();
    assert_eq!(recovered.as_slice(), original);
}

#[test]
fn test_write_read_4kb_roundtrip() {
    let original: Vec<u8> = b"LZ4 file test data! ".iter().cycle().take(4096).cloned().collect();
    let mut writer = Lz4WriteFile::open(Vec::new(), None).expect("failed to open writer");
    writer.write_all(&original).expect("failed to write data");
    let compressed = writer.finish().expect("failed to finish write");
    let mut reader = Lz4ReadFile::open(&compressed).expect("failed to open reader");
    let mut recovered = Vec::new();
    reader.read_to_end(&mut recovered).expect("failed to read data");
    assert_eq!(recovered, original, "roundtrip mismatch");
}

#[test]
fn test_write_read_empty_data() {
    let original: &[u8] = b"";
    let mut writer = Lz4WriteFile::open(Vec::new(), None).expect("failed to open writer for empty data");
    writer.write_all(original).expect("failed to write empty data");
    let compressed = writer.finish().expect("failed to finish write for empty data");
    let mut reader = Lz4ReadFile::open(&compressed).expect("failed to open reader for empty data");
    let mut recovered = Vec::new();
    reader.read_to_end(&mut recovered).expect("failed to read empty data");
    assert_eq!(recovered.as_slice(), original, "empty data roundtrip mismatch");
}

#[test]
fn test_write_multiple_chunks_read_back() {
    const CHUNK_SIZE: usize = 10 * 1024;
    const NUM_CHUNKS: usize = 10;
    let original: Vec<u8> = (0u8..=255).cycle().take(CHUNK_SIZE * NUM_CHUNKS).collect();
    let mut writer = Lz4WriteFile::open(Vec::new(), None).expect("failed to open writer for multi-chunk");
    for chunk in original.chunks(CHUNK_SIZE) {
        writer.write_all(chunk).expect("failed to write chunk");
    }
    let compressed = writer.finish().expect("failed to finish multi-chunk write");
    let mut reader = Lz4ReadFile::open(&compressed).expect("failed to open reader for multi-chunk");
    let mut recovered = Vec::new();
    reader.read_to_end(&mut recovered).expect("failed to read multi-chunk data");
    assert_eq!(recovered, original, "multi-chunk roundtrip mismatch");
}

#[test]
fn test_read_from_precompressed_frame() {
    let original = b"Pre-compressed test data using lz4_write_frame!".repeat(50);
    let compressed = lz4_write_frame(&original, Vec::new()).expect("failed to compress frame");
    let mut reader = Lz4ReadFile::open(&compressed).expect("failed to open reader for pre-compressed frame");
    let mut recovered = Vec::new();
    reader.read_to_end(&mut recovered).expect("failed to read pre-compressed frame");
    assert_eq!(recovered, original, "pre-compressed frame mismatch");
}

#[test]
fn test_read_with_small_buffer_loop() {
    const ORIGINAL_SIZE: usize = 50 * 1024;
    const READ_BUFFER_SIZE: usize = 4 * 1024;
    let original: Vec<u8> = b"Repeated data for multi-read test. ".iter().cycle().take(ORIGINAL_SIZE).cloned().collect();
    let compressed = lz4_write_frame(&original, Vec::new()).expect("failed to compress for multi-read test");
    let mut reader = Lz4ReadFile::open(&compressed).expect("failed to open reader for multi-read test");
    let mut recovered = Vec::new();
    let mut buffer = [0u8; READ_BUFFER_SIZE];
    loop {
        let n = reader.read(&mut buffer).expect("read failed during multi-read loop");
        if n == 0 {
            break;
        }
        recovered.extend_from_slice(&buffer[..n]);
    }
    assert_eq!(recovered, original, "multi-read loop mismatch");
}

#[test]
fn test_convenience_functions_roundtrip() {
    let original = b"One-shot convenience API test.".repeat(200);
    let compressed = lz4_write_frame(&original, Vec::new()).expect("lz4_write_frame failed");
    let mut recovered = Vec::new();
    lz4_read_frame(&compressed, &mut recovered).expect("lz4_read_frame failed");
    assert_eq!(recovered, original, "convenience functions roundtrip mismatch");
}

#[test]
fn writer_appends_after_existing_bytes() {
    let prefix = vec![1u8, 2, 3];
    let out = lz4_write_frame(b"abc", prefix).unwrap();
    assert_eq!(&out[..3], &[1u8, 2, 3]);
    let mut recovered = Vec::new();
    lz4_read_frame(&out[3..], &mut recovered).unwrap();
    assert_eq!(recovered, b"abc");
}

#[test]
fn reader_refuses_empty_input() {
    assert!(Lz4ReadFile::open(&[]).is_err());
}
