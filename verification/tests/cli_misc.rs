use lz4::io::file_io::{LEGACY_MAGICNUMBER, LZ4IO_MAGICNUMBER};
use lz4::cli::constants::{COMPRESSOR_NAME, GB, KB, LZ4_EXTENSION, MB};
use lz4::cli::help::{LZ4HC_CLEVEL_MAX, LZ4_BLOCKSIZEID_DEFAULT, NULL_OUTPUT, STDINMARK, STDOUTMARK};
use lz4::cli::op_mode::{determine_op_mode, init_c_level_from, init_nb_workers_from, OpMode, LZ4_CLEVEL_DEFAULT, LZ4_NBWORKERS_DEFAULT};
use lz4::io::prefs::{BlockMode, Prefs};

#[test]
fn extension_constant() {
    assert_eq!(LZ4_EXTENSION, ".lz4");
}

#[test]
fn compressor_name_constant() {
    assert_eq!(COMPRESSOR_NAME, "lz4");
}

#[test]
fn size_constants() {
    assert_eq!(KB, 1024);
    assert_eq!(MB, 1024 * 1024);
    assert_eq!(GB, 1024 * 1024 * 1024);
}

#[test]
fn constants_are_sensible() {
    assert_eq!(LZ4HC_CLEVEL_MAX, 12);
    assert_eq!(LZ4_BLOCKSIZEID_DEFAULT, 7);
    assert_eq!(STDINMARK, "stdin");
    assert_eq!(STDOUTMARK, "stdout");
    assert_eq!(NULL_OUTPUT, "null");
}

#[test]
fn op_mode_has_six_variants() {
    let variants = [
        OpMode::Auto,
        OpMode::Compress,
        OpMode::Decompress,
        OpMode::Test,
        OpMode::Bench,
        OpMode::List,
    ];
    assert_eq!(variants.len(), 6);
}

#[test]
fn determine_op_mode_lz4_extension_decompresses() {
    assert_eq!(determine_op_mode("foo.lz4"), OpMode::Decompress);
}

#[test]
fn determine_op_mode_other_extension_compresses() {
    assert_eq!(determine_op_mode("foo.txt"), OpMode::Compress);
}

#[test]
fn determine_op_mode_no_extension_compresses() {
    assert_eq!(determine_op_mode("archive"), OpMode::Compress);
}

#[test]
fn determine_op_mode_dotlz4_only_decompresses() {
    assert_eq!(determine_op_mode(".lz4"), OpMode::Decompress);
}

#[test]
fn init_nb_workers_from_values() {
    assert_eq!(init_nb_workers_from(Some("2")), 2);
    assert_eq!(init_nb_workers_from(None), LZ4_NBWORKERS_DEFAULT);
    assert_eq!(init_nb_workers_from(Some("auto")), LZ4_NBWORKERS_DEFAULT);
    assert_eq!(init_nb_workers_from(Some("2K")), 2048);
}

#[test]
fn init_c_level_from_values() {
    assert_eq!(init_c_level_from(Some("9")), 9);
    assert_eq!(init_c_level_from(None), LZ4_CLEVEL_DEFAULT);
    assert_eq!(init_c_level_from(Some("fast")), LZ4_CLEVEL_DEFAULT);
    // The value wraps into the signed range as a cast does.
    assert_eq!(init_c_level_from(Some("4294967295")), -1);
}

#[test]
fn prefs_block_size_by_id_and_by_bytes() {
    let mut p = Prefs::default();
    assert_eq!(p.block_size, 0);
    assert_eq!(p.set_block_size_id(4), 65536);
    assert_eq!(p.block_size_id, 4);
    assert_eq!(p.set_block_size_id(8), 0);
    assert_eq!(p.block_size_id, 4);
    assert_eq!(p.set_block_size(1), 32);
    assert_eq!(p.block_size_id, 4);
    assert_eq!(p.set_block_size(65536), 65536);
    assert_eq!(p.block_size_id, 4);
    assert_eq!(p.set_block_size(65537), 65537);
    assert_eq!(p.block_size_id, 5);
    assert_eq!(p.set_block_size(1048576), 1048576);
    assert_eq!(p.block_size_id, 6);
    assert_eq!(p.set_block_size(100_000_000), 4194304);
    assert_eq!(p.block_size_id, 7);
}

#[test]
fn prefs_defaults_and_setters() {
    let mut p = Prefs::default();
    assert!(p.overwrite);
    assert!(p.stream_checksum);
    assert!(p.block_independence);
    assert_eq!(p.sparse_file_support, 1);
    p.set_block_mode(BlockMode::Linked);
    assert!(!p.block_independence);
    p.set_block_mode(BlockMode::Independent);
    assert!(p.block_independence);
    p.set_content_size(true);
    assert!(p.content_size_flag);
    p.favor_dec_speed(true);
    assert!(p.favor_dec_speed);
}

#[test]
fn test_magic_number_constants() {
    assert_eq!(LZ4IO_MAGICNUMBER, 0x184D2204_u32);
    assert_eq!(LEGACY_MAGICNUMBER, 0x184C2102_u32);
    assert_eq!(LZ4IO_MAGICNUMBER, lz4::frame::types::LZ4F_MAGICNUMBER);
}
