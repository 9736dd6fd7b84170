use lz4::cli::args::{parse_args_from, ArgError, HelpRequest, ParsedArgs};
use lz4::cli::help::LZ4HC_CLEVEL_MAX;
use lz4::cli::init::detect_alias;
use lz4::cli::op_mode::OpMode;
use lz4::io::file_io::{NUL_MARK, STDIN_MARK, STDOUT_MARK};

fn make_args(args: &[&str]) -> Vec<String> {
    args.iter().map(|s| s.to_string()).collect()
}

fn parse(args: &[&str]) -> ParsedArgs {
    let init = detect_alias("lz4");
    parse_args_from(init, "lz4", &make_args(args)).expect("parse failed")
}

fn parse_err(args: &[&str]) -> ArgError {
    let init = detect_alias("lz4");
    parse_args_from(init, "lz4", &make_args(args)).expect_err("expected error")
}

// ── Compression level ────────────────────────────────────────────────────

#[test]
fn short_level_9() {
    let p = parse(&["-9"]);
    assert_eq!(p.c_level, 9);
}

#[test]
fn short_level_12() {
    let p = parse(&["-12"]);
    assert_eq!(p.c_level, 12);
}

#[test]
fn best_flag() {
    let p = parse(&["--best"]);
    assert_eq!(p.c_level, LZ4HC_CLEVEL_MAX);
}

#[test]
fn fast_default() {
    let p = parse(&["--fast"]);
    assert_eq!(p.c_level, -1);
}

#[test]
fn fast_equals_3() {
    let p = parse(&["--fast=3"]);
    assert_eq!(p.c_level, -3);
}

// ── Operation mode ───────────────────────────────────────────────────────

#[test]
fn compress_flag() {
    let p = parse(&["--compress"]);
    assert_eq!(p.op_mode, OpMode::Compress);
}

#[test]
fn short_compress_flag() {
    let p = parse(&["-z"]);
    assert_eq!(p.op_mode, OpMode::Compress);
}

#[test]
fn decompress_flag() {
    let p = parse(&["--decompress"]);
    assert_eq!(p.op_mode, OpMode::Decompress);
}

#[test]
fn uncompress_alias() {
    let p = parse(&["--uncompress"]);
    assert_eq!(p.op_mode, OpMode::Decompress);
}

#[test]
fn short_decompress_flag() {
    let p = parse(&["-d"]);
    assert_eq!(p.op_mode, OpMode::Decompress);
}

#[test]
fn test_mode() {
    let p = parse(&["--test"]);
    assert_eq!(p.op_mode, OpMode::Test);
}

#[test]
fn short_test_mode() {
    let p = parse(&["-t"]);
    assert_eq!(p.op_mode, OpMode::Test);
}

#[test]
fn list_mode() {
    let p = parse(&["--list"]);
    assert_eq!(p.op_mode, OpMode::List);
    assert!(p.multiple_inputs);
}

#[test]
fn bench_mode() {
    let p = parse(&["-b"]);
    assert_eq!(p.op_mode, OpMode::Bench);
    assert!(p.multiple_inputs);
}

// ── Aggregated short flags ────────────────────────────────────────────────

#[test]
fn aggregated_9fv() {
    // `-9fv` sets c_level=9, force_overwrite=true, displayLevel++
    let init = detect_alias("lz4");
    let lvl_before = init.display_level;
    let p = parse_args_from(init, "lz4", &make_args(&["-9fv"])).unwrap();
    assert_eq!(p.c_level, 9);
    assert!(p.force_overwrite);
    assert!(p.display_level > lvl_before);
}

// ── Block size ───────────────────────────────────────────────────────────

#[test]
fn block_size_id_4() {
    let p = parse(&["-B4"]);
    assert_eq!(p.prefs.block_size_id, 4);
}

#[test]
fn block_size_id_7() {
    let p = parse(&["-B7"]);
    assert_eq!(p.prefs.block_size_id, 7);
}

#[test]
fn block_linked() {
    let p = parse(&["-BD"]);
    assert!(!p.prefs.block_independence);
}

#[test]
fn block_independent() {
    let p = parse(&["-BI"]);
    assert!(p.prefs.block_independence);
}

#[test]
fn block_checksum() {
    let p = parse(&["-BX"]);
    assert!(p.prefs.block_checksum);
}

// ── Threads ──────────────────────────────────────────────────────────────

#[test]
fn threads_long_equals() {
    let p = parse(&["--threads=2"]);
    assert_eq!(p.nb_workers, 2);
}

#[test]
fn threads_long_space() {
    let p = parse(&["--threads", "2"]);
    assert_eq!(p.nb_workers, 2);
}

#[test]
fn threads_short_inline() {
    let p = parse(&["-T4"]);
    assert_eq!(p.nb_workers, 4);
}

// ── Dictionary ───────────────────────────────────────────────────────────

#[test]
fn dictionary_inline() {
    let p = parse(&["-Ddict.bin"]);
    assert_eq!(p.dictionary_filename.as_deref(), Some("dict.bin"));
}

#[test]
fn dictionary_separate() {
    let p = parse(&["-D", "dict.bin"]);
    assert_eq!(p.dictionary_filename.as_deref(), Some("dict.bin"));
}

// ── Non-option filenames ──────────────────────────────────────────────────

#[test]
fn input_file() {
    let p = parse(&["input.txt"]);
    assert_eq!(p.input_filename.as_deref(), Some("input.txt"));
}

#[test]
fn input_and_output() {
    let p = parse(&["input.txt", "output.lz4"]);
    assert_eq!(p.input_filename.as_deref(), Some("input.txt"));
    assert_eq!(p.output_filename.as_deref(), Some("output.lz4"));
}

#[test]
fn null_output_translated() {
    let p = parse(&["input.txt", "null"]);
    assert_eq!(p.output_filename.as_deref(), Some(NUL_MARK));
}

#[test]
fn stdin_dash() {
    let p = parse(&["-"]);
    assert_eq!(p.input_filename.as_deref(), Some(STDIN_MARK));
}

#[test]
fn multiple_inputs_flag() {
    let p = parse(&["-m", "a.txt", "b.txt"]);
    assert!(p.multiple_inputs);
    assert_eq!(p.in_file_names, vec!["a.txt", "b.txt"]);
}

// ── end-of-options `--` ───────────────────────────────────────────────────

#[test]
fn end_of_options_sentinel() {
    let p = parse(&["--", "-not-a-flag"]);
    assert_eq!(p.input_filename.as_deref(), Some("-not-a-flag"));
}

// ── Force / keep / quiet / verbose ───────────────────────────────────────

#[test]
fn force_flag() {
    let p = parse(&["--force"]);
    assert!(p.prefs.overwrite);
}

#[test]
fn keep_flag() {
    let p = parse(&["--keep"]);
    assert!(!p.prefs.remove_src_file);
}

#[test]
fn no_frame_crc() {
    let p = parse(&["--no-frame-crc"]);
    assert!(!p.prefs.stream_checksum);
    assert!(p.bench_config.skip_checksums);
}

#[test]
fn content_size() {
    let p = parse(&["--content-size"]);
    assert!(p.prefs.content_size_flag);
}

// ── Sparse ───────────────────────────────────────────────────────────────

#[test]
fn sparse_flag() {
    let p = parse(&["--sparse"]);
    assert_eq!(p.prefs.sparse_file_support, 2);
}

#[test]
fn no_sparse_flag() {
    let p = parse(&["--no-sparse"]);
    assert_eq!(p.prefs.sparse_file_support, 0);
}

// ── Version / help (exit_early) ───────────────────────────────────────────

#[test]
fn version_flag_exit_early() {
    let p = parse(&["--version"]);
    assert!(p.exit_early);
}

#[test]
fn short_version_flag_exit_early() {
    let p = parse(&["-V"]);
    assert!(p.exit_early);
}

#[test]
fn help_flag_exit_early() {
    let p = parse(&["--help"]);
    assert!(p.exit_early);
}

// ── Legacy mode ───────────────────────────────────────────────────────────

#[test]
fn legacy_c1_sets_level_9() {
    let init = detect_alias("lz4c");
    let p = parse_args_from(init, "lz4c", &make_args(&["-c1"])).unwrap();
    assert_eq!(p.c_level, 9);
}

#[test]
fn legacy_hc_sets_level_12() {
    let init = detect_alias("lz4c");
    let p = parse_args_from(init, "lz4c", &make_args(&["-hc"])).unwrap();
    assert_eq!(p.c_level, 12);
}

// ── Error cases ───────────────────────────────────────────────────────────

#[test]
fn unknown_long_option() {
    let e = parse_err(&["--unknown-option"]);
    assert!(e.to_string().contains("bad usage"));
}

#[test]
fn bad_block_size_under_4() {
    let e = parse_err(&["-B3"]);
    assert!(e.to_string().contains("bad usage"));
}

#[test]
fn fast_zero_level_is_error() {
    let e = parse_err(&["--fast=0"]);
    assert!(e.to_string().contains("bad usage"));
}

#[test]
fn no_arguments_keep_the_starting_state() {
    let p = parse(&[]);
    assert_eq!(p.op_mode, OpMode::Auto);
    assert_eq!(p.c_level, 1);
    assert_eq!(p.c_level_last, -10000);
    assert_eq!(p.block_size, 4194304);
    assert_eq!(p.prefs.block_size_id, 7);
    assert!(!p.prefs.overwrite);
    assert!(p.input_filename.is_none());
    assert!(p.output_filename.is_none());
    assert!(!p.exit_early);
    assert_eq!(p.help, HelpRequest::NoHelp);
    assert_eq!(p.exe_name, "lz4");
}

#[test]
fn error_messages_are_exact() {
    assert_eq!(parse_err(&["--unknown-option"]).to_string(), "bad usage: unknown option: --unknown-option");
    assert_eq!(parse_err(&["-B3"]).to_string(), "bad usage: block size ID must be >= 4");
    assert_eq!(parse_err(&["-B9"]).to_string(), "bad usage: block size must be >= 32 bytes when > 7");
    assert_eq!(parse_err(&["--fast=0"]).to_string(), "bad usage: --fast: level must be > 0");
    assert_eq!(parse_err(&["--fast=3x"]).to_string(), "bad usage: --fast: invalid argument");
    assert_eq!(parse_err(&["--fast="]).to_string(), "bad usage: --fast: expected a numeric level");
    assert_eq!(parse_err(&["--fastest"]).to_string(), "bad usage: --fast: unexpected characters after option");
    assert_eq!(parse_err(&["-x"]).to_string(), "bad usage: unrecognised option: -x");
    assert_eq!(parse_err(&["-e"]).to_string(), "bad usage: -e requires a numeric argument");
    assert_eq!(parse_err(&["-i"]).to_string(), "bad usage: -i requires a numeric argument");
    assert_eq!(parse_err(&["-T"]).to_string(), "bad usage: -T requires a numeric argument");
    assert_eq!(parse_err(&["-T", "x"]).to_string(), "bad usage: -T: expected numeric value");
    assert_eq!(parse_err(&["-Tx"]).to_string(), "bad usage: -T requires a numeric argument");
    assert_eq!(parse_err(&["-D"]).to_string(), "bad usage: -D requires a path argument");
    assert_eq!(parse_err(&["--threads=2x"]).to_string(), "bad usage: --threads: only numeric values are allowed");
    assert_eq!(parse_err(&["--threads=x"]).to_string(), "bad usage: lz4 expected numeric argument");
    assert_eq!(parse_err(&["--threads"]).to_string(), "bad usage: lz4: missing command argument");
    assert_eq!(parse_err(&["--threads", "-2"]).to_string(), "bad usage: lz4: option argument cannot be another option");
    assert_eq!(parse_err(&["--threads", "x"]).to_string(), "bad usage: lz4: expected numeric argument");
    assert_eq!(parse_err(&["--threads", "4x"]).to_string(), "bad usage: --threads: only numeric values are allowed");
    assert_eq!(parse_err(&["--threadsx"]).to_string(), "bad usage: lz4: unexpected text after option");
    assert_eq!(
        parse_err(&["a", "b", "c"]).to_string(),
        "Error: c won't be used ! Do you want multiple input files (-m) ?"
    );
}

#[test]
fn third_name_with_force_is_ignored() {
    let p = parse(&["-f", "a", "b", "c"]);
    assert_eq!(p.input_filename.as_deref(), Some("a"));
    assert_eq!(p.output_filename.as_deref(), Some("b"));
    assert_eq!(p.ignored_inputs, vec!["c"]);
}

#[test]
fn block_size_in_bytes_and_notices() {
    let p = parse(&["-B100000"]);
    assert_eq!(p.block_size, 100000);
    assert_eq!(p.prefs.block_size, 100000);
    assert_eq!(p.prefs.block_size_id, 5);
    assert_eq!(p.bench_config.block_size, 100000);
    assert_eq!(p.block_size_notices, vec![100000]);
    let q = parse(&["-B5DX"]);
    assert_eq!(q.block_size, 262144);
    assert!(!q.prefs.block_independence);
    assert!(q.prefs.block_checksum);
}

#[test]
fn dash_alone_then_output_dash() {
    let p = parse(&["-", "-"]);
    assert_eq!(p.input_filename.as_deref(), Some(STDIN_MARK));
    assert_eq!(p.output_filename.as_deref(), Some(STDOUT_MARK));
}

#[test]
fn long_help_letter_and_stop() {
    let p = parse(&["-H", "--unknown"]);
    assert!(p.exit_early);
    assert_eq!(p.help, HelpRequest::LongHelp);
    let q = parse(&["-vq", "-q"]);
    assert_eq!(q.display_level, 1);
}

#[test]
fn legacy_commands_need_lz4c() {
    let init = detect_alias("lz4c");
    let p = parse_args_from(init, "lz4c", &make_args(&["-c0y"])).unwrap();
    assert_eq!(p.c_level, 0);
    assert!(p.prefs.overwrite);
    // Without the legacy name, `-c0` is `-c` then level 0.
    let q = parse(&["-c0"]);
    assert_eq!(q.c_level, 0);
    assert!(q.force_stdout);
}

#[test]
fn level_range_threads_and_seconds() {
    let p = parse(&["-e5", "-T", "3", "-i7", "-l"]);
    assert_eq!(p.c_level_last, 5);
    assert_eq!(p.nb_workers, 3);
    assert_eq!(p.bench_config.nb_seconds, 7);
    assert!(p.legacy_format);
    assert_eq!(p.block_size, 8388608);
}

#[test]
fn help_stops_before_later_words() {
    // The word after `-h` would be refused, but parsing stops at the help.
    let p = parse(&["-h", "--no-such-option"]);
    assert!(p.exit_early);
    assert_eq!(p.help, HelpRequest::Usage);
    let p = parse(&["-Vz"]);
    assert!(p.exit_early);
    assert_eq!(p.help, HelpRequest::Version);
}

#[test]
fn first_refused_word_decides_the_error() {
    let e = parse_err(&["--nope", "-B3"]);
    assert_eq!(e.to_string(), "bad usage: unknown option: --nope");
    let e = parse_err(&["-B3", "--nope"]);
    assert_eq!(e.to_string(), "bad usage: block size ID must be >= 4");
    let e = parse_err(&["-B16"]);
    assert_eq!(e.to_string(), "bad usage: block size must be >= 32 bytes when > 7");
    let e = parse_err(&["-Q"]);
    assert_eq!(e.to_string(), "bad usage: unrecognised option: -Q");
}

#[test]
fn block_properties_chain_in_one_word() {
    let p = parse(&["-B5DX"]);
    assert_eq!(p.block_size, 262144);
    assert!(!p.prefs.block_independence);
    assert!(p.prefs.block_checksum);
    assert_eq!(p.block_size_notices, vec![262144]);
    assert_eq!(p.bench_config.block_size, 262144);
}
