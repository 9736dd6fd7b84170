use lz4::cli::init::{detect_alias, detect_alias_with_env};
use lz4::cli::op_mode::OpMode;
use lz4::io::file_io::STDOUT_MARK;

// ── lz4cat alias ────────────────────────────────────────────────────────

#[test]
fn lz4cat_sets_decompress_mode() {
    let init = detect_alias("lz4cat");
    assert_eq!(init.op_mode, OpMode::Decompress);
}

#[test]
fn lz4cat_sets_multiple_inputs() {
    let init = detect_alias("lz4cat");
    assert!(init.multiple_inputs);
}

#[test]
fn lz4cat_sets_force_stdout() {
    let init = detect_alias("lz4cat");
    assert!(init.force_stdout);
}

#[test]
fn lz4cat_sets_output_filename_to_stdout_mark() {
    let init = detect_alias("lz4cat");
    assert_eq!(init.output_filename.as_deref(), Some(STDOUT_MARK));
}

#[test]
fn lz4cat_sets_display_level_override_to_1() {
    let init = detect_alias("lz4cat");
    assert_eq!(init.display_level_override, Some(1));
}

#[test]
fn lz4cat_sets_overwrite_and_pass_through() {
    let init = detect_alias("lz4cat");
    assert!(init.prefs.overwrite);
    assert!(init.prefs.pass_through);
    assert!(!init.prefs.remove_src_file);
}

#[test]
fn lz4cat_with_path_prefix() {
    // argv[0] may include a path — last_name_from_path should strip it.
    let init = detect_alias("/usr/bin/lz4cat");
    assert_eq!(init.op_mode, OpMode::Decompress);
    assert!(init.multiple_inputs);
}

#[test]
fn lz4cat_with_exe_extension() {
    // On Windows argv[0] may have ".exe".
    let init = detect_alias("lz4cat.exe");
    assert_eq!(init.op_mode, OpMode::Decompress);
}

// ── unlz4 alias ─────────────────────────────────────────────────────────

#[test]
fn unlz4_sets_decompress_mode() {
    let init = detect_alias("unlz4");
    assert_eq!(init.op_mode, OpMode::Decompress);
}

#[test]
fn unlz4_does_not_set_multiple_inputs() {
    let init = detect_alias("unlz4");
    assert!(!init.multiple_inputs);
}

#[test]
fn unlz4_does_not_set_force_stdout() {
    let init = detect_alias("unlz4");
    assert!(!init.force_stdout);
}

// ── lz4c legacy alias ───────────────────────────────────────────────────

#[test]
fn lz4c_sets_lz4c_legacy() {
    let init = detect_alias("lz4c");
    assert!(init.lz4c_legacy);
}

#[test]
fn lz4c_op_mode_is_auto() {
    // lz4c only sets legacy flag, not a specific operation mode.
    let init = detect_alias("lz4c");
    assert_eq!(init.op_mode, OpMode::Auto);
}

// ── plain lz4 (no alias) ────────────────────────────────────────────────

#[test]
fn lz4_returns_defaults() {
    let init = detect_alias("lz4");
    assert_eq!(init.op_mode, OpMode::Auto);
    assert!(!init.lz4c_legacy);
    assert!(!init.multiple_inputs);
    assert!(!init.force_stdout);
    assert!(init.output_filename.is_none());
    assert!(init.display_level_override.is_none());
}

#[test]
fn lz4_overwrite_is_false() {
    // Under its plain name the program asks before overwriting.
    let init = detect_alias("lz4");
    assert!(!init.prefs.overwrite);
}

// ── unrecognised binary name ─────────────────────────────────────────────

#[test]
fn unknown_binary_returns_defaults() {
    let init = detect_alias("my-lz4-wrapper");
    assert_eq!(init.op_mode, OpMode::Auto);
    assert!(!init.lz4c_legacy);
    assert!(!init.multiple_inputs);
}

#[test]
fn detect_alias_sets_four_mib_blocks() {
    let init = detect_alias("lz4");
    assert_eq!(init.prefs.block_size_id, 7);
    assert_eq!(init.prefs.block_size, 4194304);
    assert_eq!(init.display_level, 2);
    assert_eq!(detect_alias("lz4cat").display_level, 1);
}

#[test]
fn detect_alias_with_env_reads_levels() {
    let init = detect_alias_with_env("unlz4", Some("9"), Some("3"));
    assert_eq!(init.op_mode, OpMode::Decompress);
    assert_eq!(init.c_level, 9);
    assert_eq!(init.nb_workers, 3);
    let other = detect_alias_with_env("lz4", Some("fast"), None);
    assert_eq!(other.c_level, 1);
    assert_eq!(other.nb_workers, 0);
}
