use lz4::cli::arg_utils::{exe_name_match, last_name_from_path, long_command_w_arg, read_u32_from_str};

#[test]
fn test_last_name_from_path_unix() {
    assert_eq!(last_name_from_path("/a/b/c"), "c");
}

#[test]
fn test_last_name_from_path_windows() {
    assert_eq!(last_name_from_path("a\\b"), "b");
}

#[test]
fn test_last_name_from_path_no_separator() {
    assert_eq!(last_name_from_path("file.txt"), "file.txt");
}

#[test]
fn test_last_name_from_path_mixed() {
    assert_eq!(last_name_from_path("a/b\\c"), "c");
}

#[test]
fn test_exe_name_match_exact() {
    assert!(exe_name_match("lz4", "lz4"));
}

#[test]
fn test_exe_name_match_with_extension() {
    assert!(exe_name_match("lz4.exe", "lz4"));
}

#[test]
fn test_exe_name_match_no_match() {
    assert!(!exe_name_match("lz4cat", "lz4"));
}

#[test]
fn test_exe_name_match_prefix_only() {
    assert!(!exe_name_match("lz4catx", "lz4cat"));
}

#[test]
fn test_read_u32_plain() {
    assert_eq!(read_u32_from_str("42"), Some((42, "")));
}

#[test]
fn test_read_u32_k_suffix() {
    assert_eq!(read_u32_from_str("64K"), Some((65536, "")));
}

#[test]
fn test_read_u32_kb_suffix() {
    assert_eq!(read_u32_from_str("64KB"), Some((65536, "")));
}

#[test]
fn test_read_u32_kib_suffix() {
    assert_eq!(read_u32_from_str("64KiB"), Some((65536, "")));
}

#[test]
fn test_read_u32_m_suffix() {
    assert_eq!(read_u32_from_str("1M"), Some((1048576, "")));
}

#[test]
fn test_read_u32_mb_suffix() {
    assert_eq!(read_u32_from_str("1MB"), Some((1048576, "")));
}

#[test]
fn test_read_u32_mib_suffix() {
    assert_eq!(read_u32_from_str("1MiB"), Some((1048576, "")));
}

#[test]
fn test_read_u32_g_suffix() {
    assert_eq!(read_u32_from_str("1G"), Some((1073741824, "")));
}

#[test]
fn test_read_u32_gb_suffix() {
    assert_eq!(read_u32_from_str("1GB"), Some((1073741824, "")));
}

#[test]
fn test_read_u32_gib_suffix() {
    assert_eq!(read_u32_from_str("1GiB"), Some((1073741824, "")));
}

#[test]
fn test_read_u32_empty() {
    assert_eq!(read_u32_from_str(""), None);
}

#[test]
fn test_read_u32_no_digits() {
    assert_eq!(read_u32_from_str("K"), None);
}

#[test]
fn test_read_u32_trailing_garbage() {
    let (val, rest) = read_u32_from_str("12Mfoo").unwrap();
    assert_eq!(val, 12582912);
    assert_eq!(rest, "foo");
}

#[test]
fn test_read_u32_plain_with_remainder() {
    let (val, rest) = read_u32_from_str("42xyz").unwrap();
    assert_eq!(val, 42);
    assert_eq!(rest, "xyz");
}

#[test]
fn test_long_command_w_arg_match() {
    assert_eq!(long_command_w_arg("--block-size=64K", "--block-size="), Some("64K"));
}

#[test]
fn test_long_command_w_arg_no_match() {
    assert_eq!(long_command_w_arg("--level=5", "--block-size="), None);
}

#[test]
fn test_long_command_w_arg_exact() {
    assert_eq!(long_command_w_arg("--fast", "--fast"), Some(""));
}

#[test]
fn read_u32_wraps_modulo_2_pow_32() {
    // 4294967296 is 2^32: the value wraps to 0; 4G is 4 * 2^30 = 2^32 too.
    assert_eq!(read_u32_from_str("4294967296"), Some((0, "")));
    assert_eq!(read_u32_from_str("4294967297x"), Some((1, "x")));
    assert_eq!(read_u32_from_str("4G"), Some((0, "")));
    assert_eq!(read_u32_from_str("5G"), Some((1073741824, "")));
}

#[test]
fn read_u32_unit_variants_stop_at_other_letters() {
    // "Bi" after a unit is not a suffix: only "B" directly is.
    assert_eq!(read_u32_from_str("2KBi"), Some((2048, "i")));
    assert_eq!(read_u32_from_str("2Kb"), Some((2048, "b")));
    assert_eq!(read_u32_from_str("2k"), Some((2, "k")));
}

#[test]
fn last_name_of_trailing_separator_is_empty() {
    assert_eq!(last_name_from_path("dir/"), "");
    assert_eq!(last_name_from_path(""), "");
}
