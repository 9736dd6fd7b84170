//! What the command line is asked to do, and the defaults that the
//! environment may override.

use vstd::prelude::*;

use crate::cli::arg_utils::{digit_run, leading_u32, read_u32_from_str};
use crate::cli::constants::LZ4_EXTENSION;

verus! {

/// Compression level used unless one is chosen.
pub const LZ4_CLEVEL_DEFAULT: i32 = 1;

/// Number of workers used unless one is chosen; 0 chooses automatically.
pub const LZ4_NBWORKERS_DEFAULT: usize = 0;

/// What the command line does with its inputs.
#[derive(Debug, Clone, Copy, PartialEq, Eq, Structural)]
pub enum OpMode {
    /// Decompress names that end in `.lz4`, compress the others.
    Auto,
    Compress,
    Decompress,
    /// Check frames without writing output.
    Test,
    /// Measure speed and ratio.
    Bench,
    /// Describe frames.
    List,
}

/// Whether `s` ends with `suffix`.
pub fn str_ends_with(s: &str, suffix: &str) -> (r: bool)
    ensures
        r == suffix@.is_suffix_of(s@),
{
    let n = s.unicode_len();
    let k = suffix.unicode_len();
    if k > n {
        return false;
    }
    let off = n - k;
    let mut i: usize = 0;
    while i < k
        invariant
            n == s@.len(),
            k == suffix@.len(),
            off == n - k,
            i <= k,
            forall|j: int| 0 <= j < i ==> s@[off + j] == suffix@[j],
        decreases k - i,
    {
        if s.get_char(off + i) != suffix.get_char(i) {
            assert(s@.subrange(off as int, n as int)[i as int] != suffix@[i as int]);
            return false;
        }
        i += 1;
    }
    assert(suffix@ =~= s@.subrange(off as int, n as int));
    true
}

/// The mode chosen for a file in automatic mode: decompression for names
/// that end in `.lz4`, compression otherwise.
pub open spec fn op_mode_for(name: Seq<char>) -> OpMode {
    if LZ4_EXTENSION@.is_suffix_of(name) {
        OpMode::Decompress
    } else {
        OpMode::Compress
    }
}

/// Decompresses names that end in `.lz4`, compresses the others.
pub fn determine_op_mode(filename: &str) -> (m: OpMode)
    ensures
        m == op_mode_for(filename@),
{
    if str_ends_with(filename, LZ4_EXTENSION) {
        OpMode::Decompress
    } else {
        OpMode::Compress
    }
}

/// The worker count that an environment value sets: its leading number when
/// it starts with a digit, else the default.
pub open spec fn nb_workers_from_env(env: Option<Seq<char>>) -> usize {
    match env {
        Some(e) => if digit_run(e) > 0 { leading_u32(e) as usize } else { LZ4_NBWORKERS_DEFAULT },
        None => LZ4_NBWORKERS_DEFAULT,
    }
}

/// The compression level that an environment value sets: its leading number
/// (as an `i32`, wrapping) when it starts with a digit, else the default.
pub open spec fn c_level_from_env(env: Option<Seq<char>>) -> i32 {
    match env {
        Some(e) => if digit_run(e) > 0 { leading_u32(e) as i32 } else { LZ4_CLEVEL_DEFAULT },
        None => LZ4_CLEVEL_DEFAULT,
    }
}

/// The view of an optional string.
pub open spec fn opt_view(s: Option<&str>) -> Option<Seq<char>> {
    match s {
        Some(t) => Some(t@),
        None => None,
    }
}

/// Worker count from the value of `LZ4_NBWORKERS` (`None` when unset).
/// A value that does not start with a digit is ignored.
pub fn init_nb_workers_from(env_val: Option<&str>) -> (r: usize)
    ensures
        r == nb_workers_from_env(opt_view(env_val)),
{
    match env_val {
        Some(env) => match read_u32_from_str(env) {
            Some((val, _rest)) => val as usize,
            None => LZ4_NBWORKERS_DEFAULT,
        },
        None => LZ4_NBWORKERS_DEFAULT,
    }
}

/// Compression level from the value of `LZ4_CLEVEL` (`None` when unset).
/// A value that does not start with a digit is ignored.
pub fn init_c_level_from(env_val: Option<&str>) -> (r: i32)
    ensures
        r == c_level_from_env(opt_view(env_val)),
{
    match env_val {
        Some(env) => match read_u32_from_str(env) {
            Some((val, _rest)) => val as i32,
            None => LZ4_CLEVEL_DEFAULT,
        },
        None => LZ4_CLEVEL_DEFAULT,
    }
}

} // verus!
