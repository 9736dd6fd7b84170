//! Values that the help texts show.

use vstd::prelude::*;

verus! {

/// Highest compression level, selected by `--best`.
pub const LZ4HC_CLEVEL_MAX: i32 = 12;

/// Default number of workers shown in the usage text (0: automatic).
pub const LZ4_NBWORKERS_DEFAULT: i32 = 0;

/// Default block size identifier (7: 4 MiB blocks).
pub const LZ4_BLOCKSIZEID_DEFAULT: i32 = 7;

/// Name that stands for standard input.
pub const STDINMARK: &'static str = "stdin";

/// Name that stands for standard output.
pub const STDOUTMARK: &'static str = "stdout";

/// Output name that discards the output.
pub const NULL_OUTPUT: &'static str = "null";

} // verus!
