//! Build-wide defaults of the command line.

use vstd::prelude::*;

verus! {

/// Default compression level.
pub const CLEVEL_DEFAULT: i32 = 1;

/// Whether compression runs on several threads.
pub const MULTITHREAD: bool = false;

/// Default number of worker threads.
pub const NB_WORKERS_DEFAULT: usize = 4;

/// Most worker threads that can be chosen.
pub const NB_WORKERS_MAX: usize = 200;

/// Default block size identifier (7: 4 MiB blocks).
pub const BLOCKSIZEID_DEFAULT: u32 = 7;

} // verus!
