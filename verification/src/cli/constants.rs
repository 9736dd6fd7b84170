//! Program identity and size units of the command line.

use vstd::prelude::*;

verus! {

pub const COMPRESSOR_NAME: &'static str = "lz4";
pub const AUTHOR: &'static str = "Yann Collet";
pub const LZ4_EXTENSION: &'static str = ".lz4";
/// Program name that decompresses to standard output.
pub const LZ4CAT: &'static str = "lz4cat";
/// Program name that decompresses.
pub const UNLZ4: &'static str = "unlz4";
/// Program name that accepts the legacy short options.
pub const LZ4_LEGACY: &'static str = "lz4c";

pub const KB: u64 = 1024;
pub const MB: u64 = 1048576;
pub const GB: u64 = 1073741824;

/// Name of the threading mode in the version banner.
pub const IO_MT: &'static str = "single-thread";

} // verus!
