//! Reserved file names of the command line, and the magic numbers that
//! tell the file formats apart.

use vstd::prelude::*;

verus! {

/// Input name that stands for standard input.
pub const STDIN_MARK: &'static str = "stdin";
/// Output name that stands for standard output.
pub const STDOUT_MARK: &'static str = "stdout";
/// Output name that discards the output.
pub const NULL_OUTPUT: &'static str = "null";
/// The system's null device, what `NULL_OUTPUT` stands for.
pub const NUL_MARK: &'static str = "/dev/null";

/// First four bytes (little-endian) of an LZ4 frame.
pub const LZ4IO_MAGICNUMBER: u32 = 0x184D2204;
/// First four bytes (little-endian) of the legacy format.
pub const LEGACY_MAGICNUMBER: u32 = 0x184C2102;

} // verus!
