//! Benchmark parameters: durations, sizes and the run's settings.

use vstd::prelude::*;

verus! {

/// Minimum benchmark duration in seconds.
pub const NBSECONDS: u32 = 3;

/// Target duration of a compression timing loop, in microseconds.
pub const TIMELOOP_MICROSEC: u64 = 1_000_000;

/// Target duration of a compression timing loop, in nanoseconds.
pub const TIMELOOP_NANOSEC: u64 = 1_000_000_000;

/// Longest active benchmarking period, in nanoseconds.
pub const ACTIVEPERIOD_NANOSEC: u64 = 70_000_000_000;

/// Cool-down period between active periods, in seconds.
pub const COOLPERIOD_SEC: u64 = 10;

/// Decompression is timed this many times longer than compression.
pub const DECOMP_MULT: u32 = 1;

pub const KB: usize = 1024;
pub const MB: usize = 1048576;
pub const GB: usize = 1073741824;

/// Largest dictionary a block can refer to.
pub const LZ4_MAX_DICT_SIZE: usize = 65536;

/// Most memory a benchmark allocates (8 GiB, the budget of 64-bit hosts).
pub const MAX_MEMORY: u64 = 8589934592;

/// Settings of a benchmark run.
#[derive(Debug, Clone, Copy)]
pub struct BenchConfig {
    /// Verbosity: 0 silent, 1 errors, 2 results (default), 3 progress, 4 all.
    pub display_level: u32,
    /// Minimum benchmark duration in seconds.
    pub nb_seconds: u32,
    /// Size of the independent chunks the input is cut into; 0: whole files.
    pub block_size: usize,
    /// Hidden parameter shaping the output for scripts.
    pub additional_param: i32,
    /// Benchmark each input file separately.
    pub bench_separately: bool,
    /// Only benchmark decompression (the inputs are frames).
    pub decode_only: bool,
    /// Skip checksum verification in decode-only runs.
    pub skip_checksums: bool,
}

impl Default for BenchConfig {
    /// Display level 2, `NBSECONDS` seconds, whole files, the rest off.
    fn default() -> (c: Self)
        ensures
            c.display_level == 2,
            c.nb_seconds == NBSECONDS,
            c.block_size == 0,
            c.additional_param == 0,
            !c.bench_separately,
            !c.decode_only,
            !c.skip_checksums,
    {
        BenchConfig {
            display_level: 2,
            nb_seconds: NBSECONDS,
            block_size: 0,
            additional_param: 0,
            bench_separately: false,
            decode_only: false,
            skip_checksums: false,
        }
    }
}

impl BenchConfig {
    /// Sets the verbosity.
    pub fn set_notification_level(&mut self, level: u32) -> (r: &mut Self)
        ensures
            *r == (BenchConfig { display_level: level, ..*old(self) }),
            *final(self) == *final(r),
    {
        self.display_level = level;
        self
    }

    /// Sets the hidden output parameter.
    pub fn set_additional_param(&mut self, additional_param: i32) -> (r: &mut Self)
        ensures
            *r == (BenchConfig { additional_param, ..*old(self) }),
            *final(self) == *final(r),
    {
        self.additional_param = additional_param;
        self
    }

    /// Sets the minimum benchmark duration.
    pub fn set_nb_seconds(&mut self, nb_seconds: u32) -> (r: &mut Self)
        ensures
            *r == (BenchConfig { nb_seconds, ..*old(self) }),
            *final(self) == *final(r),
    {
        self.nb_seconds = nb_seconds;
        self
    }

    /// Sets the size of the chunks the input is cut into.
    pub fn set_block_size(&mut self, block_size: usize) -> (r: &mut Self)
        ensures
            *r == (BenchConfig { block_size, ..*old(self) }),
            *final(self) == *final(r),
    {
        self.block_size = block_size;
        self
    }

    /// Sets whether each file is benchmarked separately.
    pub fn set_bench_separately(&mut self, separate: bool) -> (r: &mut Self)
        ensures
            *r == (BenchConfig { bench_separately: separate, ..*old(self) }),
            *final(self) == *final(r),
    {
        self.bench_separately = separate;
        self
    }

    /// Sets decode-only mode.
    pub fn set_decode_only(&mut self, set: bool) -> (r: &mut Self)
        ensures
            *r == (BenchConfig { decode_only: set, ..*old(self) }),
            *final(self) == *final(r),
    {
        self.decode_only = set;
        self
    }

    /// Sets whether checksums are skipped in decode-only mode.
    pub fn set_skip_checksums(&mut self, skip: bool) -> (r: &mut Self)
        ensures
            *r == (BenchConfig { skip_checksums: skip, ..*old(self) }),
            *final(self) == *final(r),
    {
        self.skip_checksums = skip;
        self
    }
}

} // verus!
