//! Memory budget of a benchmark run.

use vstd::prelude::*;
use crate::bench::config::MAX_MEMORY;
use crate::cli::help::LZ4HC_CLEVEL_MAX;

verus! {

/// Step by which the memory budget is probed: 64 MiB.
pub const MEM_STEP: u64 = 67108864;

/// The memory budget for `required_mem` bytes: rounded up to the next
/// multiple of 64 MiB, plus two 64 MiB steps, capped at `MAX_MEMORY`, then
/// lowered by a step twice (halved instead when not above a step).
pub open spec fn max_mem_spec(required_mem: u64) -> int {
    let m0 = ((required_mem / 67108864 + 1) * 67108864) % 0x1_0000_0000_0000_0000;
    let m1 = if m0 + 2 * 67108864 > u64::MAX {
        u64::MAX as int
    } else {
        m0 + 2 * 67108864
    };
    let m2 = if m1 > MAX_MEMORY {
        MAX_MEMORY as int
    } else {
        m1
    };
    let m3 = if m2 > 67108864 {
        m2 - 67108864
    } else {
        m2 / 2
    };
    if m3 > 67108864 {
        m3 - 67108864
    } else {
        m3 / 2
    }
}

/// Memory budget for a benchmark needing `required_mem` bytes; see
/// `max_mem_spec`.
pub fn find_max_mem(required_mem: u64) -> (r: u64)
    ensures
        r == max_mem_spec(required_mem),
        0 < r <= MAX_MEMORY,
{
    let step: u64 = MEM_STEP;
    let q = required_mem / step + 1;
    let mut mem: u64 = q.wrapping_mul(step);
    mem = if mem > u64::MAX - 2 * step {
        u64::MAX
    } else {
        mem + 2 * step
    };
    if mem > MAX_MEMORY {
        mem = MAX_MEMORY;
    }
    if mem > step {
        mem = mem - step;
    } else {
        mem = mem / 2;
    }
    if mem > step {
        mem = mem - step;
    } else {
        mem = mem / 2;
    }
    mem
}

/// The levels a benchmark runs, first to last: the first capped at the
/// highest level; decoding only runs the first; the last capped at the
/// highest level and at least the first.
pub open spec fn level_range_spec(c_level: i32, c_level_last: i32, decode_only: bool) -> (i32, i32) {
    let first = if c_level > LZ4HC_CLEVEL_MAX { LZ4HC_CLEVEL_MAX } else { c_level };
    let last0 = if decode_only { first } else { c_level_last };
    let last1 = if last0 > LZ4HC_CLEVEL_MAX { LZ4HC_CLEVEL_MAX } else { last0 };
    (first, if last1 < first { first } else { last1 })
}

/// The levels a benchmark runs (see `level_range_spec`).
pub fn bench_level_range(c_level: i32, c_level_last: i32, decode_only: bool) -> (r: (i32, i32))
    ensures
        r == level_range_spec(c_level, c_level_last, decode_only),
        r.0 <= r.1 <= LZ4HC_CLEVEL_MAX,
{
    let first = if c_level > LZ4HC_CLEVEL_MAX {
        LZ4HC_CLEVEL_MAX
    } else {
        c_level
    };
    let mut last = if decode_only {
        first
    } else {
        c_level_last
    };
    if last > LZ4HC_CLEVEL_MAX {
        last = LZ4HC_CLEVEL_MAX;
    }
    if last < first {
        last = first;
    }
    (first, last)
}

} // verus!
