//! The decisions of a benchmark run: how many loops each timed pass makes,
//! when a phase is done, and whether the round trip gave the input back.
//! The clock readings come from the caller.

use vstd::prelude::*;
use crate::bench::config::TIMELOOP_NANOSEC;

verus! {

/// State of one timed phase (compression or decompression) of a run.
#[derive(Debug, Clone, Copy, PartialEq, Eq, Structural)]
pub struct BenchLoop {
    /// Fastest time per loop seen so far (`u64::MAX`: none yet).
    pub fastest_ns: u64,
    /// Loops the next pass makes.
    pub nb_loops: u32,
    /// Time measured so far.
    pub total_ns: u64,
    /// Time after which the phase is complete.
    pub limit_ns: u64,
    /// The phase is complete.
    pub completed: bool,
}

/// Time a phase of `nb_seconds` seconds runs for, in nanoseconds.
pub open spec fn max_time_spec(nb_seconds: u32) -> int {
    nb_seconds * TIMELOOP_NANOSEC + 100
}

/// Time a phase of `nb_seconds` seconds runs for, in nanoseconds.
pub fn max_time_ns(nb_seconds: u32) -> (r: u64)
    ensures
        r == max_time_spec(nb_seconds),
{
    assert(nb_seconds * TIMELOOP_NANOSEC + 100 <= u64::MAX) by (nonlinear_arith)
        requires
            nb_seconds <= u32::MAX,
    ;
    (nb_seconds as u64) * TIMELOOP_NANOSEC + 100
}

/// Loops of a phase's first pass: `budget` bytes' worth of the input
/// (`src_size` bytes), at least one; exactly one when the run lasts 0
/// seconds.
pub open spec fn first_loops_spec(budget: int, src_size: int, nb_seconds: u32) -> int {
    if nb_seconds == 0 {
        1
    } else {
        budget / (src_size + 1) + 1
    }
}

/// The state of a phase before its first pass: no time yet, the loop count
/// of `first_loops_spec`, complete from the start when `skipped`.
pub fn bench_loop_start(budget: usize, src_size: usize, nb_seconds: u32, limit_ns: u64, skipped: bool) -> (r:
    BenchLoop)
    requires
        budget <= 209715200,
        src_size < usize::MAX,
    ensures
        r == (BenchLoop {
            fastest_ns: u64::MAX,
            nb_loops: first_loops_spec(budget as int, src_size as int, nb_seconds) as u32,
            total_ns: 0,
            limit_ns,
            completed: skipped,
        }),
        r.nb_loops >= 1,
{
    let nb: u32 = if nb_seconds == 0 {
        1
    } else {
        ((budget / (src_size + 1)) as u32) + 1
    };
    BenchLoop { fastest_ns: u64::MAX, nb_loops: nb, total_ns: 0, limit_ns, completed: skipped }
}

/// The phase after a pass of `s.nb_loops` loops that took `elapsed_ns`: the
/// fastest time per loop is kept, the next pass aims at one second
/// (`TIMELOOP_NANOSEC / fastest + 1` loops), or makes 100 times more loops
/// when the pass was too short to measure; the phase is complete once its
/// total time passes its limit.
pub open spec fn bench_loop_spec(s: BenchLoop, elapsed_ns: u64) -> BenchLoop {
    let total = (s.total_ns + elapsed_ns) as u64;
    if elapsed_ns > 0 {
        let per = elapsed_ns / (s.nb_loops as u64);
        let fastest = if per < s.fastest_ns {
            per
        } else {
            s.fastest_ns
        };
        BenchLoop {
            fastest_ns: fastest,
            nb_loops: (TIMELOOP_NANOSEC / fastest + 1) as u32,
            total_ns: total,
            completed: total > s.limit_ns,
            ..s
        }
    } else {
        BenchLoop { nb_loops: (s.nb_loops * 100) as u32, total_ns: total, completed: total > s.limit_ns, ..s }
    }
}

/// Updates a phase after a pass that took `elapsed_ns`; see
/// `bench_loop_spec`.
pub fn bench_loop_next(s: BenchLoop, elapsed_ns: u64) -> (r: BenchLoop)
    requires
        s.nb_loops >= 1,
        s.total_ns + elapsed_ns <= u64::MAX,
        elapsed_ns == 0 ==> s.nb_loops < 40_000_000,
        elapsed_ns > 0 ==> elapsed_ns / (s.nb_loops as u64) > 0 && s.fastest_ns > 0,
    ensures
        r == bench_loop_spec(s, elapsed_ns),
        r.nb_loops >= 1,
{
    let total = s.total_ns + elapsed_ns;
    if elapsed_ns > 0 {
        let per = elapsed_ns / (s.nb_loops as u64);
        let fastest = if per < s.fastest_ns {
            per
        } else {
            s.fastest_ns
        };
        let q = TIMELOOP_NANOSEC / fastest;
        assert(q <= TIMELOOP_NANOSEC);
        BenchLoop {
            fastest_ns: fastest,
            nb_loops: (q as u32) + 1,
            total_ns: total,
            completed: total > s.limit_ns,
            ..s
        }
    } else {
        BenchLoop { nb_loops: s.nb_loops * 100, total_ns: total, completed: total > s.limit_ns, ..s }
    }
}

/// Name for the 64-bit xxHash of `data` with seed `seed`.
pub uninterp spec fn xxh64_of(data: Seq<u8>, seed: u64) -> u64;

/// Calls `xxhash_rust::xxh64::xxh64`, which computes the 64-bit xxHash of
/// `data` with seed `seed`, a function of those two arguments alone; the
/// result is named `xxh64_of(data, seed)`.
#[verifier::external_body]
fn xxh64(data: &[u8], seed: u64) -> (r: u64)
    ensures
        r == xxh64_of(data@, seed),
{
    xxhash_rust::xxh64::xxh64(data, seed)
}

/// The round trip gave the input back, as far as their 64-bit xxHashes
/// (seed 0) tell.
pub fn roundtrip_ok(src: &[u8], decoded: &[u8]) -> (r: bool)
    ensures
        r == (xxh64_of(src@, 0) == xxh64_of(decoded@, 0)),
{
    xxh64(src, 0) == xxh64(decoded, 0)
}

} // verus!
