//! Buffers of a benchmark run: the block size it uses and how its input is
//! cut into blocks.

use vstd::prelude::*;

verus! {

/// Source and compressed data carrier for callers that manage their own
/// buffers.
pub struct BlockParams {
    pub src: Vec<u8>,
    pub compressed: Vec<u8>,
}

impl BlockParams {
    /// A carrier for `src` with an empty compressed buffer.
    pub fn new(src: Vec<u8>) -> (b: Self)
        ensures
            b.src@ == src@,
            b.compressed@.len() == 0,
    {
        BlockParams { src, compressed: Vec::new() }
    }
}

/// The block size a run over `src_size` bytes uses: the configured one when
/// it is at least 32 bytes and not decoding only, else the whole input; one
/// more when the input is empty.
pub open spec fn bench_block_size_spec(config_block_size: usize, decode_only: bool, src_size: usize) -> int {
    (if config_block_size >= 32 && !decode_only { config_block_size as int } else { src_size as int })
        + (if src_size == 0 { 1int } else { 0 })
}

/// The block size a run over `src_size` bytes uses (see
/// `bench_block_size_spec`).
pub fn bench_block_size(config_block_size: usize, decode_only: bool, src_size: usize) -> (r: usize)
    requires
        config_block_size < usize::MAX,
    ensures
        r == bench_block_size_spec(config_block_size, decode_only, src_size),
        r >= 1,
{
    let base = if config_block_size >= 32 && !decode_only {
        config_block_size
    } else {
        src_size
    };
    base + if src_size == 0 {
        1
    } else {
        0
    }
}

/// The blocks of a file of `size` bytes that starts at `offset`: pieces of
/// `bs` bytes, the last one shorter, as (offset, length) pairs.
pub open spec fn file_blocks(size: nat, bs: nat, offset: nat) -> Seq<(usize, usize)>
    decreases size,
{
    if size == 0 || bs == 0 {
        Seq::empty()
    } else {
        let n: nat = if size < bs { size } else { bs };
        seq![(offset as usize, n as usize)] + file_blocks((size - n) as nat, bs, offset + n)
    }
}

/// The total of the first `k` sizes.
pub open spec fn sum_sizes(sizes: Seq<usize>, k: int) -> nat
    decreases k,
{
    if k <= 0 {
        0
    } else {
        sum_sizes(sizes, k - 1) + sizes[k - 1] as nat
    }
}

/// The blocks of the first `k` files, laid out one after the other.
pub open spec fn files_blocks(sizes: Seq<usize>, bs: nat, k: int) -> Seq<(usize, usize)>
    decreases k,
{
    if k <= 0 {
        Seq::empty()
    } else {
        files_blocks(sizes, bs, k - 1) + file_blocks(sizes[k - 1] as nat, bs, sum_sizes(sizes, k - 1))
    }
}

/// The blocks a run cuts its input into: each file (the whole input when
/// there is no file list) cut into blocks of `bs` bytes, or one empty block
/// when that gives none.
pub open spec fn bench_blocks(file_sizes: Seq<usize>, src_size: usize, bs: nat) -> Seq<(usize, usize)> {
    let sizes = if file_sizes.len() == 0 { seq![src_size] } else { file_sizes };
    let b = files_blocks(sizes, bs, sizes.len() as int);
    if b.len() == 0 { seq![(0usize, 0usize)] } else { b }
}

proof fn lemma_sum_step(sizes: Seq<usize>, k: int)
    requires
        0 <= k < sizes.len(),
    ensures
        sum_sizes(sizes, k + 1) == sum_sizes(sizes, k) + sizes[k] as nat,
{
}

/// Appends the blocks of one file of `size` bytes at `offset` to `out`.
fn push_file_blocks(out: &mut Vec<(usize, usize)>, size: usize, bs: usize, offset: usize)
    requires
        bs >= 1,
        offset + size <= usize::MAX,
    ensures
        final(out)@ == old(out)@ + file_blocks(size as nat, bs as nat, offset as nat),
{
    let mut remaining = size;
    let mut off = offset;
    while remaining > 0
        invariant
            bs >= 1,
            off + remaining == offset + size,
            off + remaining <= usize::MAX,
            out@ + file_blocks(remaining as nat, bs as nat, off as nat) == old(out)@ + file_blocks(
                size as nat,
                bs as nat,
                offset as nat,
            ),
        decreases remaining,
    {
        let n = if remaining < bs {
            remaining
        } else {
            bs
        };
        let ghost before = out@;
        out.push((off, n));
        proof {
            assert(file_blocks(remaining as nat, bs as nat, off as nat) =~= seq![(off, n)] + file_blocks(
                (remaining - n) as nat,
                bs as nat,
                (off + n) as nat,
            ));
            assert(before + file_blocks(remaining as nat, bs as nat, off as nat) =~= out@ + file_blocks(
                (remaining - n) as nat,
                bs as nat,
                (off + n) as nat,
            ));
        }
        remaining = remaining - n;
        off = off + n;
    }
    proof {
        assert(out@ + file_blocks(0, bs as nat, off as nat) =~= out@);
    }
}

/// The blocks a run cuts its input into (see `bench_blocks`), as
/// (offset, length) pairs.
pub fn split_blocks(file_sizes: &[usize], src_size: usize, bs: usize) -> (r: Vec<(usize, usize)>)
    requires
        bs >= 1,
        sum_sizes(file_sizes@, file_sizes@.len() as int) <= usize::MAX,
    ensures
        r@ == bench_blocks(file_sizes@, src_size, bs as nat),
{
    let single: Vec<usize> = vec![src_size];
    let sizes: &[usize] = if file_sizes.len() == 0 {
        single.as_slice()
    } else {
        file_sizes
    };
    proof {
        if file_sizes@.len() == 0 {
            assert(sizes@ =~= seq![src_size]);
            assert(sum_sizes(sizes@, 0) == 0);
            assert(sum_sizes(sizes@, 1) == src_size);
        }
    }
    let mut out: Vec<(usize, usize)> = Vec::new();
    let mut i: usize = 0;
    let mut offset: usize = 0;
    while i < sizes.len()
        invariant
            bs >= 1,
            i <= sizes@.len(),
            offset == sum_sizes(sizes@, i as int),
            sum_sizes(sizes@, sizes@.len() as int) <= usize::MAX,
            out@ == files_blocks(sizes@, bs as nat, i as int),
        decreases sizes@.len() - i,
    {
        proof {
            lemma_sum_step(sizes@, i as int);
            lemma_sum_mono(sizes@, i as int + 1, sizes@.len() as int);
        }
        push_file_blocks(&mut out, sizes[i], bs, offset);
        offset = offset + sizes[i];
        i = i + 1;
    }
    if out.len() == 0 {
        out.push((0, 0));
        proof {
            assert(out@ =~= seq![(0usize, 0usize)]);
        }
    }
    out
}

proof fn lemma_sum_mono(sizes: Seq<usize>, a: int, b: int)
    requires
        0 <= a <= b <= sizes.len(),
    ensures
        sum_sizes(sizes, a) <= sum_sizes(sizes, b),
    decreases b - a,
{
    if a < b {
        lemma_sum_mono(sizes, a, b - 1);
    }
}

} // verus!
