//! Orchestration of a scan or compaction run: how the input is partitioned
//! into blocks and padded, the strictly ordered steps a run performs, and
//! the host combine step on the mapped output buffer.

use vstd::prelude::*;
use crate::layout::{read_words, write_words};
use crate::scan::{exclusive_scan, inplace_exclusive_prefix_sum, is_pow2, scan_fits};

verus! {

/// Binding slot of the input buffer, in every pipeline.
pub const INPUT_SLOT: u32 = 0;

/// Binding slot of the output buffer, in every pipeline.
pub const OUTPUT_SLOT: u32 = 1;

/// Padding value for sums: adds nothing.
pub const SUM_NEUTRAL: u32 = 0;

/// Padding value for compaction with the predicate "even": never kept.
pub const COMPACTION_NEUTRAL: u32 = 1;

/// `n / b` rounded up.
pub open spec fn ceil_div(n: int, b: int) -> int {
    if n % b == 0 {
        n / b
    } else {
        n / b + 1
    }
}

/// How a run splits its input.
pub struct ScanPlan {
    /// Logical element count, used for reporting.
    pub len: usize,
    /// Elements per block, a power of two.
    pub block: usize,
    /// Number of blocks dispatched.
    pub blocks: usize,
    /// Length of the input after padding: `blocks * block`.
    pub padded: usize,
}

/// Why a run cannot be planned.
#[derive(Clone, Copy, PartialEq, Eq, Structural, Debug)]
pub enum PlanError {
    /// The block size is not a power of two.
    BlockNotPowerOfTwo,
    /// The padded input would not fit in the address space.
    TooLarge,
}

fn is_power_of_two(n: usize) -> (r: bool)
    ensures
        r == is_pow2(n as int),
{
    if n == 0 {
        return false;
    }
    let mut m = n;
    while m > 1
        invariant
            m >= 1,
            is_pow2(n as int) == is_pow2(m as int),
        decreases m,
    {
        if m % 2 != 0 {
            return false;
        }
        m = m / 2;
    }
    true
}

/// Plans a multi-block run over `n` elements in blocks of `b`: `ceil(n / b)`
/// blocks, the input padded to a whole number of blocks.
pub fn plan_blocks(n: usize, b: usize) -> (r: Result<ScanPlan, PlanError>)
    ensures
        r is Ok <==> is_pow2(b as int) && ceil_div(n as int, b as int) * b <= usize::MAX,
        r matches Err(e) ==> (e == PlanError::BlockNotPowerOfTwo <==> !is_pow2(b as int)),
        r matches Ok(p) ==> p.len == n && p.block == b && p.blocks == ceil_div(n as int, b as int)
            && p.padded == p.blocks * p.block,
{
    if !is_power_of_two(b) {
        return Err(PlanError::BlockNotPowerOfTwo);
    }
    let blocks = if n % b == 0 {
        n / b
    } else {
        assert(n / b <= n / 2) by (nonlinear_arith)
            requires
                b >= 2,
        ;
        n / b + 1
    };
    if blocks > usize::MAX / b {
        proof {
            assert(blocks * b > usize::MAX) by (nonlinear_arith)
                requires
                    blocks > (usize::MAX as int) / (b as int),
                    b > 0,
            ;
        }
        return Err(PlanError::TooLarge);
    }
    proof {
        assert(blocks * b <= usize::MAX) by (nonlinear_arith)
            requires
                blocks <= (usize::MAX as int) / (b as int),
                b > 0,
        ;
    }
    Ok(ScanPlan { len: n, block: b, blocks, padded: blocks * b })
}

/// The smallest power of two that is at least `n`, if it fits.
pub fn next_power_of_two(n: usize) -> (r: Option<usize>)
    ensures
        r matches Some(p) ==> is_pow2(p as int) && p >= n && (p == 1 || p / 2 < n),
        r is None ==> forall|q: int| is_pow2(q) && q >= n ==> q > usize::MAX,
{
    let mut p: usize = 1;
    while p < n
        invariant
            is_pow2(p as int),
            p == 1 || p / 2 < n,
        decreases usize::MAX - p,
    {
        if p > usize::MAX / 2 {
            assert forall|q: int| is_pow2(q) && q >= n implies q > usize::MAX by {
                lemma_pow2_gap(p as int, q);
            }
            return None;
        }
        assert(is_pow2(2 * p as int)) by {
            assert((2 * p as int) / 2 == p);
        }
        p = 2 * p;
    }
    Some(p)
}

/// Between two distinct powers of two lies a factor of two at least.
proof fn lemma_pow2_gap(p: int, q: int)
    requires
        is_pow2(p),
        is_pow2(q),
        p < q,
    ensures
        2 * p <= q,
    decreases q,
{
    if p > 1 {
        lemma_pow2_gap(p / 2, q / 2);
    }
}

/// Plans a single-block run over `n` elements: one block whose size is `n`
/// rounded up to a power of two.
pub fn plan_single_block(n: usize) -> (r: Result<ScanPlan, PlanError>)
    ensures
        r is Err <==> forall|q: int| is_pow2(q) && q >= n ==> q > usize::MAX,
        r matches Err(e) ==> e == PlanError::TooLarge,
        r matches Ok(p) ==> p.len == n && p.blocks == 1 && p.padded == p.block && is_pow2(
            p.block as int,
        ) && p.block >= n && (p.block == 1 || p.block / 2 < n),
{
    match next_power_of_two(n) {
        None => Err(PlanError::TooLarge),
        Some(p) => {
            Ok(ScanPlan { len: n, block: p, blocks: 1, padded: p })
        },
    }
}

/// `data` followed by copies of `neutral` up to length `padded`.
pub fn pad_input(data: &Vec<u32>, padded: usize, neutral: u32) -> (r: Vec<u32>)
    requires
        data@.len() <= padded,
    ensures
        r@.len() == padded,
        r@.take(data@.len() as int) == data@,
        forall|i: int| data@.len() <= i < padded ==> r@[i] == neutral,
{
    let mut r = data.clone();
    assert(r@ =~= data@);
    while r.len() < padded
        invariant
            data@.len() <= r@.len() <= padded,
            r@.take(data@.len() as int) == data@,
            forall|i: int| data@.len() <= i < r@.len() ==> r@[i] == neutral,
        decreases padded - r@.len(),
    {
        r.push(neutral);
        assert(r@.take(data@.len() as int) =~= data@);
    }
    r
}

/// One step of a run, as the driver performs it.
#[derive(Clone, Copy, PartialEq, Eq, Structural, Debug)]
pub enum Step {
    /// Dispatch the local-scan program over `groups` blocks.
    LocalScan { groups: usize },
    /// Make the buffer writes of the previous dispatch visible.
    Barrier,
    /// Map the output buffer and replace the `count` block totals at word
    /// `start` by their exclusive scan.
    Combine { start: usize, count: usize },
    /// Dispatch the distribute program over `groups` blocks.
    Distribute { groups: usize },
    /// Map the output buffer and read the results.
    ReadBack,
}

/// The steps of a two-dispatch run, in order.
pub open spec fn run_steps(blocks: usize, sums_start: usize) -> Seq<Step> {
    seq![
        Step::LocalScan { groups: blocks },
        Step::Barrier,
        Step::Combine { start: sums_start, count: blocks },
        Step::Distribute { groups: blocks },
        Step::Barrier,
        Step::ReadBack,
    ]
}

/// The steps of a run planned by `plan` whose block totals start at word
/// `sums_start` of the output buffer.
pub fn steps(plan: &ScanPlan, sums_start: usize) -> (r: Vec<Step>)
    ensures
        r@ == run_steps(plan.blocks, sums_start),
{
    let mut r: Vec<Step> = Vec::new();
    r.push(Step::LocalScan { groups: plan.blocks });
    r.push(Step::Barrier);
    r.push(Step::Combine { start: sums_start, count: plan.blocks });
    r.push(Step::Distribute { groups: plan.blocks });
    r.push(Step::Barrier);
    r.push(Step::ReadBack);
    assert(r@ =~= run_steps(plan.blocks, sums_start));
    r
}

/// The combine step on a mapped buffer: the `count` words from `start` are
/// replaced by their exclusive scan and every other word is kept.
pub fn combine_block_sums(words: &mut Vec<u32>, start: usize, count: usize)
    requires
        start + count <= old(words)@.len(),
        scan_fits(old(words)@.subrange(start as int, start + count)),
    ensures
        final(words)@.len() == old(words)@.len(),
        forall|j: int|
            0 <= j < old(words)@.len() && !(start <= j < start + count) ==> final(words)@[j] == old(
                words,
            )@[j],
        forall|j: int|
            start <= j < start + count ==> #[trigger] final(words)@[j] == exclusive_scan(
                old(words)@.subrange(start as int, start + count),
            )[j - start],
{
    let mut sums = read_words(words, start, count);
    inplace_exclusive_prefix_sum(&mut sums);
    write_words(words, start, &sums);
    assert forall|j: int| start <= j < start + count implies #[trigger] words@[j] == sums@[j
        - start] by {
        assert(words@[j] == (old(words)@.take(start as int) + sums@)[j]);
    }
}

} // verus!
