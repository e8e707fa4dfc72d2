//! Prefix sums: the host-side combine step between the local-scan and the
//! distribute dispatches, and the model of how per-block scans compose into
//! the scan of the whole input.

use vstd::prelude::*;
use vstd::arithmetic::div_mod::{
    lemma_fundamental_div_mod, lemma_fundamental_div_mod_converse_div,
    lemma_fundamental_div_mod_converse_mod,
};
use vstd::arithmetic::mul::lemma_mul_inequality;

verus! {

/// Sum of the elements of `s`.
pub open spec fn sum(s: Seq<u32>) -> int
    decreases s.len(),
{
    if s.len() == 0 {
        0
    } else {
        sum(s.drop_last()) + s.last()
    }
}

/// Exclusive scan of `s`: element `i` is the sum of the elements before `i`.
pub open spec fn exclusive_scan(s: Seq<u32>) -> Seq<int> {
    Seq::new(s.len(), |i: int| sum(s.take(i)))
}

/// Whether every element of the exclusive scan of `s` fits in a `u32`.
pub open spec fn scan_fits(s: Seq<u32>) -> bool {
    s.len() == 0 || sum(s.drop_last()) <= u32::MAX
}

pub proof fn lemma_sum_nonneg(s: Seq<u32>)
    ensures
        sum(s) >= 0,
    decreases s.len(),
{
    if s.len() > 0 {
        lemma_sum_nonneg(s.drop_last());
    }
}

/// Sums add up over adjacent ranges.
pub proof fn lemma_sum_split(s: Seq<u32>, a: int, b: int, c: int)
    requires
        0 <= a <= b <= c <= s.len(),
    ensures
        sum(s.subrange(a, c)) == sum(s.subrange(a, b)) + sum(s.subrange(b, c)),
    decreases c - b,
{
    if b == c {
        assert(s.subrange(b, c) =~= Seq::<u32>::empty());
    } else {
        lemma_sum_split(s, a, b, c - 1);
        assert(s.subrange(a, c).drop_last() =~= s.subrange(a, c - 1));
        assert(s.subrange(b, c).drop_last() =~= s.subrange(b, c - 1));
    }
}

/// The sum of a range is at most the sum of a range around it.
pub proof fn lemma_sum_within(s: Seq<u32>, a: int, b: int, c: int, d: int)
    requires
        0 <= a <= b <= c <= d <= s.len(),
    ensures
        sum(s.subrange(b, c)) <= sum(s.subrange(a, d)),
{
    lemma_sum_split(s, a, b, d);
    lemma_sum_split(s, b, c, d);
    lemma_sum_nonneg(s.subrange(a, b));
    lemma_sum_nonneg(s.subrange(c, d));
}

/// Whether the exclusive scan of `a` fits in `u32`, so that it can be
/// computed in place.
pub fn prefix_sum_fits(a: &Vec<u32>) -> (r: bool)
    ensures
        r == scan_fits(a@),
{
    if a.len() == 0 {
        return true;
    }
    let mut acc: u64 = 0;
    let mut i: usize = 0;
    while i + 1 < a.len()
        invariant
            a.len() > 0,
            i < a.len(),
            acc == sum(a@.take(i as int)),
            acc <= u32::MAX,
        decreases a.len() - i,
    {
        assert(a@.take(i + 1).drop_last() =~= a@.take(i as int));
        acc = acc + a[i] as u64;
        if acc > u32::MAX as u64 {
            proof {
                assert(a@.take(i + 1) =~= a@.subrange(0, i + 1));
                assert(a@.drop_last() =~= a@.subrange(0, a.len() - 1));
                lemma_sum_within(a@, 0, 0, i + 1, a.len() - 1);
            }
            return false;
        }
        i = i + 1;
    }
    assert(a@.take(i as int) =~= a@.drop_last());
    true
}

/// Replaces `a` by its exclusive scan: `a[0]` becomes 0 and `a[i + 1]`
/// becomes `a[i]` plus the new `a[i]`.
pub fn inplace_exclusive_prefix_sum(a: &mut Vec<u32>)
    requires
        scan_fits(old(a)@),
    ensures
        final(a)@.len() == old(a)@.len(),
        forall|i: int| 0 <= i < old(a)@.len() ==> final(a)@[i] == exclusive_scan(old(a)@)[i],
{
    let ghost orig = a@;
    let mut acc: u32 = 0;
    let mut i: usize = 0;
    while i < a.len()
        invariant
            a@.len() == orig.len(),
            i <= orig.len(),
            scan_fits(orig),
            i < orig.len() ==> acc == sum(orig.take(i as int)),
            forall|j: int| 0 <= j < i ==> a@[j] == sum(orig.take(j)),
            forall|j: int| i <= j < orig.len() ==> a@[j] == orig[j],
        decreases orig.len() - i,
    {
        let x = a[i];
        a.set(i, acc);
        if i + 1 < a.len() {
            proof {
                assert(orig.take(i + 1).drop_last() =~= orig.take(i as int));
                assert(orig.take(i + 1) =~= orig.subrange(0, i + 1));
                assert(orig.drop_last() =~= orig.subrange(0, orig.len() - 1));
                lemma_sum_within(orig, 0, 0, i + 1, orig.len() - 1);
            }
            acc = acc + x;
        }
        i = i + 1;
    }
}

/// The exclusive scan of `data`, as a new vector.
pub fn prefix_sum(data: Vec<u32>) -> (r: Vec<u32>)
    requires
        scan_fits(data@),
    ensures
        r@.len() == data@.len(),
        forall|i: int| 0 <= i < data@.len() ==> r@[i] == exclusive_scan(data@)[i],
{
    let mut v = data.clone();
    assert(v@ =~= data@);
    inplace_exclusive_prefix_sum(&mut v);
    v
}

/// The combine step starts at zero and each step adds the element it passes.
pub proof fn lemma_combine_steps(s: Seq<u32>)
    ensures
        s.len() > 0 ==> exclusive_scan(s)[0] == 0,
        forall|i: int|
            0 <= i < s.len() - 1 ==> #[trigger] exclusive_scan(s)[i + 1] - exclusive_scan(s)[i]
                == s[i],
{
    assert(s.take(0) =~= Seq::<u32>::empty());
    assert forall|i: int| 0 <= i < s.len() - 1 implies #[trigger] exclusive_scan(s)[i + 1]
        - exclusive_scan(s)[i] == s[i] by {
        assert(s.take(i + 1).drop_last() =~= s.take(i));
    }
}

/// Sum of a sequence of integers.
pub open spec fn isum(t: Seq<int>) -> int
    decreases t.len(),
{
    if t.len() == 0 {
        0
    } else {
        isum(t.drop_last()) + t.last()
    }
}

/// Exclusive scan of a sequence of integers.
pub open spec fn int_exclusive_scan(t: Seq<int>) -> Seq<int> {
    Seq::new(t.len(), |k: int| isum(t.take(k)))
}

/// What the local-scan dispatch leaves for each element: the exclusive scan
/// of its own block of `b` elements, taken on its own.
pub open spec fn local_scan(s: Seq<u32>, b: int) -> Seq<int> {
    Seq::new(s.len(), |i: int| sum(s.subrange(i - i % b, i)))
}

/// Total of block `k` of `b` elements.
pub open spec fn block_total(s: Seq<u32>, b: int, k: int) -> int {
    sum(s.subrange(k * b, k * b + b))
}

/// The per-block totals that the local-scan dispatch records.
pub open spec fn block_sums(s: Seq<u32>, b: int) -> Seq<int> {
    Seq::new((s.len() as int / b) as nat, |k: int| block_total(s, b, k))
}

/// What the distribute dispatch writes at each position: the local result
/// plus the combined offset of the element's block.
pub open spec fn distributed(s: Seq<u32>, b: int) -> Seq<int> {
    Seq::new(
        s.len(),
        |i: int| local_scan(s, b)[i] + int_exclusive_scan(block_sums(s, b))[i / b],
    )
}

proof fn lemma_blocks_prefix(s: Seq<u32>, b: int, k: int)
    requires
        b > 0,
        0 <= k,
        k * b <= s.len(),
    ensures
        k <= s.len() as int / b,
        isum(block_sums(s, b).take(k)) == sum(s.take(k * b)),
    decreases k,
{
    lemma_fundamental_div_mod(s.len() as int, b);
    if k > s.len() as int / b {
        lemma_mul_inequality(s.len() as int / b + 1, k, b);
        assert((s.len() as int / b + 1) * b == (s.len() as int / b) * b + b) by (nonlinear_arith);
    }
    if k == 0 {
        assert(k * b == 0) by (nonlinear_arith)
            requires
                k == 0,
        ;
        assert(block_sums(s, b).take(0) =~= Seq::<int>::empty());
        assert(s.take(0) =~= Seq::<u32>::empty());
    } else {
        assert((k - 1) * b == k * b - b) by (nonlinear_arith);
        assert(k * b >= b) by (nonlinear_arith)
            requires
                k >= 1,
                b > 0,
        ;
        lemma_blocks_prefix(s, b, k - 1);
        assert(block_sums(s, b).take(k).drop_last() =~= block_sums(s, b).take(k - 1));
        assert(block_sums(s, b).take(k).last() == block_total(s, b, k - 1));
        assert(block_total(s, b, k - 1) == sum(s.subrange(k * b - b, k * b)));
        lemma_sum_split(s, 0, k * b - b, k * b);
        assert(s.take(k * b) =~= s.subrange(0, k * b));
        assert(s.take(k * b - b) =~= s.subrange(0, k * b - b));
    }
}

/// Scanning each block on its own, scanning the block totals, and adding
/// each block's combined offset to its elements gives the scan of the
/// whole input.
pub proof fn lemma_blocked_scan(s: Seq<u32>, b: int)
    requires
        b > 0,
        s.len() as int % b == 0,
    ensures
        distributed(s, b) == exclusive_scan(s),
{
    assert forall|i: int| 0 <= i < s.len() implies #[trigger] distributed(s, b)[i]
        == exclusive_scan(s)[i] by {
        let q = i / b;
        let len = s.len() as int;
        lemma_fundamental_div_mod(i, b);
        lemma_fundamental_div_mod(len, b);
        assert(q * b == b * q) by (nonlinear_arith);
        assert((len / b) * b == b * (len / b)) by (nonlinear_arith);
        if q >= len / b {
            lemma_mul_inequality(len / b, q, b);
        }
        assert(i - i % b == q * b);
        lemma_blocks_prefix(s, b, q);
        lemma_sum_split(s, 0, q * b, i);
        assert(s.take(i) =~= s.subrange(0, i));
        assert(s.take(q * b) =~= s.subrange(0, q * b));
    }
    assert(distributed(s, b) =~= exclusive_scan(s));
}

/// Whether `n` is a power of two.
pub open spec fn is_pow2(n: int) -> bool
    decreases n,
{
    if n <= 0 {
        false
    } else if n == 1 {
        true
    } else {
        n % 2 == 0 && is_pow2(n / 2)
    }
}

/// `n` copies of one.
pub open spec fn all_ones(n: nat) -> Seq<u32> {
    Seq::new(n, |i: int| 1u32)
}

proof fn lemma_sum_ones(n: nat)
    ensures
        sum(all_ones(n)) == n,
    decreases n,
{
    if n > 0 {
        assert(all_ones(n).drop_last() =~= all_ones((n - 1) as nat));
        lemma_sum_ones((n - 1) as nat);
    }
}

/// With an input of ones, split into blocks of `b` with `b` dividing the
/// power of two `n`, the two dispatches with the combine step between them
/// write `i` at every position `i`. Where every index fits the 32-bit
/// payload, the host pipeline `blocked_exclusive_scan` accepts that input.
pub proof fn lemma_all_ones_pipeline(n: nat, b: int)
    requires
        is_pow2(n as int),
        b > 0,
        n as int % b == 0,
    ensures
        distributed(all_ones(n), b) == exclusive_scan(all_ones(n)),
        forall|i: int| 0 <= i < n ==> #[trigger] distributed(all_ones(n), b)[i] == i,
        n <= u32::MAX + 1 && b <= u32::MAX ==> scan_fits(all_ones(n)) && forall|k: int|
            0 <= k < n as int / b ==> #[trigger] block_total(all_ones(n), b, k) <= u32::MAX,
{
    lemma_blocked_scan(all_ones(n), b);
    assert forall|i: int| 0 <= i < n implies #[trigger] distributed(all_ones(n), b)[i] == i by {
        assert(all_ones(n).take(i) =~= all_ones(i as nat));
        lemma_sum_ones(i as nat);
    }
    if n <= u32::MAX + 1 && b <= u32::MAX {
        assert(all_ones(n).drop_last() =~= all_ones((n - 1) as nat));
        lemma_sum_ones((n - 1) as nat);
        assert forall|k: int| 0 <= k < n as int / b implies #[trigger] block_total(all_ones(n), b, k)
            <= u32::MAX by {
            lemma_fundamental_div_mod(n as int, b);
            assert((n as int / b) * b == b * (n as int / b)) by (nonlinear_arith);
            lemma_mul_inequality(k + 1, n as int / b, b);
            assert((k + 1) * b == k * b + b) by (nonlinear_arith);
            assert(k * b >= 0) by (nonlinear_arith)
                requires
                    k >= 0,
                    b > 0,
            ;
            assert(all_ones(n).subrange(k * b, k * b + b) =~= all_ones(b as nat));
            lemma_sum_ones(b as nat);
        }
    }
}

/// Runs the scan pipeline on the host, block by block: each block of `b`
/// elements is scanned on its own while its total is recorded, the totals
/// are combined by an exclusive scan, and each block's combined offset is
/// added to its elements. The result is the exclusive scan of `data`.
pub fn blocked_exclusive_scan(data: &Vec<u32>, b: usize) -> (r: Vec<u32>)
    requires
        b > 0,
        data@.len() as int % (b as int) == 0,
        scan_fits(data@),
        forall|k: int|
            0 <= k < data@.len() as int / (b as int) ==> #[trigger] block_total(data@, b as int, k)
                <= u32::MAX,
    ensures
        r@.len() == data@.len(),
        forall|i: int| 0 <= i < data@.len() ==> r@[i] == exclusive_scan(data@)[i],
        forall|i: int| 0 <= i < data@.len() ==> r@[i] == distributed(data@, b as int)[i],
{
    let ghost s = data@;
    let ghost bi = b as int;
    let n = data.len();
    let m = n / b;
    proof {
        lemma_fundamental_div_mod(n as int, bi);
        assert(s.subrange(0, n as int) =~= s);
        assert(m * b == b * m) by (nonlinear_arith);
        lemma_fundamental_div_mod_converse_mod(n as int, bi, m as int, 0);
    }
    let mut locals: Vec<u32> = Vec::new();
    let mut sums: Vec<u32> = Vec::new();
    let mut base: usize = 0;
    let mut k: usize = 0;
    while k < m
        invariant
            s == data@,
            n == s.len(),
            m == n / b,
            n == m * b,
            bi == b as int,
            b > 0,
            k <= m,
            base == k * b,
            scan_fits(s),
            forall|q: int| 0 <= q < m ==> #[trigger] block_total(s, bi, q) <= u32::MAX,
            s.subrange(0, n as int) == s,
            locals@.len() == base,
            sums@.len() == k,
            forall|i: int| 0 <= i < base ==> locals@[i] == #[trigger] local_scan(s, bi)[i],
            forall|j: int| 0 <= j < k ==> sums@[j] == #[trigger] block_total(s, bi, j),
        decreases m - k,
    {
        proof {
            lemma_mul_inequality(k as int + 1, m as int, bi);
            assert((k as int + 1) * bi == k * bi + bi) by (nonlinear_arith);
            assert(block_total(s, bi, k as int) <= u32::MAX);
        }
        let mut acc: u32 = 0;
        let mut j: usize = 0;
        while j < b
            invariant
                s == data@,
                n == s.len(),
                bi == b as int,
                b > 0,
                base + b <= n,
                base == k * b,
                j <= b,
                sum(s.subrange(base as int, base + b)) <= u32::MAX,
                s.subrange(0, n as int) == s,
                acc == sum(s.subrange(base as int, base + j)),
                locals@.len() == base + j,
                forall|i: int| 0 <= i < base + j ==> locals@[i] == #[trigger] local_scan(s, bi)[i],
            decreases b - j,
        {
            proof {
                let i = base + j;
                lemma_fundamental_div_mod_converse_mod(i, bi, k as int, j as int);
                assert(k * bi == base);
            }
            locals.push(acc);
            proof {
                assert(s.subrange(base as int, base + j + 1).drop_last() =~= s.subrange(
                    base as int,
                    base + j,
                ));
                lemma_sum_within(s, base as int, base as int, base + j + 1, base + b);
            }
            acc = acc + data[base + j];
            j = j + 1;
        }
        sums.push(acc);
        base = base + b;
        k = k + 1;
    }
    proof {
        lemma_blocks_prefix(s, bi, m as int);
        assert(s.take(n as int) =~= s);
        assert(block_sums(s, bi).take(m as int) =~= block_sums(s, bi));
        assert(sums@.map_values(|x: u32| x as int) =~= block_sums(s, bi));
        lemma_isum_of_u32(sums@);
        if m > 0 {
            let mm = m - 1;
            assert(mm * bi == m * bi - bi) by (nonlinear_arith)
                requires
                    mm == m - 1,
            ;
            assert(mm * bi <= n - 1) by (nonlinear_arith)
                requires
                    mm * bi == m * bi - bi,
                    m * bi == n,
                    bi > 0,
            ;
            assert(mm * bi >= 0) by (nonlinear_arith)
                requires
                    mm >= 0,
                    bi > 0,
            ;
            lemma_blocks_prefix(s, bi, mm);
            assert(sums@.drop_last().map_values(|x: u32| x as int) =~= block_sums(s, bi).take(mm));
            lemma_isum_of_u32(sums@.drop_last());
            lemma_sum_within(s, 0, 0, mm * bi, n - 1);
            assert(s.take(mm * bi) =~= s.subrange(0, mm * bi));
            assert(s.drop_last() =~= s.subrange(0, n - 1));
        }
    }
    let ghost totals = sums@;
    inplace_exclusive_prefix_sum(&mut sums);
    let mut out: Vec<u32> = Vec::new();
    let mut i: usize = 0;
    while i < n
        invariant
            s == data@,
            n == s.len(),
            m == n / b,
            n == m * b,
            bi == b as int,
            b > 0,
            scan_fits(s),
            s.len() as int % bi == 0,
            s.subrange(0, n as int) == s,
            locals@.len() == n,
            sums@.len() == m,
            totals.map_values(|x: u32| x as int) == block_sums(s, bi),
            forall|i: int| 0 <= i < n ==> locals@[i] == #[trigger] local_scan(s, bi)[i],
            forall|j: int| 0 <= j < m ==> sums@[j] == #[trigger] exclusive_scan(totals)[j],
            out@.len() == i,
            i <= n,
            forall|j: int| 0 <= j < i ==> out@[j] == #[trigger] distributed(s, bi)[j],
        decreases n - i,
    {
        let q = i / b;
        proof {
            let qi = q as int;
            lemma_fundamental_div_mod(i as int, bi);
            assert(qi * bi == bi * qi) by (nonlinear_arith);
            if qi >= m {
                lemma_mul_inequality(m as int, qi, bi);
            }
            lemma_blocked_scan(s, bi);
            let bs = block_sums(s, bi);
            assert(totals.map_values(|x: u32| x as int).take(qi) =~= totals.take(qi).map_values(
                |x: u32| x as int,
            ));
            lemma_isum_of_u32(totals.take(qi));
            assert(qi < m);
            assert(exclusive_scan(totals)[qi] == sum(totals.take(qi)));
            assert(sums@[qi] == sum(totals.take(qi)));
            assert(int_exclusive_scan(bs)[qi] == isum(bs.take(qi)));
            assert(sums@[qi] == int_exclusive_scan(bs)[qi]);
            assert(distributed(s, bi)[i as int] == locals@[i as int] + sums@[qi]);
            assert(s.take(i as int) =~= s.subrange(0, i as int));
            lemma_sum_within(s, 0, 0, i as int, n - 1);
            assert(s.drop_last() =~= s.subrange(0, n - 1));
            assert(distributed(s, bi)[i as int] == exclusive_scan(s)[i as int]);
        }
        out.push(locals[i] + sums[q]);
        i = i + 1;
    }
    proof {
        lemma_blocked_scan(s, bi);
    }
    out
}

/// Summing `u32`s as integers gives the same total.
proof fn lemma_isum_of_u32(u: Seq<u32>)
    ensures
        isum(u.map_values(|x: u32| x as int)) == sum(u),
    decreases u.len(),
{
    if u.len() > 0 {
        assert(u.map_values(|x: u32| x as int).drop_last() =~= u.drop_last().map_values(
            |x: u32| x as int,
        ));
        lemma_isum_of_u32(u.drop_last());
    }
}

} // verus!
