//! Stream compaction with the predicate "value is even": the 0/1
//! indicator, the write offsets that its exclusive scan gives, the dense
//! stable output, and the kept count read back from a finished run.

use vstd::prelude::*;
use crate::scan::{exclusive_scan, lemma_sum_nonneg, prefix_sum, scan_fits, sum};

verus! {

/// The compaction predicate.
pub open spec fn keep(x: u32) -> bool {
    x % 2 == 0
}

/// The 0/1 indicator of the predicate, element by element.
pub open spec fn indicator(s: Seq<u32>) -> Seq<u32> {
    s.map_values(|x: u32| if keep(x) { 1u32 } else { 0u32 })
}

/// The elements of `s` that satisfy the predicate, in their original order.
pub open spec fn kept(s: Seq<u32>) -> Seq<u32>
    decreases s.len(),
{
    if s.len() == 0 {
        Seq::<u32>::empty()
    } else if keep(s.last()) {
        kept(s.drop_last()).push(s.last())
    } else {
        kept(s.drop_last())
    }
}

/// The inputs `1, 2, ..., n`.
pub open spec fn naturals(n: nat) -> Seq<u32> {
    Seq::new(n, |i: int| (i + 1) as u32)
}

/// The even numbers `2, 4, ..., 2 * (n / 2)`.
pub open spec fn evens_up_to(n: nat) -> Seq<u32> {
    Seq::new(n / 2, |k: int| (2 * k + 2) as u32)
}

/// Counting the indicator counts the kept elements.
pub proof fn lemma_indicator_counts(s: Seq<u32>)
    ensures
        sum(indicator(s)) == kept(s).len(),
        kept(s).len() <= s.len(),
    decreases s.len(),
{
    if s.len() > 0 {
        assert(indicator(s).drop_last() =~= indicator(s.drop_last()));
        lemma_indicator_counts(s.drop_last());
    }
}

/// Compacting `1..=n` by "even" keeps `n / 2` elements: the even numbers,
/// in increasing order.
pub proof fn lemma_compact_naturals(n: nat)
    requires
        n <= u32::MAX,
    ensures
        kept(naturals(n)).len() == n / 2,
        kept(naturals(n)) == evens_up_to(n),
    decreases n,
{
    if n == 0 {
        assert(evens_up_to(0) =~= Seq::<u32>::empty());
    } else {
        let m = (n - 1) as nat;
        assert(naturals(n).drop_last() =~= naturals(m));
        lemma_compact_naturals(m);
        if n % 2 == 0 {
            assert(evens_up_to(n) =~= evens_up_to(m).push(n as u32));
        } else {
            assert(evens_up_to(n) =~= evens_up_to(m));
        }
    }
}

/// The 0/1 indicator of the predicate over `data`.
pub fn even_indicators(data: &Vec<u32>) -> (r: Vec<u32>)
    ensures
        r@ == indicator(data@),
{
    let mut r: Vec<u32> = Vec::new();
    let mut i: usize = 0;
    while i < data.len()
        invariant
            i <= data.len(),
            r@ == indicator(data@.take(i as int)),
        decreases data.len() - i,
    {
        r.push(if data[i] % 2 == 0 { 1 } else { 0 });
        i = i + 1;
        assert(indicator(data@.take(i as int)) =~= r@);
    }
    assert(data@.take(i as int) =~= data@);
    r
}

/// The write offset of each element: how many elements before it are kept.
pub fn compaction_offsets(data: &Vec<u32>) -> (r: Vec<u32>)
    requires
        data@.len() <= u32::MAX,
    ensures
        r@.len() == data@.len(),
        forall|i: int| 0 <= i < data@.len() ==> r@[i] == exclusive_scan(indicator(data@))[i],
        forall|i: int| 0 <= i < data@.len() ==> r@[i] == kept(data@.take(i)).len(),
{
    let flags = even_indicators(data);
    proof {
        if data@.len() > 0 {
            assert(indicator(data@).drop_last() =~= indicator(data@.drop_last()));
            lemma_indicator_counts(data@.drop_last());
        }
    }
    let r = prefix_sum(flags);
    proof {
        assert forall|i: int| 0 <= i < data@.len() implies r@[i] == kept(data@.take(i)).len() by {
            assert(indicator(data@).take(i) =~= indicator(data@.take(i)));
            lemma_indicator_counts(data@.take(i));
        }
    }
    r
}

/// The elements of `data` that are even, in their original order: each kept
/// element is written at its offset.
pub fn compact_even(data: &Vec<u32>) -> (r: Vec<u32>)
    requires
        data@.len() <= u32::MAX,
    ensures
        r@ == kept(data@),
{
    let offsets = compaction_offsets(data);
    let mut out: Vec<u32> = Vec::new();
    let mut i: usize = 0;
    while i < data.len()
        invariant
            i <= data.len(),
            data@.len() <= u32::MAX,
            offsets@.len() == data@.len(),
            forall|j: int| 0 <= j < data@.len() ==> offsets@[j] == #[trigger] kept(data@.take(j)).len(),
            out@ == kept(data@.take(i as int)),
        decreases data.len() - i,
    {
        assert(data@.take(i + 1).drop_last() =~= data@.take(i as int));
        if data[i] % 2 == 0 {
            assert(offsets@[i as int] == kept(data@.take(i as int)).len());
            let at = offsets[i] as usize;
            assert(at == out.len());
            out.push(data[i]);
        }
        i = i + 1;
    }
    assert(data@.take(i as int) =~= data@);
    out
}

/// Index of the last 1 in `results`, if any.
pub open spec fn last_one(results: Seq<u32>) -> Option<int>
    decreases results.len(),
{
    if results.len() == 0 {
        None
    } else if results.last() == 1 {
        Some(results.len() - 1)
    } else {
        last_one(results.drop_last())
    }
}

/// The kept count read back from a finished run: the offset of the last
/// kept element plus one, or 0 where none is kept.
pub open spec fn read_count(results: Seq<u32>, offsets: Seq<u32>) -> int {
    match last_one(results) {
        Some(i) => offsets[i] + 1,
        None => 0,
    }
}

proof fn lemma_last_one_bounds(results: Seq<u32>)
    ensures
        last_one(results) matches Some(i) ==> 0 <= i < results.len() && results[i] == 1,
    decreases results.len(),
{
    if results.len() > 0 && results.last() != 1 {
        lemma_last_one_bounds(results.drop_last());
    }
}

/// Reads the kept count back from the per-element 0/1 results and their
/// offsets, scanning from the end for the last kept element.
pub fn compacted_len(results: &Vec<u32>, offsets: &Vec<u32>) -> (r: u64)
    requires
        results@.len() == offsets@.len(),
    ensures
        r == read_count(results@, offsets@),
{
    let mut i = results.len();
    assert(results@.take(i as int) =~= results@);
    while i > 0
        invariant
            i <= results.len(),
            results@.len() == offsets@.len(),
            last_one(results@) == last_one(results@.take(i as int)),
        decreases i,
    {
        assert(results@.take(i as int).drop_last() =~= results@.take(i - 1));
        if results[i - 1] == 1 {
            return offsets[i - 1] as u64 + 1;
        }
        i = i - 1;
    }
    assert(results@.take(0) =~= Seq::<u32>::empty());
    0
}

/// Where the offsets are the exclusive scan of 0/1 results, the count read
/// back is the number of ones.
pub proof fn lemma_read_count(results: Seq<u32>, offsets: Seq<u32>)
    requires
        results.len() == offsets.len(),
        forall|i: int| 0 <= i < results.len() ==> results[i] == 0 || results[i] == 1,
        forall|i: int| 0 <= i < results.len() ==> offsets[i] == exclusive_scan(results)[i],
    ensures
        read_count(results, offsets) == sum(results),
    decreases results.len(),
{
    lemma_last_one_bounds(results);
    if results.len() > 0 {
        let r0 = results.drop_last();
        if results.last() == 1 {
            assert(results.take(results.len() - 1) =~= r0);
        } else {
            assert forall|i: int| 0 <= i < r0.len() implies offsets.drop_last()[i]
                == exclusive_scan(r0)[i] by {
                assert(results.take(i) =~= r0.take(i));
            }
            lemma_read_count(r0, offsets.drop_last());
            lemma_last_one_bounds(r0);
        }
    }
}

} // verus!
