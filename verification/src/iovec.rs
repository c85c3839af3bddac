//! Bookkeeping for positional vectored I/O.
//!
//! A gathered write hands the kernel a list of slices and may complete only
//! partially. The retry loop must then resume from the first unwritten byte,
//! which may lie in the middle of a slice: the advance must skip whole
//! slices already written and step past the written part of the next one,
//! not just whole slices.

use vstd::prelude::*;

verus! {

/// The total length of the first `k` slices.
pub open spec fn prefix_total(lens: Seq<usize>, k: int) -> int
    decreases k,
{
    if k <= 0 {
        0
    } else {
        prefix_total(lens, k - 1) + lens[k - 1]
    }
}

/// Prefix totals never shrink as the prefix grows.
pub proof fn lemma_prefix_total_mono(lens: Seq<usize>, a: int, b: int)
    requires
        0 <= a <= b <= lens.len(),
    ensures
        prefix_total(lens, a) <= prefix_total(lens, b),
    decreases b,
{
    if a < b {
        lemma_prefix_total_mono(lens, a, b - 1);
    }
}

/// Where to resume a gathered write of slices with lengths `lens` after `n`
/// bytes have completed: the count of slices that are fully written, and how
/// many bytes of the next slice are already written. A slice is counted as
/// fully written only when the following byte also lies within `n`, so a
/// partially written slice is stepped into, never skipped.
pub fn iov_advance(lens: &Vec<usize>, n: usize) -> (r: (usize, usize))
    requires
        n <= prefix_total(lens@, lens@.len() as int),
        prefix_total(lens@, lens@.len() as int) <= usize::MAX,
    ensures
        r.0 <= lens@.len(),
        prefix_total(lens@, r.0 as int) <= n,
        r.1 == n - prefix_total(lens@, r.0 as int),
        r.0 < lens@.len() ==> n < prefix_total(lens@, r.0 as int) + lens@[r.0 as int],
        r.0 == lens@.len() ==> r.1 == 0,
{
    let mut idx: usize = 0;
    let mut acc: usize = 0;
    while idx < lens.len() && n - acc >= lens[idx]
        invariant
            idx <= lens@.len(),
            acc == prefix_total(lens@, idx as int),
            acc <= n,
            n <= prefix_total(lens@, lens@.len() as int),
            prefix_total(lens@, lens@.len() as int) <= usize::MAX,
        decreases lens@.len() - idx,
    {
        proof {
            lemma_prefix_total_mono(lens@, idx + 1, lens@.len() as int);
        }
        acc = acc + lens[idx];
        idx = idx + 1;
    }
    (idx, n - acc)
}

} // verus!
