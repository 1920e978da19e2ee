//! Index arithmetic and permutation facts that do not depend on any ordering.
use vstd::prelude::*;

verus! {

/// The mathematical integer that a machine index denotes.
#[verifier::inline]
pub open spec fn ix(i: usize) -> int {
    i as int
}

/// The length of a sequence, as an integer.
#[verifier::inline]
pub open spec fn len_of<A>(s: Seq<A>) -> int {
    s.len() as int
}

/// The sequence `lo, lo + 1, ..., hi - 1` of machine indices.
pub open spec fn index_range(lo: int, hi: int) -> Seq<usize> {
    Seq::new((hi - lo) as nat, |k: int| (lo + k) as usize)
}

/// `p` lists every index below `n` exactly once.
pub open spec fn is_index_permutation(p: Seq<usize>, n: int) -> bool {
    &&& p.len() == n
    &&& forall|k: int| 0 <= k < n ==> #[trigger] p[k] < n
    &&& forall|k: int, l: int| 0 <= k < n && 0 <= l < n && k != l ==> #[trigger] p[k] != #[trigger] p[l]
}

/// Every entry of `s` between positions `lo` and `hi` lies in `[a, b)`.
pub open spec fn values_within(s: Seq<usize>, lo: int, hi: int, a: int, b: int) -> bool {
    forall|k: int| lo <= k < hi ==> a <= #[trigger] s[k] < b
}

/// `p2` agrees with `p1` everywhere outside positions `lo..hi`.
pub open spec fn same_outside(p1: Seq<usize>, p2: Seq<usize>, lo: int, hi: int) -> bool {
    &&& p1.len() == p2.len()
    &&& forall|k: int| 0 <= k < p1.len() && !(lo <= k < hi) ==> #[trigger] p2[k] == p1[k]
}

/// Copies `p[src..src + count]` to `p[dst..dst + count]`, front to back, where `dst <= src`.
pub fn copy_forward(p: &mut Vec<usize>, src: usize, dst: usize, count: usize)
    requires
        dst <= src,
        src + count <= old(p)@.len(),
    ensures
        same_outside(old(p)@, final(p)@, ix(dst), dst + count),
        forall|i: int| 0 <= i < count ==> #[trigger] final(p)@[dst + i] == old(p)@[src + i],
        final(p)@.subrange(ix(dst), dst + count) == old(p)@.subrange(ix(src), src + count),
{
    let len = p.len();
    let mut i: usize = 0;
    while i < count
        invariant
            dst <= src,
            src + count <= old(p)@.len(),
            i <= count,
            p@.len() == old(p)@.len(),
            len == p@.len(),
            same_outside(old(p)@, p@, ix(dst), dst + i),
            forall|t: int| 0 <= t < i ==> #[trigger] p@[dst + t] == old(p)@[src + t],
        decreases count - i,
    {
        let x = p[src + i];
        p[dst + i] = x;
        i += 1;
    }
    assert forall|t: int| 0 <= t < count implies #[trigger] p@.subrange(ix(dst), dst + count)[t] == old(p)@.subrange(ix(src), src + count)[t] by {
        assert(p@[dst + t] == old(p)@[src + t]);
    }
    assert(p@.subrange(ix(dst), dst + count) =~= old(p)@.subrange(ix(src), src + count));
}

/// Copies `p[src..src + count]` to `p[dst..dst + count]`, back to front, where `src <= dst`.
pub fn copy_backward(p: &mut Vec<usize>, src: usize, dst: usize, count: usize)
    requires
        src <= dst,
        dst + count <= old(p)@.len(),
    ensures
        same_outside(old(p)@, final(p)@, ix(dst), dst + count),
        forall|i: int| 0 <= i < count ==> #[trigger] final(p)@[dst + i] == old(p)@[src + i],
        final(p)@.subrange(ix(dst), dst + count) == old(p)@.subrange(ix(src), src + count),
{
    let len = p.len();
    let mut i: usize = count;
    while i > 0
        invariant
            src <= dst,
            dst + count <= old(p)@.len(),
            i <= count,
            p@.len() == old(p)@.len(),
            len == p@.len(),
            same_outside(old(p)@, p@, dst + i, dst + count),
            forall|t: int| i <= t < count ==> #[trigger] p@[dst + t] == old(p)@[src + t],
        decreases i,
    {
        let x = p[src + i - 1];
        p[dst + i - 1] = x;
        i -= 1;
    }
    assert forall|t: int| 0 <= t < count implies #[trigger] p@.subrange(ix(dst), dst + count)[t] == old(p)@.subrange(ix(src), src + count)[t] by {
        assert(p@[dst + t] == old(p)@[src + t]);
    }
    assert(p@.subrange(ix(dst), dst + count) =~= old(p)@.subrange(ix(src), src + count));
}

/// Copies `from[src..src + count]` to `p[dst..dst + count]`.
pub fn copy_from(p: &mut Vec<usize>, dst: usize, from: &Vec<usize>, src: usize, count: usize)
    requires
        src + count <= from@.len(),
        dst + count <= old(p)@.len(),
    ensures
        same_outside(old(p)@, final(p)@, ix(dst), dst + count),
        forall|i: int| 0 <= i < count ==> #[trigger] final(p)@[dst + i] == from@[src + i],
        final(p)@.subrange(ix(dst), dst + count) == from@.subrange(ix(src), src + count),
{
    let len = p.len();
    let from_len = from.len();
    let mut i: usize = 0;
    while i < count
        invariant
            src + count <= from@.len(),
            dst + count <= old(p)@.len(),
            i <= count,
            p@.len() == old(p)@.len(),
            len == p@.len(),
            from_len == from@.len(),
            same_outside(old(p)@, p@, ix(dst), dst + i),
            forall|t: int| 0 <= t < i ==> #[trigger] p@[dst + t] == from@[src + t],
        decreases count - i,
    {
        let x = from[src + i];
        p[dst + i] = x;
        i += 1;
    }
    assert forall|t: int| 0 <= t < count implies #[trigger] p@.subrange(ix(dst), dst + count)[t] == from@.subrange(ix(src), src + count)[t] by {
        assert(p@[dst + t] == from@[src + t]);
    }
    assert(p@.subrange(ix(dst), dst + count) =~= from@.subrange(ix(src), src + count));
}

/// A stack of runs `(base, length)` with the runs at `i` and `i + 1` joined into one.
pub open spec fn join_runs_at(runs: Seq<(usize, usize)>, i: int) -> Seq<(usize, usize)> {
    runs.update(i, (runs[i].0, (runs[i].1 + runs[i + 1].1) as usize)).remove(i + 1)
}

} // verus!
