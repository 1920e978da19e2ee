//! The top sorting algorithm: a merge sort over natural runs. Runs that are
//! too short are extended by insertion, pushed on a stack and merged so that
//! the stack stays short and merges stay balanced.
use vstd::prelude::*;
use core::cmp::Ordering;
use vstd::seq_lib::lemma_multiset_commutative;
use crate::index::{ix, len_of, index_range, is_index_permutation, values_within, same_outside, copy_backward, join_runs_at};
use crate::order::{
    callable_on, is_order_on, is_total_preorder_on, key_lt, le, lt, is_stable_run, is_stable_sort_of,
    sorts_stably, lemma_key_lt_total, lemma_flip, lemma_trans, lemma_stable_sort_witness,
};
use crate::gallop::{Mode, gallop_right, lemma_stable_run_sorted};
use crate::merge::{merge_runs, merge_inputs_ok, positions_below};
use crate::permute::{lemma_multiset_forall, lemma_range_multiset_is_permutation, identity_indices, apply_permutation};

verus! {

broadcast use vstd::seq_lib::group_to_multiset_ensures;

/// The shortest run worth merging for a slice of `n` items: `n` itself below
/// 64, else `n` halved until below 64, plus one if a bit shifted out was set.
pub open spec fn min_run_of(n: nat, carry: nat) -> nat
    decreases n,
{
    if n < 64 {
        n + carry
    } else {
        min_run_of(n / 2, if n % 2 == 1 { 1 } else { carry })
    }
}

/// Computes the shortest run worth merging for a slice of `n` items.
pub fn min_run_length(n: usize) -> (r: usize)
    ensures
        r == min_run_of(n as nat, 0),
        n < 64 ==> r == n,
        n >= 64 ==> 32 <= r <= 64,
{
    let mut m = n;
    let mut carry: usize = 0;
    while m >= 64
        invariant
            carry <= 1,
            min_run_of(m as nat, carry as nat) == min_run_of(n as nat, 0),
            n >= 64 ==> m >= 32,
            n < 64 ==> m == n && carry == 0,
        decreases m,
    {
        if m % 2 == 1 {
            carry = 1;
        }
        m = m / 2;
    }
    m + carry
}

/// Positions `p[b..e]` hold exactly the positions `b..e`.
pub open spec fn run_shape(p: Seq<usize>, b: int, e: int) -> bool {
    &&& 0 <= b <= e <= p.len()
    &&& p.subrange(b, e).to_multiset() == index_range(b, e).to_multiset()
    &&& values_within(p, b, e, b, e)
}

/// Positions `p[lo..hi]` are still in their first arrangement.
pub open spec fn untouched_from(p: Seq<usize>, lo: int, hi: int) -> bool {
    forall|k: int| lo <= k < hi ==> #[trigger] p[k] == k
}

/// Finds the run that starts at `lo`: the longest stretch in non-decreasing
/// order, or in strictly decreasing order, which is then reversed.
fn count_run<T, C: Fn(&T, &T) -> Ordering>(v: &[T], p: &mut Vec<usize>, lo: usize, hi: usize, c: &C) -> (len: usize)
    requires
        lo < hi <= old(p)@.len(),
        old(p)@.len() == v@.len(),
        untouched_from(old(p)@, ix(lo), ix(hi)),
        positions_below(old(p)@, len_of(v@)),
        callable_on(*c, v@),
    ensures
        1 <= len <= hi - lo,
        same_outside(old(p)@, final(p)@, ix(lo), lo + len),
        positions_below(final(p)@, len_of(v@)),
        run_shape(final(p)@, ix(lo), lo + len),
        forall|f: spec_fn(T, T) -> Ordering| #[trigger] is_order_on(*c, f, v@) ==> is_stable_run(v@, f, final(p)@, ix(lo), lo + len),
{
    let ghost p0 = p@;
    if lo + 1 == hi {
        proof {
            assert(p@.subrange(ix(lo), lo + 1) =~= index_range(ix(lo), lo + 1));
        }
        return 1;
    }
    let mut end = lo + 2;
    let first = c(&v[lo + 1], &v[lo]);
    let descending = match first {
        Ordering::Less => true,
        _ => false,
    };
    if descending {
        while end < hi
            invariant
                lo + 2 <= end <= hi,
                hi <= v@.len(),
                callable_on(*c, v@),
                forall|f: spec_fn(T, T) -> Ordering| #[trigger] is_order_on(*c, f, v@)
                    ==> forall|i: int, j: int| lo <= i < j < end ==> lt(f, #[trigger] v@[j], #[trigger] v@[i]),
            decreases hi - end,
        {
            let o = c(&v[end], &v[end - 1]);
            match o {
                Ordering::Less => {},
                _ => break,
            }
            proof {
                assert forall|f: spec_fn(T, T) -> Ordering| #[trigger] is_order_on(*c, f, v@)
                    implies forall|i: int, j: int| lo <= i < j < end + 1 ==> lt(f, #[trigger] v@[j], #[trigger] v@[i]) by {
                    assert(lt(f, v@[ix(end)], v@[end - 1]));
                    assert forall|i: int, j: int| lo <= i < j < end + 1 implies lt(f, #[trigger] v@[j], #[trigger] v@[i]) by {
                        if j == end && i < end - 1 {
                            assert(lt(f, v@[end - 1], v@[i]));
                            lemma_trans(v@, f, j, end - 1, i);
                        }
                    }
                }
            }
            end += 1;
        }
        // Reverse the strictly decreasing run in place.
        let mut t: usize = 0;
        while t < end - lo
            invariant
                lo + 2 <= end <= hi <= p@.len(),
                p@.len() == p0.len(),
                t <= end - lo,
                forall|k: int| 0 <= k < p@.len() && !(lo <= k < lo + t) ==> #[trigger] p@[k] == p0[k],
                forall|u: int| 0 <= u < t ==> #[trigger] p@[lo + u] == end - 1 - u,
            decreases end - lo - t,
        {
            p[lo + t] = end - 1 - t;
            t += 1;
        }
        proof {
            let r = index_range(ix(lo), ix(end));
            assert forall|u: int| 0 <= u < end - lo implies #[trigger] p@.subrange(ix(lo), ix(end))[u] == r.reverse()[u] by {
                assert(p@[lo + u] == end - 1 - u);
            }
            assert(p@.subrange(ix(lo), ix(end)) =~= r.reverse());
            assert forall|k: int| lo <= k < end implies lo <= #[trigger] p@[k] < end by {
                assert(p@[lo + (k - lo)] == end - 1 - (k - lo));
            }
            r.lemma_reverse_to_multiset();
            assert forall|f: spec_fn(T, T) -> Ordering| #[trigger] is_order_on(*c, f, v@)
                implies is_stable_run(v@, f, p@, ix(lo), ix(end)) by {
                assert forall|k: int, l: int| lo <= k < l < end implies key_lt(v@, f, #[trigger] p@[k], #[trigger] p@[l]) by {
                    assert(p@[lo + (k - lo)] == end - 1 - (k - lo));
                    assert(p@[lo + (l - lo)] == end - 1 - (l - lo));
                    let a = end - 1 - (k - lo);
                    let b = end - 1 - (l - lo);
                    assert(lt(f, v@[a], v@[b]));
                    lemma_key_lt_total(v@, f, p@[l], p@[k]);
                }
            }
        }
    } else {
        proof {
            assert forall|f: spec_fn(T, T) -> Ordering| #[trigger] is_order_on(*c, f, v@)
                implies forall|i: int, j: int| lo <= i < j < lo + 2 ==> le(f, #[trigger] v@[i], #[trigger] v@[j]) by {
                assert(first == f(v@[lo + 1], v@[ix(lo)]));
                lemma_flip(v@, f, ix(lo), lo + 1);
            }
        }
        while end < hi
            invariant
                lo + 2 <= end <= hi,
                hi <= v@.len(),
                callable_on(*c, v@),
                forall|f: spec_fn(T, T) -> Ordering| #[trigger] is_order_on(*c, f, v@)
                    ==> forall|i: int, j: int| lo <= i < j < end ==> le(f, #[trigger] v@[i], #[trigger] v@[j]),
            decreases hi - end,
        {
            let o = c(&v[end], &v[end - 1]);
            match o {
                Ordering::Less => break,
                _ => {},
            }
            proof {
                assert forall|f: spec_fn(T, T) -> Ordering| #[trigger] is_order_on(*c, f, v@)
                    implies forall|i: int, j: int| lo <= i < j < end + 1 ==> le(f, #[trigger] v@[i], #[trigger] v@[j]) by {
                    lemma_flip(v@, f, end - 1, ix(end));
                    assert forall|i: int, j: int| lo <= i < j < end + 1 implies le(f, #[trigger] v@[i], #[trigger] v@[j]) by {
                        if j == end && i < end - 1 {
                            assert(le(f, v@[i], v@[end - 1]));
                            lemma_trans(v@, f, i, end - 1, j);
                        }
                    }
                }
            }
            end += 1;
        }
        proof {
            assert(p@.subrange(ix(lo), ix(end)) =~= index_range(ix(lo), ix(end)));
            assert forall|f: spec_fn(T, T) -> Ordering| #[trigger] is_order_on(*c, f, v@)
                implies is_stable_run(v@, f, p@, ix(lo), ix(end)) by {
                assert forall|k: int, l: int| lo <= k < l < end implies key_lt(v@, f, #[trigger] p@[k], #[trigger] p@[l]) by {
                    assert(p@[k] == k && p@[l] == l);
                    assert(le(f, v@[k], v@[l]));
                    lemma_key_lt_total(v@, f, p@[k], p@[l]);
                }
            }
        }
    }
    end - lo
}

/// Inserting position `i` at `pos` into `q0[lo..i]` keeps it holding exactly its positions.
proof fn lemma_insert_shape(q0: Seq<usize>, q1: Seq<usize>, lo: int, pos: int, i: int)
    requires
        0 <= lo <= pos <= i < q0.len(),
        i <= usize::MAX,
        q1.len() == q0.len(),
        run_shape(q0, lo, i),
        forall|k: int| lo <= k < pos ==> #[trigger] q1[k] == q0[k],
        q1[pos] == i,
        forall|k: int| pos < k <= i ==> #[trigger] q1[k] == q0[k - 1],
    ensures
        run_shape(q1, lo, i + 1),
{
    let x = q1[pos];
    let left = q0.subrange(lo, pos);
    let right = q0.subrange(pos, i);
    assert(q1.subrange(lo, i + 1) =~= left + seq![x] + right);
    assert(q0.subrange(lo, i) =~= left + right);
    assert(index_range(lo, i + 1) =~= index_range(lo, i).push(x));
    lemma_multiset_commutative(left, seq![x]);
    lemma_multiset_commutative(left + seq![x], right);
    lemma_multiset_commutative(left, right);
    assert(q1.subrange(lo, i + 1).to_multiset() =~= q0.subrange(lo, i).to_multiset().insert(x));
    assert forall|k: int| lo <= k < i + 1 implies lo <= #[trigger] q1[k] < i + 1 by {
        if k > pos {
            assert(q1[k] == q0[k - 1]);
        }
    }
}

/// Inserting position `i` at `pos` into the stable run `q0[lo..i]`, after the
/// items that come no later than it and before those that come after it,
/// extends the run.
proof fn lemma_insert_sorted<T>(v: Seq<T>, f: spec_fn(T, T) -> Ordering, q0: Seq<usize>, q1: Seq<usize>, lo: int, pos: int, i: int)
    requires
        is_total_preorder_on(f, v),
        0 <= lo <= pos <= i < q0.len(),
        i < v.len(),
        values_within(q0, lo, i, lo, i),
        is_stable_run(v, f, q0, lo, i),
        forall|k: int| lo <= k < pos ==> #[trigger] q1[k] == q0[k],
        q1[pos] == i,
        forall|k: int| pos < k <= i ==> #[trigger] q1[k] == q0[k - 1],
        forall|k: int| lo <= k < pos ==> le(f, v[ix(#[trigger] q0[k])], v[i]),
        forall|k: int| pos <= k < i ==> !le(f, v[ix(#[trigger] q0[k])], v[i]),
    ensures
        is_stable_run(v, f, q1, lo, i + 1),
{
    let x = q1[pos];
    assert forall|k: int, l: int| lo <= k < l < i + 1 implies key_lt(v, f, #[trigger] q1[k], #[trigger] q1[l]) by {
        if l < pos {
            assert(key_lt(v, f, q0[k], q0[l]));
        } else if l == pos {
            assert(le(f, v[ix(q0[k])], v[i]));
            assert(q0[k] < i);
            lemma_key_lt_total(v, f, q0[k], x);
        } else if k < pos {
            assert(q1[l] == q0[l - 1]);
            assert(key_lt(v, f, q0[k], q0[l - 1]));
        } else if k == pos {
            assert(q1[l] == q0[l - 1]);
            assert(!le(f, v[ix(q0[l - 1])], v[i]));
            assert(q0[l - 1] < i);
            lemma_key_lt_total(v, f, q0[l - 1], x);
            lemma_flip(v, f, ix(q0[l - 1]), i);
        } else {
            assert(q1[k] == q0[k - 1] && q1[l] == q0[l - 1]);
            assert(key_lt(v, f, q0[k - 1], q0[l - 1]));
        }
    }
}

/// Extends the run `p[lo..start]` to `p[lo..end]`, inserting each following
/// item after the items of the run that come no later than it.
fn extend_run<T, C: Fn(&T, &T) -> Ordering>(v: &[T], p: &mut Vec<usize>, lo: usize, start: usize, end: usize, c: &C)
    requires
        lo < start <= end <= old(p)@.len(),
        old(p)@.len() == v@.len(),
        run_shape(old(p)@, ix(lo), ix(start)),
        forall|f: spec_fn(T, T) -> Ordering| #[trigger] is_order_on(*c, f, v@) ==> is_stable_run(v@, f, old(p)@, ix(lo), ix(start)),
        untouched_from(old(p)@, ix(start), ix(end)),
        positions_below(old(p)@, len_of(v@)),
        callable_on(*c, v@),
    ensures
        same_outside(old(p)@, final(p)@, ix(lo), ix(end)),
        positions_below(final(p)@, len_of(v@)),
        run_shape(final(p)@, ix(lo), ix(end)),
        forall|f: spec_fn(T, T) -> Ordering| #[trigger] is_order_on(*c, f, v@) ==> is_stable_run(v@, f, final(p)@, ix(lo), ix(end)),
{
    let ghost p0 = p@;
    let mut i = start;
    while i < end
        invariant
            lo < start <= i <= end <= p@.len(),
            p@.len() == v@.len(),
            p0.len() == v@.len(),
            same_outside(p0, p@, ix(lo), ix(i)),
            untouched_from(p0, ix(start), ix(end)),
            positions_below(p0, len_of(v@)),
            positions_below(p@, len_of(v@)),
            run_shape(p@, ix(lo), ix(i)),
            forall|f: spec_fn(T, T) -> Ordering| #[trigger] is_order_on(*c, f, v@) ==> is_stable_run(v@, f, p@, ix(lo), ix(i)),
            callable_on(*c, v@),
        decreases end - i,
    {
        let ghost q0 = p@;
        let x = p[i];
        assert(x == i);
        let k = gallop_right(v, x, p, lo, i, Mode::Reverse, c);
        let pos = lo + k;
        copy_backward(p, pos, pos + 1, i - pos);
        p[pos] = x;
        proof {
            assert forall|t: int| pos < t <= i implies #[trigger] p@[t] == q0[t - 1] by {
                assert(p@[pos + 1 + (t - pos - 1)] == q0[pos + (t - pos - 1)]);
            }
            lemma_insert_shape(q0, p@, ix(lo), ix(pos), ix(i));
            assert forall|f: spec_fn(T, T) -> Ordering| #[trigger] is_order_on(*c, f, v@)
                implies is_stable_run(v@, f, p@, ix(lo), i + 1) by {
                lemma_stable_run_sorted(v@, f, q0, ix(lo), ix(i), ix(lo), ix(i));
                lemma_insert_sorted(v@, f, q0, p@, ix(lo), ix(pos), ix(i));
            }
            assert forall|t: int| 0 <= t < p@.len() implies #[trigger] p@[t] < v@.len() by {
                if lo <= t <= i {
                    assert(lo <= p@[t] < i + 1);
                } else {
                    assert(p@[t] == q0[t]);
                }
            }
        }
        i += 1;
    }
}

/// The stack of pending runs `(base, length)` tiles `p[0..pos]` in order, and
/// each run holds exactly its own positions.
pub open spec fn stack_shape(p: Seq<usize>, runs: Seq<(usize, usize)>, pos: int) -> bool {
    &&& runs.len() == 0 ==> pos == 0
    &&& runs.len() > 0 ==> runs[0].0 == 0 && runs[runs.len() - 1].0 + runs[runs.len() - 1].1 == pos
    &&& forall|i: int| 0 <= i < runs.len() ==> #[trigger] runs[i].1 > 0 && runs[i].0 + runs[i].1 <= pos
    &&& forall|i: int, j: int| 0 <= i < j < runs.len() ==> #[trigger] runs[i].0 + runs[i].1 <= #[trigger] runs[j].0
    &&& forall|i: int, j: int| 0 <= i < runs.len() && j == i + 1 && j < runs.len()
        ==> #[trigger] runs[i].0 + runs[i].1 == #[trigger] runs[j].0
    &&& forall|i: int| 0 <= i < runs.len() ==> run_shape(p, ix(#[trigger] runs[i].0), runs[i].0 + runs[i].1)
}

/// Each run of the stack is a stable run under `f`.
pub open spec fn stack_sorted<T>(v: Seq<T>, f: spec_fn(T, T) -> Ordering, p: Seq<usize>, runs: Seq<(usize, usize)>) -> bool {
    forall|i: int| 0 <= i < runs.len() ==> is_stable_run(v, f, p, ix(#[trigger] runs[i].0), runs[i].0 + runs[i].1)
}

/// A run's positions stay in place under changes elsewhere.
proof fn lemma_run_shape_frame(p0: Seq<usize>, p1: Seq<usize>, b: int, e: int)
    requires
        run_shape(p0, b, e),
        p1.len() == p0.len(),
        forall|k: int| b <= k < e ==> #[trigger] p1[k] == p0[k],
    ensures
        run_shape(p1, b, e),
{
    assert(p1.subrange(b, e) =~= p0.subrange(b, e));
}

/// A stable run stays one under changes elsewhere.
proof fn lemma_stable_run_frame<T>(v: Seq<T>, f: spec_fn(T, T) -> Ordering, p0: Seq<usize>, p1: Seq<usize>, b: int, e: int)
    requires
        is_stable_run(v, f, p0, b, e),
        forall|k: int| b <= k < e ==> #[trigger] p1[k] == p0[k],
    ensures
        is_stable_run(v, f, p1, b, e),
{
    assert forall|k: int, l: int| b <= k < l < e implies key_lt(v, f, #[trigger] p1[k], #[trigger] p1[l]) by {
        assert(key_lt(v, f, p0[k], p0[l]));
    }
}

/// Two adjacent runs merged in place make one run holding exactly their positions.
proof fn lemma_merged_shape(p0: Seq<usize>, p1: Seq<usize>, base1: int, base2: int, end: int)
    requires
        0 <= base1 <= base2 <= end <= p0.len(),
        end <= usize::MAX,
        p1.len() == p0.len(),
        run_shape(p0, base1, base2),
        run_shape(p0, base2, end),
        p1.subrange(base1, end).to_multiset() == p0.subrange(base1, end).to_multiset(),
    ensures
        run_shape(p1, base1, end),
{
    assert(p0.subrange(base1, end) =~= p0.subrange(base1, base2) + p0.subrange(base2, end));
    assert(index_range(base1, end) =~= index_range(base1, base2) + index_range(base2, end));
    lemma_multiset_commutative(p0.subrange(base1, base2), p0.subrange(base2, end));
    lemma_multiset_commutative(index_range(base1, base2), index_range(base2, end));
    let r = index_range(base1, end);
    let within = |x: usize| base1 <= x < end;
    assert forall|t: int| 0 <= t < r.len() implies #[trigger] within(r[t]) by {}
    lemma_multiset_forall(r, p1.subrange(base1, end), within);
    assert forall|k: int| base1 <= k < end implies base1 <= #[trigger] p1[k] < end by {
        assert(p1[k] == p1.subrange(base1, end)[k - base1]);
        assert(within(p1.subrange(base1, end)[k - base1]));
    }
}

/// Replacing the runs at `i` and `i + 1` of a stack by the run that merges
/// them keeps the stack tiling its positions.
#[verifier::spinoff_prover]
proof fn lemma_stack_shape_after_merge(p0: Seq<usize>, p1: Seq<usize>, r0: Seq<(usize, usize)>, r1: Seq<(usize, usize)>, i: int, pos: int)
    requires
        0 <= i,
        i + 1 < r0.len(),
        pos <= usize::MAX,
        stack_shape(p0, r0, pos),
        p1.len() == p0.len(),
        r1 == join_runs_at(r0, i),
        run_shape(p1, ix(r0[i].0), r0[i + 1].0 + r0[i + 1].1),
        forall|k: int| 0 <= k < p0.len() && !(r0[i].0 <= k < r0[i + 1].0 + r0[i + 1].1) ==> #[trigger] p1[k] == p0[k],
    ensures
        stack_shape(p1, r1, pos),
{
    assert(r0[i].0 + r0[i].1 == r0[i + 1].0);
    assert(r0[i + 1].0 + r0[i + 1].1 <= pos);
    assert(r1[i].0 == r0[i].0 && r1[i].0 + r1[i].1 == r0[i + 1].0 + r0[i + 1].1);
    assert forall|j: int| 0 <= j < r1.len() implies run_shape(p1, ix(#[trigger] r1[j].0), r1[j].0 + r1[j].1) by {
        if j < i {
            assert(r1[j] == r0[j]);
            assert(r0[j].0 + r0[j].1 <= r0[i].0);
            assert(run_shape(p0, ix(r0[j].0), r0[j].0 + r0[j].1));
            lemma_run_shape_frame(p0, p1, ix(r0[j].0), r0[j].0 + r0[j].1);
        } else if j > i {
            assert(r1[j] == r0[j + 1]);
            assert(r0[i + 1].0 + r0[i + 1].1 <= r0[j + 1].0);
            assert(run_shape(p0, ix(r0[j + 1].0), r0[j + 1].0 + r0[j + 1].1));
            lemma_run_shape_frame(p0, p1, ix(r0[j + 1].0), r0[j + 1].0 + r0[j + 1].1);
        }
    }
    assert forall|j: int| 0 <= j < r1.len() implies #[trigger] r1[j].1 > 0 && r1[j].0 + r1[j].1 <= pos by {
        if j < i {
            assert(r1[j] == r0[j]);
        } else if j > i {
            assert(r1[j] == r0[j + 1]);
        } else {
            assert(r0[i].1 > 0);
        }
    }
    assert forall|j: int, k: int| 0 <= j < k < r1.len() implies #[trigger] r1[j].0 + r1[j].1 <= #[trigger] r1[k].0 by {
        if j < i {
            assert(r1[j] == r0[j]);
            if k < i {
                assert(r1[k] == r0[k]);
                assert(r0[j].0 + r0[j].1 <= r0[k].0);
            } else if k == i {
                assert(r0[j].0 + r0[j].1 <= r0[i].0);
            } else {
                assert(r1[k] == r0[k + 1]);
                assert(r0[j].0 + r0[j].1 <= r0[k + 1].0);
            }
        } else if j == i {
            assert(r1[k] == r0[k + 1]);
            assert(r0[i + 1].0 + r0[i + 1].1 <= r0[k + 1].0);
        } else {
            assert(r1[j] == r0[j + 1] && r1[k] == r0[k + 1]);
            assert(r0[j + 1].0 + r0[j + 1].1 <= r0[k + 1].0);
        }
    }
    assert forall|j: int, k: int| 0 <= j < r1.len() && k == j + 1 && k < r1.len()
        implies #[trigger] r1[j].0 + r1[j].1 == #[trigger] r1[k].0 by {
        if j < i {
            assert(r1[j] == r0[j]);
            if k < i {
                assert(r1[k] == r0[k]);
            }
            assert(r0[j].0 + r0[j].1 == r0[j + 1].0);
        } else if j == i {
            assert(r1[k] == r0[k + 1]);
            assert(r0[i + 1].0 + r0[i + 1].1 == r0[i + 2].0);
        } else {
            assert(r1[j] == r0[j + 1] && r1[k] == r0[k + 1]);
            assert(r0[j + 1].0 + r0[j + 1].1 == r0[j + 2].0);
        }
    }
    let last = r1.len() - 1;
    if last == i {
        assert(r0[i + 1] == r0[r0.len() - 1]);
    } else {
        assert(r1[last] == r0[r0.len() - 1]);
    }
    if i > 0 {
        assert(r1[0] == r0[0]);
    }
}

/// Replacing the runs at `i` and `i + 1` of a stack by a stable run that
/// merges them keeps every run of the stack stable.
proof fn lemma_stack_sorted_after_merge<T>(
    v: Seq<T>, f: spec_fn(T, T) -> Ordering, p0: Seq<usize>, p1: Seq<usize>,
    r0: Seq<(usize, usize)>, r1: Seq<(usize, usize)>, i: int, pos: int,
)
    requires
        0 <= i,
        i + 1 < r0.len(),
        pos <= usize::MAX,
        stack_shape(p0, r0, pos),
        stack_sorted(v, f, p0, r0),
        r1 == join_runs_at(r0, i),
        is_stable_run(v, f, p1, ix(r0[i].0), r0[i + 1].0 + r0[i + 1].1),
        forall|k: int| 0 <= k < p0.len() && !(r0[i].0 <= k < r0[i + 1].0 + r0[i + 1].1) ==> #[trigger] p1[k] == p0[k],
    ensures
        stack_sorted(v, f, p1, r1),
{
    assert(r0[i].0 + r0[i].1 == r0[i + 1].0);
    assert(r1[i].0 == r0[i].0 && r1[i].0 + r1[i].1 == r0[i + 1].0 + r0[i + 1].1);
    assert forall|j: int| 0 <= j < r1.len() implies is_stable_run(v, f, p1, ix(#[trigger] r1[j].0), r1[j].0 + r1[j].1) by {
        if j < i {
            assert(r1[j] == r0[j]);
            assert(r0[j].0 + r0[j].1 <= r0[i].0);
            assert(run_shape(p0, ix(r0[j].0), r0[j].0 + r0[j].1));
            assert(is_stable_run(v, f, p0, ix(r0[j].0), r0[j].0 + r0[j].1));
            lemma_stable_run_frame(v, f, p0, p1, ix(r0[j].0), r0[j].0 + r0[j].1);
        } else if j > i {
            assert(r1[j] == r0[j + 1]);
            assert(r0[i + 1].0 + r0[i + 1].1 <= r0[j + 1].0);
            assert(run_shape(p0, ix(r0[j + 1].0), r0[j + 1].0 + r0[j + 1].1));
            assert(is_stable_run(v, f, p0, ix(r0[j + 1].0), r0[j + 1].0 + r0[j + 1].1));
            lemma_stable_run_frame(v, f, p0, p1, ix(r0[j + 1].0), r0[j + 1].0 + r0[j + 1].1);
        }
    }
}

/// Merges the runs at `i` and `i + 1` of the stack.
fn merge_at<T, C: Fn(&T, &T) -> Ordering>(v: &[T], p: &mut Vec<usize>, runs: &mut Vec<(usize, usize)>, i: usize, pos: usize, c: &C)
    requires
        i + 1 < old(runs)@.len(),
        old(p)@.len() == v@.len(),
        pos <= v@.len(),
        positions_below(old(p)@, len_of(v@)),
        stack_shape(old(p)@, old(runs)@, ix(pos)),
        forall|f: spec_fn(T, T) -> Ordering| #[trigger] is_order_on(*c, f, v@) ==> stack_sorted(v@, f, old(p)@, old(runs)@),
        callable_on(*c, v@),
    ensures
        final(runs)@.len() == old(runs)@.len() - 1,
        final(p)@.len() == v@.len(),
        positions_below(final(p)@, len_of(v@)),
        same_outside(old(p)@, final(p)@, 0, ix(pos)),
        stack_shape(final(p)@, final(runs)@, ix(pos)),
        forall|f: spec_fn(T, T) -> Ordering| #[trigger] is_order_on(*c, f, v@) ==> stack_sorted(v@, f, final(p)@, final(runs)@),
{
    let ghost p0 = p@;
    let ghost r0 = runs@;
    let count = runs.len();
    let (base1, len1) = runs[i];
    let (base2, len2) = runs[i + 1];
    assert(r0[ix(i)].0 + r0[ix(i)].1 == r0[i + 1].0);
    assert(run_shape(p0, ix(base1), base1 + len1));
    assert(run_shape(p0, ix(base2), base2 + len2));
    assert(base2 + len2 <= pos);
    let end = base2 + len2;
    proof {
        assert forall|k: int, l: int| base1 <= k < base2 <= l < end implies #[trigger] p0[k] < #[trigger] p0[l] by {
            assert(base1 <= p0[k] < base2);
            assert(base2 <= p0[l] < end);
        }
    }
    merge_runs(v, p, base1, base2, end, c);
    runs.set(i, (base1, len1 + len2));
    runs.remove(i + 1);
    proof {
        lemma_merged_shape(p0, p@, ix(base1), ix(base2), ix(end));
        lemma_stack_shape_after_merge(p0, p@, r0, runs@, ix(i), ix(pos));
        assert forall|f: spec_fn(T, T) -> Ordering| #[trigger] is_order_on(*c, f, v@)
            implies stack_sorted(v@, f, p@, runs@) by {
            assert(is_stable_run(v@, f, p0, ix(r0[ix(i)].0), r0[ix(i)].0 + r0[ix(i)].1));
            assert(is_stable_run(v@, f, p0, ix(r0[i + 1].0), r0[i + 1].0 + r0[i + 1].1));
            assert(merge_inputs_ok(v@, *c, f, p0, ix(base1), ix(base2), ix(end)));
            lemma_stack_sorted_after_merge(v@, f, p0, p@, r0, runs@, ix(i), ix(pos));
        }
    }
}

/// Pushing a run right after the runs of a stack keeps the stack tiling its positions.
proof fn lemma_stack_push_shape(p0: Seq<usize>, p1: Seq<usize>, r0: Seq<(usize, usize)>, pos: usize, len: usize)
    requires
        stack_shape(p0, r0, ix(pos)),
        p1.len() == p0.len(),
        0 < len,
        forall|k: int| 0 <= k < pos ==> #[trigger] p1[k] == p0[k],
        run_shape(p1, ix(pos), pos + len),
    ensures
        stack_shape(p1, r0.push((pos, len)), pos + len),
{
    let r1 = r0.push((pos, len));
    assert forall|j: int| 0 <= j < r1.len() implies run_shape(p1, ix(#[trigger] r1[j].0), r1[j].0 + r1[j].1) by {
        if j < r0.len() {
            assert(r1[j] == r0[j]);
            assert(run_shape(p0, ix(r0[j].0), r0[j].0 + r0[j].1));
            lemma_run_shape_frame(p0, p1, ix(r0[j].0), r0[j].0 + r0[j].1);
        }
    }
    assert forall|j: int| 0 <= j < r1.len() implies #[trigger] r1[j].1 > 0 && r1[j].0 + r1[j].1 <= pos + len by {
        if j < r0.len() {
            assert(r1[j] == r0[j]);
        }
    }
    assert forall|j: int, k: int| 0 <= j < k < r1.len() implies #[trigger] r1[j].0 + r1[j].1 <= #[trigger] r1[k].0 by {
        assert(r1[j] == r0[j]);
        if k < r0.len() {
            assert(r1[k] == r0[k]);
        }
    }
    assert forall|j: int, k: int| 0 <= j < r1.len() && k == j + 1 && k < r1.len()
        implies #[trigger] r1[j].0 + r1[j].1 == #[trigger] r1[k].0 by {
        assert(r1[j] == r0[j]);
        if k < r0.len() {
            assert(r1[k] == r0[k]);
        }
    }
    if r0.len() > 0 {
        assert(r1[0] == r0[0]);
    }
}

/// Pushing a stable run right after the runs of a stack keeps every run stable.
proof fn lemma_stack_push_sorted<T>(
    v: Seq<T>, f: spec_fn(T, T) -> Ordering, p0: Seq<usize>, p1: Seq<usize>, r0: Seq<(usize, usize)>, pos: usize, len: usize,
)
    requires
        stack_shape(p0, r0, ix(pos)),
        stack_sorted(v, f, p0, r0),
        forall|k: int| 0 <= k < pos ==> #[trigger] p1[k] == p0[k],
        is_stable_run(v, f, p1, ix(pos), pos + len),
    ensures
        stack_sorted(v, f, p1, r0.push((pos, len))),
{
    let r1 = r0.push((pos, len));
    assert forall|j: int| 0 <= j < r1.len() implies is_stable_run(v, f, p1, ix(#[trigger] r1[j].0), r1[j].0 + r1[j].1) by {
        if j < r0.len() {
            assert(r1[j] == r0[j]);
            assert(run_shape(p0, ix(r0[j].0), r0[j].0 + r0[j].1));
            assert(is_stable_run(v, f, p0, ix(r0[j].0), r0[j].0 + r0[j].1));
            lemma_stable_run_frame(v, f, p0, p1, ix(r0[j].0), r0[j].0 + r0[j].1);
        }
    }
}

/// Reading down from the top of the stack, each run is longer than the next one
/// above it and than the two above it together (a stack of at most one run is so).
pub open spec fn stack_balanced(runs: Seq<(usize, usize)>) -> bool {
    runs.len() <= 1 || {
        let n = runs.len() - 2;
        &&& runs[n].1 > runs[n + 1].1
        &&& n > 0 ==> runs[n - 1].1 > runs[n].1 + runs[n + 1].1
        &&& n > 1 ==> runs[n - 2].1 > runs[n - 1].1 + runs[n].1
    }
}

/// Merges runs at the top of the stack until, reading down from the top,
/// each run is longer than the next one above it and than the two above it together.
fn merge_collapse<T, C: Fn(&T, &T) -> Ordering>(v: &[T], p: &mut Vec<usize>, runs: &mut Vec<(usize, usize)>, pos: usize, c: &C)
    requires
        old(p)@.len() == v@.len(),
        pos <= v@.len(),
        positions_below(old(p)@, len_of(v@)),
        stack_shape(old(p)@, old(runs)@, ix(pos)),
        forall|f: spec_fn(T, T) -> Ordering| #[trigger] is_order_on(*c, f, v@) ==> stack_sorted(v@, f, old(p)@, old(runs)@),
        callable_on(*c, v@),
    ensures
        final(p)@.len() == v@.len(),
        positions_below(final(p)@, len_of(v@)),
        same_outside(old(p)@, final(p)@, 0, ix(pos)),
        stack_shape(final(p)@, final(runs)@, ix(pos)),
        forall|f: spec_fn(T, T) -> Ordering| #[trigger] is_order_on(*c, f, v@) ==> stack_sorted(v@, f, final(p)@, final(runs)@),
        old(runs)@.len() > 0 ==> final(runs)@.len() > 0,
        final(runs)@.len() <= old(runs)@.len(),
        stack_balanced(final(runs)@),
        stack_balanced(old(runs)@) ==> final(runs)@ == old(runs)@ && final(p)@ == old(p)@,
{
    let ghost p0 = p@;
    let ghost r0 = runs@;
    let ghost nonempty = runs@.len() > 0;
    while runs.len() > 1
        invariant
            p@.len() == v@.len(),
            pos <= v@.len(),
            positions_below(p@, len_of(v@)),
            same_outside(p0, p@, 0, ix(pos)),
            stack_shape(p@, runs@, ix(pos)),
            forall|f: spec_fn(T, T) -> Ordering| #[trigger] is_order_on(*c, f, v@) ==> stack_sorted(v@, f, p@, runs@),
            nonempty ==> runs@.len() > 0,
            runs@.len() <= r0.len(),
            stack_balanced(r0) ==> runs@ == r0 && p@ == p0,
            callable_on(*c, v@),
        ensures
            stack_balanced(runs@),
        decreases runs@.len(),
    {
        let count = runs.len();
        let n = count - 2;
        let ghost r = runs@;
        assert(r[ix(n)].0 + r[ix(n)].1 == r[n + 1].0);
        assert(r[n + 1].0 + r[n + 1].1 <= pos);
        let len_n = runs[n].1;
        let len_above = runs[n + 1].1;
        let mut collapse = false;
        if n > 0 {
            assert(r[n - 1].0 + r[n - 1].1 == r[ix(n)].0);
            if runs[n - 1].1 <= len_n + len_above {
                collapse = true;
            }
            if n > 1 {
                assert(r[n - 2].0 + r[n - 2].1 == r[n - 1].0);
                if runs[n - 2].1 <= runs[n - 1].1 + len_n {
                    collapse = true;
                }
            }
        }
        if collapse {
            if runs[n - 1].1 < len_above {
                merge_at(v, p, runs, n - 1, pos, c);
            } else {
                merge_at(v, p, runs, n, pos, c);
            }
        } else if len_n <= len_above {
            merge_at(v, p, runs, n, pos, c);
        } else {
            break;
        }
    }
}

/// Merges all runs of the stack, from the top, into one.
fn merge_force_collapse<T, C: Fn(&T, &T) -> Ordering>(v: &[T], p: &mut Vec<usize>, runs: &mut Vec<(usize, usize)>, pos: usize, c: &C)
    requires
        old(p)@.len() == v@.len(),
        pos <= v@.len(),
        positions_below(old(p)@, len_of(v@)),
        stack_shape(old(p)@, old(runs)@, ix(pos)),
        forall|f: spec_fn(T, T) -> Ordering| #[trigger] is_order_on(*c, f, v@) ==> stack_sorted(v@, f, old(p)@, old(runs)@),
        callable_on(*c, v@),
    ensures
        final(p)@.len() == v@.len(),
        positions_below(final(p)@, len_of(v@)),
        same_outside(old(p)@, final(p)@, 0, ix(pos)),
        stack_shape(final(p)@, final(runs)@, ix(pos)),
        forall|f: spec_fn(T, T) -> Ordering| #[trigger] is_order_on(*c, f, v@) ==> stack_sorted(v@, f, final(p)@, final(runs)@),
        final(runs)@.len() <= 1,
        old(runs)@.len() > 0 ==> final(runs)@.len() == 1,
{
    let ghost p0 = p@;
    let ghost nonempty = runs@.len() > 0;
    while runs.len() > 1
        invariant
            p@.len() == v@.len(),
            pos <= v@.len(),
            positions_below(p@, len_of(v@)),
            same_outside(p0, p@, 0, ix(pos)),
            stack_shape(p@, runs@, ix(pos)),
            forall|f: spec_fn(T, T) -> Ordering| #[trigger] is_order_on(*c, f, v@) ==> stack_sorted(v@, f, p@, runs@),
            nonempty ==> runs@.len() > 0,
            callable_on(*c, v@),
        decreases runs@.len(),
    {
        let count = runs.len();
        let n = count - 2;
        if n > 0 && runs[n - 1].1 < runs[n + 1].1 {
            merge_at(v, p, runs, n - 1, pos, c);
        } else {
            merge_at(v, p, runs, n, pos, c);
        }
    }
}

/// Sorts the positions of `v` stably: by item, and by position among equal items.
pub(crate) fn sort_positions<T, C: Fn(&T, &T) -> Ordering>(v: &[T], c: &C) -> (p: Vec<usize>)
    requires
        callable_on(*c, v@),
    ensures
        is_index_permutation(p@, len_of(v@)),
        forall|f: spec_fn(T, T) -> Ordering| #[trigger] is_order_on(*c, f, v@) ==> is_stable_run(v@, f, p@, 0, len_of(v@)),
{
    let n = v.len();
    let mut p = identity_indices(n);
    if n < 2 {
        proof {
            assert(p@.subrange(0, ix(n)) =~= p@);
            lemma_range_multiset_is_permutation(p@, ix(n));
        }
        return p;
    }
    let min_run = min_run_length(n);
    let mut runs: Vec<(usize, usize)> = Vec::new();
    let mut pos: usize = 0;
    while pos < n
        invariant
            n == v@.len(),
            p@.len() == n,
            pos <= n,
            positions_below(p@, len_of(v@)),
            untouched_from(p@, ix(pos), ix(n)),
            stack_shape(p@, runs@, ix(pos)),
            forall|f: spec_fn(T, T) -> Ordering| #[trigger] is_order_on(*c, f, v@) ==> stack_sorted(v@, f, p@, runs@),
            callable_on(*c, v@),
        decreases n - pos,
    {
        let ghost p0 = p@;
        let mut run_len = count_run(v, &mut p, pos, n, c);
        if run_len < min_run {
            let force = if min_run <= n - pos { min_run } else { n - pos };
            if run_len < force {
                extend_run(v, &mut p, pos, pos + run_len, pos + force, c);
                run_len = force;
            }
        }
        proof {
            lemma_stack_push_shape(p0, p@, runs@, pos, run_len);
            assert forall|f: spec_fn(T, T) -> Ordering| #[trigger] is_order_on(*c, f, v@)
                implies stack_sorted(v@, f, p@, runs@.push((pos, run_len))) by {
                lemma_stack_push_sorted(v@, f, p0, p@, runs@, pos, run_len);
            }
        }
        runs.push((pos, run_len));
        pos += run_len;
        merge_collapse(v, &mut p, &mut runs, pos, c);
    }
    merge_force_collapse(v, &mut p, &mut runs, pos, c);
    proof {
        assert(runs@[0].0 == 0 && runs@[0].0 + runs@[0].1 == n);
        assert(run_shape(p@, 0, ix(n)));
        assert(p@.subrange(0, ix(n)) =~= p@);
        lemma_range_multiset_is_permutation(p@, ix(n));
        assert forall|f: spec_fn(T, T) -> Ordering| #[trigger] is_order_on(*c, f, v@)
            implies is_stable_run(v@, f, p@, 0, len_of(v@)) by {
            assert(stack_sorted(v@, f, p@, runs@));
            assert(is_stable_run(v@, f, p@, ix(runs@[0].0), runs@[0].0 + runs@[0].1));
        }
    }
    p
}

/// Sorts `list` stably by `c`.
pub(crate) fn sort_with<T, C: Fn(&T, &T) -> Ordering>(list: &mut [T], c: &C)
    requires
        callable_on(*c, old(list)@),
    ensures
        final(list)@.len() == old(list)@.len(),
        final(list)@.to_multiset() == old(list)@.to_multiset(),
        forall|f: spec_fn(T, T) -> Ordering| #[trigger] is_order_on(*c, f, old(list)@) ==> is_stable_sort_of(final(list)@, old(list)@, f),
{
    let ghost old_list = list@;
    let p = sort_positions(list, c);
    apply_permutation(list, &p);
    proof {
        assert forall|f: spec_fn(T, T) -> Ordering| #[trigger] is_order_on(*c, f, old_list)
            implies is_stable_sort_of(list@, old_list, f) by {
            assert(sorts_stably(p@, list@, old_list, f));
            lemma_stable_sort_witness(p@, list@, old_list, f);
        }
    }
}

/// Sorts `list` stably with the comparator `c`.
///
/// `c(a, b)` should return `Ordering::Greater` when `a` is greater than `b`.
/// The comparator is called only on items of the slice. The result always
/// holds the same items; for any total preorder on the slice's items that the
/// comparator computes on them, it is the stable sort of the slice: items in
/// order, and items that compare equal in the order they came in.
pub fn sort<T, C: Fn(&T, &T) -> Ordering>(list: &mut [T], c: C)
    requires
        callable_on(c, old(list)@),
    ensures
        final(list)@.len() == old(list)@.len(),
        final(list)@.to_multiset() == old(list)@.to_multiset(),
        forall|f: spec_fn(T, T) -> Ordering| #[trigger] is_order_on(c, f, old(list)@) ==> is_stable_sort_of(final(list)@, old(list)@, f),
{
    sort_with(list, &c);
}

} // verus!
