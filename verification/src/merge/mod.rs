//! The merge algorithm. It merges two adjacent sorted runs, copying the
//! smaller one into temporary storage; when one run keeps winning it
//! switches to galloping, copying whole blocks at once. The merging is done
//! on positions, and the items are rearranged once at the end.
use vstd::prelude::*;
use core::cmp::Ordering;
use crate::index::{ix, len_of, same_outside, copy_forward, copy_backward, copy_from};
use crate::order::{
    callable_on, is_order_on, is_total_preorder_on, key_lt, le, is_stable_run, is_sorted_by, is_stable_sort_of, sorts_stably,
    lemma_key_lt_trans, lemma_key_lt_total, lemma_flip, lemma_sorted_stretch_is_stable_run, lemma_stable_sort_witness,
};
use crate::gallop::{Mode, gallop_left, gallop_right, goes_before, is_sorted_run, lemma_stable_run_sorted};
use crate::permute::{lemma_multiset_grow, lemma_range_multiset_is_permutation, identity_indices, apply_permutation};
use vstd::seq_lib::lemma_multiset_commutative;

verus! {

broadcast use vstd::seq_lib::group_to_multiset_ensures;

/// The number of times any one run can win before we try galloping.
const MIN_GALLOP: usize = 7;

/// Every position in `p[lo..mid]` is smaller than every position in `p[mid..hi]`.
pub open spec fn runs_in_order(p: Seq<usize>, lo: int, mid: int, hi: int) -> bool {
    forall|k: int, l: int| lo <= k < mid <= l < hi ==> #[trigger] p[k] < #[trigger] p[l]
}

/// Every entry of `p` is a position of a sequence of length `n`.
pub open spec fn positions_below(p: Seq<usize>, n: int) -> bool {
    forall|k: int| 0 <= k < p.len() ==> #[trigger] p[k] < n
}

/// The items at positions `q[lo..d]` each come before the items at positions `p0[x..e]`.
pub open spec fn all_before<T>(
    v: Seq<T>, f: spec_fn(T, T) -> Ordering, q: Seq<usize>, lo: int, d: int, p0: Seq<usize>, x: int, e: int,
) -> bool {
    forall|k: int, i: int| lo <= k < d && x <= i < e ==> key_lt(v, f, #[trigger] q[k], #[trigger] p0[i])
}

/// The items at positions `p0[x..e]` each come before the items at positions `q[d..hi]`.
pub open spec fn all_after<T>(
    v: Seq<T>, f: spec_fn(T, T) -> Ordering, q: Seq<usize>, d: int, hi: int, p0: Seq<usize>, x: int, e: int,
) -> bool {
    forall|k: int, i: int| d <= k < hi && x <= i < e ==> key_lt(v, f, #[trigger] p0[i], #[trigger] q[k])
}

/// `q[lo..d]` is a stable run whose items come before what is left of the
/// runs `p0[x1..e1]` and `p0[x2..e2]`.
pub open spec fn front_merged<T>(
    v: Seq<T>, f: spec_fn(T, T) -> Ordering, q: Seq<usize>, lo: int, d: int, p0: Seq<usize>,
    x1: int, e1: int, x2: int, e2: int,
) -> bool {
    &&& is_stable_run(v, f, q, lo, d)
    &&& all_before(v, f, q, lo, d, p0, x1, e1)
    &&& all_before(v, f, q, lo, d, p0, x2, e2)
}

/// `q[d..hi]` is a stable run whose items come after what is left of the
/// runs `p0[x1..e1]` and `p0[x2..e2]`.
pub open spec fn back_merged<T>(
    v: Seq<T>, f: spec_fn(T, T) -> Ordering, q: Seq<usize>, d: int, hi: int, p0: Seq<usize>,
    x1: int, e1: int, x2: int, e2: int,
) -> bool {
    &&& is_stable_run(v, f, q, d, hi)
    &&& all_after(v, f, q, d, hi, p0, x1, e1)
    &&& all_after(v, f, q, d, hi, p0, x2, e2)
}

/// Emitting the next `cnt` items of one run, all of which come before what is
/// left of the other run, keeps the front of a merge in order.
proof fn lemma_emit_front<T>(
    v: Seq<T>, f: spec_fn(T, T) -> Ordering, q0: Seq<usize>, q1: Seq<usize>, p0: Seq<usize>,
    lo: int, d: int, cnt: int, s: int, e1: int, x2: int, e2: int,
)
    requires
        is_total_preorder_on(f, v),
        is_stable_run(v, f, p0, s, e1),
        is_stable_run(v, f, p0, x2, e2),
        lo <= d,
        0 <= cnt,
        s + cnt <= e1,
        front_merged(v, f, q0, lo, d, p0, s, e1, x2, e2),
        forall|k: int| lo <= k < d ==> #[trigger] q1[k] == q0[k],
        forall|t: int| 0 <= t < cnt ==> #[trigger] q1[d + t] == p0[s + t],
        x2 < e2 ==> forall|t: int| 0 <= t < cnt ==> key_lt(v, f, #[trigger] p0[s + t], p0[x2]),
    ensures
        front_merged(v, f, q1, lo, d + cnt, p0, s + cnt, e1, x2, e2),
{
    assert forall|k: int, l: int| lo <= k < l < d + cnt implies key_lt(v, f, #[trigger] q1[k], #[trigger] q1[l]) by {
        if l >= d {
            assert(q1[d + (l - d)] == p0[s + (l - d)]);
            if k >= d {
                assert(q1[d + (k - d)] == p0[s + (k - d)]);
                assert(key_lt(v, f, p0[s + (k - d)], p0[s + (l - d)]));
            } else {
                assert(key_lt(v, f, q0[k], p0[s + (l - d)]));
            }
        } else {
            assert(key_lt(v, f, q0[k], q0[l]));
        }
    }
    assert forall|k: int, i: int| lo <= k < d + cnt && s + cnt <= i < e1 implies key_lt(v, f, #[trigger] q1[k], #[trigger] p0[i]) by {
        if k >= d {
            assert(q1[d + (k - d)] == p0[s + (k - d)]);
            assert(key_lt(v, f, p0[s + (k - d)], p0[i]));
        } else {
            assert(key_lt(v, f, q0[k], p0[i]));
        }
    }
    assert forall|k: int, j: int| lo <= k < d + cnt && x2 <= j < e2 implies key_lt(v, f, #[trigger] q1[k], #[trigger] p0[j]) by {
        if k >= d {
            assert(q1[d + (k - d)] == p0[s + (k - d)]);
            assert(key_lt(v, f, p0[s + (k - d)], p0[x2]));
            if j > x2 {
                assert(key_lt(v, f, p0[x2], p0[j]));
                lemma_key_lt_trans(v, f, p0[s + (k - d)], p0[x2], p0[j]);
            }
        } else {
            assert(key_lt(v, f, q0[k], p0[j]));
        }
    }
}

/// Emitting the last `cnt` items of one run, all of which come after what is
/// left of the other run, keeps the back of a merge in order.
proof fn lemma_emit_back<T>(
    v: Seq<T>, f: spec_fn(T, T) -> Ordering, q0: Seq<usize>, q1: Seq<usize>, p0: Seq<usize>,
    d: int, hi: int, cnt: int, s: int, e1: int, x2: int, e2: int,
)
    requires
        is_total_preorder_on(f, v),
        is_stable_run(v, f, p0, s, e1),
        is_stable_run(v, f, p0, x2, e2),
        d <= hi,
        0 <= cnt,
        s <= e1 - cnt,
        back_merged(v, f, q0, d, hi, p0, s, e1, x2, e2),
        forall|k: int| d <= k < hi ==> #[trigger] q1[k] == q0[k],
        forall|t: int| 0 <= t < cnt ==> #[trigger] q1[d - cnt + t] == p0[e1 - cnt + t],
        x2 < e2 ==> forall|t: int| 0 <= t < cnt ==> key_lt(v, f, p0[e2 - 1], #[trigger] p0[e1 - cnt + t]),
    ensures
        back_merged(v, f, q1, d - cnt, hi, p0, s, e1 - cnt, x2, e2),
{
    let b = d - cnt;
    let o = e1 - cnt;
    assert forall|k: int, l: int| b <= k < l < hi implies key_lt(v, f, #[trigger] q1[k], #[trigger] q1[l]) by {
        if k < d {
            assert(q1[b + (k - b)] == p0[o + (k - b)]);
            if l < d {
                assert(q1[b + (l - b)] == p0[o + (l - b)]);
                assert(key_lt(v, f, p0[o + (k - b)], p0[o + (l - b)]));
            } else {
                assert(key_lt(v, f, p0[o + (k - b)], q0[l]));
            }
        } else {
            assert(key_lt(v, f, q0[k], q0[l]));
        }
    }
    assert forall|k: int, i: int| b <= k < hi && s <= i < o implies key_lt(v, f, #[trigger] p0[i], #[trigger] q1[k]) by {
        if k < d {
            assert(q1[b + (k - b)] == p0[o + (k - b)]);
            assert(key_lt(v, f, p0[i], p0[o + (k - b)]));
        } else {
            assert(key_lt(v, f, p0[i], q0[k]));
        }
    }
    assert forall|k: int, j: int| b <= k < hi && x2 <= j < e2 implies key_lt(v, f, #[trigger] p0[j], #[trigger] q1[k]) by {
        if k < d {
            assert(q1[b + (k - b)] == p0[o + (k - b)]);
            assert(key_lt(v, f, p0[e2 - 1], p0[o + (k - b)]));
            if j < e2 - 1 {
                assert(key_lt(v, f, p0[j], p0[e2 - 1]));
                lemma_key_lt_trans(v, f, p0[j], p0[e2 - 1], p0[o + (k - b)]);
            }
        } else {
            assert(key_lt(v, f, p0[j], q0[k]));
        }
    }
}

/// A block of `cnt` entries written at `d`, after a kept prefix `q0[lo..d]`.
proof fn lemma_block_after(q0: Seq<usize>, q1: Seq<usize>, src: Seq<usize>, lo: int, d: int, cnt: int, s: int)
    requires
        0 <= lo <= d,
        0 <= cnt,
        d + cnt <= q1.len(),
        d <= q0.len(),
        0 <= s,
        s + cnt <= src.len(),
        forall|k: int| lo <= k < d ==> #[trigger] q1[k] == q0[k],
        forall|t: int| 0 <= t < cnt ==> #[trigger] q1[d + t] == src[s + t],
    ensures
        q1.subrange(lo, d + cnt) == q0.subrange(lo, d) + src.subrange(s, s + cnt),
{
    assert forall|t: int| 0 <= t < d + cnt - lo implies #[trigger] q1.subrange(lo, d + cnt)[t]
        == (q0.subrange(lo, d) + src.subrange(s, s + cnt))[t] by {
        if t >= d - lo {
            assert(q1[d + (t - (d - lo))] == src[s + (t - (d - lo))]);
        }
    }
    assert(q1.subrange(lo, d + cnt) =~= q0.subrange(lo, d) + src.subrange(s, s + cnt));
}

/// A block of `cnt` entries written just before `d`, ahead of a kept suffix `q0[d..hi]`.
proof fn lemma_block_before(q0: Seq<usize>, q1: Seq<usize>, src: Seq<usize>, d: int, hi: int, cnt: int, s: int)
    requires
        0 <= cnt <= d,
        d <= hi <= q1.len(),
        hi <= q0.len(),
        0 <= s,
        s + cnt <= src.len(),
        forall|k: int| d <= k < hi ==> #[trigger] q1[k] == q0[k],
        forall|t: int| 0 <= t < cnt ==> #[trigger] q1[d - cnt + t] == src[s + t],
    ensures
        q1.subrange(d - cnt, hi) == src.subrange(s, s + cnt) + q0.subrange(d, hi),
{
    assert forall|t: int| 0 <= t < hi - (d - cnt) implies #[trigger] q1.subrange(d - cnt, hi)[t]
        == (src.subrange(s, s + cnt) + q0.subrange(d, hi))[t] by {
        if t < cnt {
            assert(q1[d - cnt + t] == src[s + t]);
        }
    }
    assert(q1.subrange(d - cnt, hi) =~= src.subrange(s, s + cnt) + q0.subrange(d, hi));
}

/// A copy of part of a sorted run is sorted.
proof fn lemma_sorted_copy<T>(v: Seq<T>, f: spec_fn(T, T) -> Ordering, s1: Seq<usize>, s2: Seq<usize>, x: int, y: int, off: int)
    requires
        is_sorted_run(v, f, s1, x + off, y + off),
        forall|k: int| x <= k < y ==> #[trigger] s2[k] == s1[k + off],
    ensures
        is_sorted_run(v, f, s2, x, y),
{
    assert forall|k: int, l: int| x <= k < l < y implies le(f, v[ix(#[trigger] s2[k])], v[ix(#[trigger] s2[l])]) by {
        assert(s2[k] == s1[k + off] && s2[l] == s1[l + off]);
        assert(le(f, v[ix(s1[k + off])], v[ix(s1[l + off])]));
    }
}

/// On the items of `v` the comparator computes the total preorder `f`, and
/// `p0[lo..mid]` and `p0[mid..hi]` are stable runs under it.
pub open spec fn merge_inputs_ok<T, C: Fn(&T, &T) -> Ordering>(
    v: Seq<T>, c: C, f: spec_fn(T, T) -> Ordering, p0: Seq<usize>, lo: int, mid: int, hi: int,
) -> bool {
    &&& is_order_on(c, f, v)
    &&& is_stable_run(v, f, p0, lo, mid)
    &&& is_stable_run(v, f, p0, mid, hi)
}

/// Merges the runs `p[lo..mid]` and `p[mid..hi]` front to back, holding the
/// first run in temporary storage. Meant for a first run no longer than the second.
#[verifier::spinoff_prover]
pub(crate) fn merge_lo_run<T, C: Fn(&T, &T) -> Ordering>(v: &[T], p: &mut Vec<usize>, lo: usize, mid: usize, hi: usize, c: &C)
    requires
        lo <= mid <= hi <= old(p)@.len(),
        positions_below(old(p)@, len_of(v@)),
        runs_in_order(old(p)@, ix(lo), ix(mid), ix(hi)),
        callable_on(*c, v@),
    ensures
        same_outside(old(p)@, final(p)@, ix(lo), ix(hi)),
        positions_below(final(p)@, len_of(v@)),
        final(p)@.subrange(ix(lo), ix(hi)).to_multiset() == old(p)@.subrange(ix(lo), ix(hi)).to_multiset(),
        forall|f: spec_fn(T, T) -> Ordering| #[trigger] merge_inputs_ok(v@, *c, f, old(p)@, ix(lo), ix(mid), ix(hi))
            ==> is_stable_run(v@, f, final(p)@, ix(lo), ix(hi)),
        lo == mid || mid == hi ==> final(p)@ == old(p)@,
{
    let ghost p0 = p@;
    let ghost vlen = len_of(v@);
    if mid == lo || mid == hi {
        // One run is empty: the other is already in place.
        proof {
            assert forall|f: spec_fn(T, T) -> Ordering| #[trigger] merge_inputs_ok(v@, *c, f, p0, ix(lo), ix(mid), ix(hi))
                implies is_stable_run(v@, f, p0, ix(lo), ix(hi)) by {
                lemma_join_runs(v@, f, p0, ix(lo), ix(mid), ix(mid), ix(hi));
            }
        }
        return;
    }
    let first_len = mid - lo;
    let mut tmp: Vec<usize> = Vec::new();
    let mut i = lo;
    while i < mid
        invariant
            lo <= i <= mid <= hi <= p0.len(),
            p@ == p0,
            tmp@ == p0.subrange(ix(lo), ix(i)),
        decreases mid - i,
    {
        tmp.push(p[i]);
        i += 1;
        assert(tmp@ =~= p0.subrange(ix(lo), ix(i)));
    }
    let mut first_pos: usize = 0;
    let mut second_pos: usize = mid;
    let mut dest: usize = lo;
    let mut first_count: usize = 0;
    let mut second_count: usize = 0;
    while second_pos > dest && second_pos < hi
        invariant
            lo <= dest <= second_pos <= hi <= p0.len(),
            lo <= mid <= second_pos,
            first_len == mid - lo,
            first_pos <= first_len,
            dest == lo + first_pos + (second_pos - mid),
            tmp@ == p0.subrange(ix(lo), ix(mid)),
            tmp@.len() == first_len,
            same_outside(p0, p@, ix(lo), ix(dest)),
            positions_below(p0, vlen),
            positions_below(p@, vlen),
            vlen == len_of(v@),
            runs_in_order(p0, ix(lo), ix(mid), ix(hi)),
            callable_on(*c, v@),
            p@.subrange(ix(lo), ix(dest)).to_multiset()
                == p0.subrange(ix(lo), lo + first_pos).to_multiset().add(p0.subrange(ix(mid), ix(second_pos)).to_multiset()),
            forall|f: spec_fn(T, T) -> Ordering| #[trigger] merge_inputs_ok(v@, *c, f, p0, ix(lo), ix(mid), ix(hi))
                ==> front_merged(v@, f, p@, ix(lo), ix(dest), p0, lo + first_pos, ix(mid), ix(second_pos), ix(hi)),
        decreases 2 * (hi - dest) + (if (second_count | first_count) < MIN_GALLOP { 0int } else { 1int }),
    {
        let ghost pre = p@;
        let ghost fp0 = first_pos;
        let ghost sp0 = second_pos;
        let ghost d0 = dest;
        assert(first_pos < first_len);
        let a = tmp[first_pos];
        assert(a == p0[lo + first_pos]);
        if (second_count | first_count) < MIN_GALLOP {
            // One item at a time.
            assert(second_count < 7 && first_count < 7) by (bit_vector)
                requires
                    (second_count | first_count) < 7usize;
            let b = p[second_pos];
            assert(b == p0[ix(second_pos)]);
            assert(a < b);
            let o = c(&v[a], &v[b]);
            let take_second = match o {
                Ordering::Greater => true,
                _ => false,
            };
            if take_second {
                p[dest] = b;
                second_pos += 1;
                second_count += 1;
                first_count = 0;
                proof {
                    lemma_block_after(pre, p@, p0, ix(lo), ix(d0), 1, ix(sp0));
                    assert(p0.subrange(ix(mid), ix(second_pos)) =~= p0.subrange(ix(mid), ix(sp0)) + p0.subrange(ix(sp0), ix(second_pos)));
                    lemma_multiset_grow(pre.subrange(ix(lo), ix(d0)), p0.subrange(ix(lo), lo + first_pos),
                        p0.subrange(ix(mid), ix(sp0)), p0.subrange(ix(sp0), ix(second_pos)));
                    assert forall|f: spec_fn(T, T) -> Ordering| #[trigger] merge_inputs_ok(v@, *c, f, p0, ix(lo), ix(mid), ix(hi))
                        implies front_merged(v@, f, p@, ix(lo), d0 + 1, p0, lo + first_pos, ix(mid), ix(second_pos), ix(hi)) by {
                        assert(o == f(v@[ix(a)], v@[ix(b)]));
                        lemma_key_lt_total(v@, f, a, b);
                        lemma_flip(v@, f, ix(a), ix(b));
                        assert(key_lt(v@, f, b, a));
                        lemma_emit_front(v@, f, pre, p@, p0, ix(lo), ix(d0), 1, ix(sp0), ix(hi), lo + first_pos, ix(mid));
                    }
                }
            } else {
                p[dest] = a;
                first_pos += 1;
                first_count += 1;
                second_count = 0;
                proof {
                    lemma_block_after(pre, p@, p0, ix(lo), ix(d0), 1, lo + fp0);
                    assert(p0.subrange(ix(lo), lo + first_pos) =~= p0.subrange(ix(lo), lo + fp0) + p0.subrange(lo + fp0, lo + first_pos));
                    lemma_multiset_grow(pre.subrange(ix(lo), ix(d0)), p0.subrange(ix(lo), lo + fp0),
                        p0.subrange(ix(mid), ix(second_pos)), p0.subrange(lo + fp0, lo + first_pos));
                    assert forall|f: spec_fn(T, T) -> Ordering| #[trigger] merge_inputs_ok(v@, *c, f, p0, ix(lo), ix(mid), ix(hi))
                        implies front_merged(v@, f, p@, ix(lo), d0 + 1, p0, lo + first_pos, ix(mid), ix(second_pos), ix(hi)) by {
                        assert(o == f(v@[ix(a)], v@[ix(b)]));
                        lemma_key_lt_total(v@, f, a, b);
                        lemma_flip(v@, f, ix(a), ix(b));
                        assert(key_lt(v@, f, a, b));
                        lemma_emit_front(v@, f, pre, p@, p0, ix(lo), ix(d0), 1, lo + fp0, ix(mid), ix(second_pos), ix(hi));
                    }
                }
            }
            dest += 1;
        } else {
            // Galloping: copy the items of the second run that come strictly
            // before the next item of the first, then those of the first that
            // come no later than the next item of the second.
            second_count = gallop_left(v, a, p, second_pos, hi, Mode::Forward, c);
            let sc = second_count;
            copy_forward(p, second_pos, dest, sc);
            proof {
                assert forall|t: int| 0 <= t < sc implies #[trigger] p@[dest + t] == p0[second_pos + t] by {
                    assert(p@[dest + t] == pre[second_pos + t]);
                }
                assert forall|k: int| 0 <= k < p@.len() implies #[trigger] p@[k] < vlen by {
                    if dest <= k < dest + sc {
                        assert(p@[dest + (k - dest)] == p0[second_pos + (k - dest)]);
                    } else {
                        assert(p@[k] == pre[k]);
                    }
                }
                lemma_block_after(pre, p@, p0, ix(lo), ix(d0), ix(sc), ix(sp0));
                assert(p0.subrange(ix(mid), sp0 + sc) =~= p0.subrange(ix(mid), ix(sp0)) + p0.subrange(ix(sp0), sp0 + sc));
                lemma_multiset_grow(pre.subrange(ix(lo), ix(d0)), p0.subrange(ix(lo), lo + first_pos),
                    p0.subrange(ix(mid), ix(sp0)), p0.subrange(ix(sp0), sp0 + sc));
                assert forall|f: spec_fn(T, T) -> Ordering| #[trigger] merge_inputs_ok(v@, *c, f, p0, ix(lo), ix(mid), ix(hi))
                    implies front_merged(v@, f, p@, ix(lo), d0 + sc, p0, lo + fp0, ix(mid), sp0 + sc, ix(hi)) by {
                    lemma_stable_run_sorted(v@, f, p0, ix(mid), ix(hi), ix(sp0), ix(hi));
                    lemma_sorted_copy(v@, f, p0, pre, ix(sp0), ix(hi), 0);
                    assert forall|t: int| 0 <= t < sc implies key_lt(v@, f, #[trigger] p0[sp0 + t], p0[lo + fp0]) by {
                        assert(goes_before(f, v@[ix(pre[sp0 + t])], v@[ix(a)], true));
                        lemma_key_lt_total(v@, f, a, p0[sp0 + t]);
                    }
                    lemma_emit_front(v@, f, pre, p@, p0, ix(lo), ix(d0), ix(sc), ix(sp0), ix(hi), lo + fp0, ix(mid));
                }
            }
            dest += sc;
            second_pos += sc;
            if second_pos > dest && second_pos < hi {
                let ghost pre2 = p@;
                let ghost d1 = dest;
                let b = p[second_pos];
                assert(b == p0[ix(second_pos)]);
                first_count = gallop_right(v, b, &tmp, first_pos, first_len, Mode::Forward, c);
                let fc = first_count;
                copy_from(p, dest, &tmp, first_pos, fc);
                proof {
                    assert forall|t: int| 0 <= t < fc implies #[trigger] p@[d1 + t] == p0[lo + fp0 + t] by {
                        assert(p@[d1 + t] == tmp@[first_pos + t]);
                    }
                    assert forall|k: int| 0 <= k < p@.len() implies #[trigger] p@[k] < vlen by {
                        if d1 <= k < d1 + fc {
                            assert(p@[d1 + (k - d1)] == p0[lo + fp0 + (k - d1)]);
                        } else {
                            assert(p@[k] == pre2[k]);
                        }
                    }
                    lemma_block_after(pre2, p@, p0, ix(lo), ix(d1), ix(fc), lo + fp0);
                    assert(p0.subrange(ix(lo), lo + fp0 + fc) =~= p0.subrange(ix(lo), lo + fp0) + p0.subrange(lo + fp0, lo + fp0 + fc));
                    lemma_multiset_grow(pre2.subrange(ix(lo), ix(d1)), p0.subrange(ix(lo), lo + fp0),
                        p0.subrange(ix(mid), ix(second_pos)), p0.subrange(lo + fp0, lo + fp0 + fc));
                    assert forall|f: spec_fn(T, T) -> Ordering| #[trigger] merge_inputs_ok(v@, *c, f, p0, ix(lo), ix(mid), ix(hi))
                        implies front_merged(v@, f, p@, ix(lo), d1 + fc, p0, lo + fp0 + fc, ix(mid), ix(second_pos), ix(hi)) by {
                        lemma_stable_run_sorted(v@, f, p0, ix(lo), ix(mid), lo + fp0, ix(mid));
                        lemma_sorted_copy(v@, f, p0, tmp@, ix(fp0), ix(first_len), ix(lo));
                        assert forall|t: int| 0 <= t < fc implies key_lt(v@, f, #[trigger] p0[lo + fp0 + t], p0[ix(second_pos)]) by {
                            assert(tmp@[fp0 + t] == p0[lo + fp0 + t]);
                            assert(goes_before(f, v@[ix(tmp@[fp0 + t])], v@[ix(b)], false));
                            lemma_key_lt_total(v@, f, p0[lo + fp0 + t], b);
                        }
                        lemma_emit_front(v@, f, pre2, p@, p0, ix(lo), ix(d1), ix(fc), lo + fp0, ix(mid), ix(second_pos), ix(hi));
                    }
                }
                dest += fc;
                first_pos += fc;
            }
            proof {
                if dest == d0 {
                    assert(second_count == 0 && first_count == 0);
                    assert((second_count | first_count) == 0usize) by (bit_vector)
                        requires
                            second_count == 0usize && first_count == 0usize;
                }
            }
        }
    }
    // What is left of the first run goes at the end.
    let ghost pre = p@;
    let rest = first_len - first_pos;
    copy_from(p, dest, &tmp, first_pos, rest);
    proof {
        assert forall|t: int| 0 <= t < rest implies #[trigger] p@[dest + t] == p0[lo + first_pos + t] by {
            assert(p@[dest + t] == tmp@[first_pos + t]);
        }
        assert forall|k: int| 0 <= k < p@.len() implies #[trigger] p@[k] < vlen by {
            if dest <= k < dest + rest {
                assert(p@[dest + (k - dest)] == p0[lo + first_pos + (k - dest)]);
            } else {
                assert(p@[k] == pre[k]);
            }
        }
        lemma_block_after(pre, p@, p0, ix(lo), ix(dest), ix(rest), lo + first_pos);
        assert(p0.subrange(ix(lo), ix(mid)) =~= p0.subrange(ix(lo), lo + first_pos) + p0.subrange(lo + first_pos, ix(mid)));
        lemma_multiset_grow(pre.subrange(ix(lo), ix(dest)), p0.subrange(ix(lo), lo + first_pos),
            p0.subrange(ix(mid), ix(second_pos)), p0.subrange(lo + first_pos, ix(mid)));
        let e = dest + rest;
        assert(p@.subrange(ix(lo), ix(hi)) =~= p@.subrange(ix(lo), e) + p0.subrange(e, ix(hi)));
        assert(p0.subrange(ix(mid), ix(hi)) =~= p0.subrange(ix(mid), ix(second_pos)) + p0.subrange(ix(second_pos), ix(hi)));
        assert(p0.subrange(ix(lo), ix(hi)) =~= p0.subrange(ix(lo), ix(mid)) + p0.subrange(ix(mid), ix(hi)));
        assert(p@.subrange(e, ix(hi)) =~= p0.subrange(ix(second_pos), ix(hi)));
        lemma_multiset_grow(p@.subrange(ix(lo), e), p0.subrange(ix(lo), ix(mid)),
            p0.subrange(ix(mid), ix(second_pos)), p0.subrange(ix(second_pos), ix(hi)));
        lemma_multiset_commutative(p0.subrange(ix(lo), ix(mid)), p0.subrange(ix(mid), ix(hi)));
        assert(!(lo + first_pos < mid && second_pos < hi));
        assert forall|f: spec_fn(T, T) -> Ordering| #[trigger] merge_inputs_ok(v@, *c, f, p0, ix(lo), ix(mid), ix(hi))
            implies is_stable_run(v@, f, p@, ix(lo), ix(hi)) by {
            lemma_emit_front(v@, f, pre, p@, p0, ix(lo), ix(dest), ix(rest), lo + first_pos, ix(mid), ix(second_pos), ix(hi));
            lemma_emit_front(v@, f, p@, p@, p0, ix(lo), e, hi - e, ix(second_pos), ix(hi), ix(mid), ix(mid));
        }
    }
}

/// Merges the runs `p[lo..mid]` and `p[mid..hi]` back to front, holding the
/// second run in temporary storage. Meant for a first run longer than the second.
#[verifier::spinoff_prover]
#[verifier::rlimit(30)]
pub(crate) fn merge_hi_run<T, C: Fn(&T, &T) -> Ordering>(v: &[T], p: &mut Vec<usize>, lo: usize, mid: usize, hi: usize, c: &C)
    requires
        lo <= mid <= hi <= old(p)@.len(),
        positions_below(old(p)@, len_of(v@)),
        runs_in_order(old(p)@, ix(lo), ix(mid), ix(hi)),
        callable_on(*c, v@),
    ensures
        same_outside(old(p)@, final(p)@, ix(lo), ix(hi)),
        positions_below(final(p)@, len_of(v@)),
        final(p)@.subrange(ix(lo), ix(hi)).to_multiset() == old(p)@.subrange(ix(lo), ix(hi)).to_multiset(),
        forall|f: spec_fn(T, T) -> Ordering| #[trigger] merge_inputs_ok(v@, *c, f, old(p)@, ix(lo), ix(mid), ix(hi))
            ==> is_stable_run(v@, f, final(p)@, ix(lo), ix(hi)),
        lo == mid || mid == hi ==> final(p)@ == old(p)@,
{
    let ghost p0 = p@;
    let ghost vlen = len_of(v@);
    if mid == lo || mid == hi {
        // One run is empty: the other is already in place.
        proof {
            assert forall|f: spec_fn(T, T) -> Ordering| #[trigger] merge_inputs_ok(v@, *c, f, p0, ix(lo), ix(mid), ix(hi))
                implies is_stable_run(v@, f, p0, ix(lo), ix(hi)) by {
                lemma_join_runs(v@, f, p0, ix(lo), ix(mid), ix(mid), ix(hi));
            }
        }
        return;
    }
    let second_len = hi - mid;
    let mut tmp: Vec<usize> = Vec::new();
    let mut i = mid;
    while i < hi
        invariant
            lo <= mid <= i <= hi <= p0.len(),
            p@ == p0,
            tmp@ == p0.subrange(ix(mid), ix(i)),
        decreases hi - i,
    {
        tmp.push(p[i]);
        i += 1;
        assert(tmp@ =~= p0.subrange(ix(mid), ix(i)));
    }
    let mut first_end: usize = mid;
    let mut second_end: usize = second_len;
    let mut dest_end: usize = hi;
    // The counts are set only while galloping, which starts once they are
    // large; merging from the back therefore goes one item at a time.
    let mut first_count: usize = 0;
    let mut second_count: usize = 0;
    while first_end < dest_end && first_end > lo
        invariant
            lo <= first_end <= mid <= hi <= p0.len(),
            second_len == hi - mid,
            second_end <= second_len,
            dest_end == first_end + second_end,
            tmp@ == p0.subrange(ix(mid), ix(hi)),
            tmp@.len() == second_len,
            same_outside(p0, p@, ix(dest_end), ix(hi)),
            positions_below(p0, vlen),
            positions_below(p@, vlen),
            vlen == len_of(v@),
            runs_in_order(p0, ix(lo), ix(mid), ix(hi)),
            callable_on(*c, v@),
            p@.subrange(ix(dest_end), ix(hi)).to_multiset()
                == p0.subrange(ix(first_end), ix(mid)).to_multiset().add(p0.subrange(mid + second_end, ix(hi)).to_multiset()),
            forall|f: spec_fn(T, T) -> Ordering| #[trigger] merge_inputs_ok(v@, *c, f, p0, ix(lo), ix(mid), ix(hi))
                ==> back_merged(v@, f, p@, ix(dest_end), ix(hi), p0, ix(lo), ix(first_end), ix(mid), mid + second_end),
        decreases 2 * (dest_end - lo) + (if (second_count | first_count) < MIN_GALLOP { 0int } else { 1int }),
    {
        let ghost pre = p@;
        let ghost fe0 = first_end;
        let ghost se0 = second_end;
        let ghost d0 = dest_end;
        let b = tmp[second_end - 1];
        assert(b == p0[mid + second_end - 1]);
        if (second_count | first_count) < MIN_GALLOP {
            // One item at a time.
            let a = p[first_end - 1];
            assert(a == p0[first_end - 1]);
            assert(a < b);
            let o = c(&v[b], &v[a]);
            let take_second = match o {
                Ordering::Less => false,
                _ => true,
            };
            if take_second {
                p[dest_end - 1] = b;
                second_end -= 1;
                proof {
                    lemma_block_before(pre, p@, p0, ix(d0), ix(hi), 1, mid + second_end);
                    assert(p0.subrange(mid + second_end, ix(hi)) =~= p0.subrange(mid + second_end, mid + se0) + p0.subrange(mid + se0, ix(hi)));
                    lemma_multiset_grow(pre.subrange(ix(d0), ix(hi)), p0.subrange(ix(first_end), ix(mid)),
                        p0.subrange(mid + se0, ix(hi)), p0.subrange(mid + second_end, mid + se0));
                    assert forall|f: spec_fn(T, T) -> Ordering| #[trigger] merge_inputs_ok(v@, *c, f, p0, ix(lo), ix(mid), ix(hi))
                        implies back_merged(v@, f, p@, d0 - 1, ix(hi), p0, ix(lo), ix(first_end), ix(mid), mid + second_end) by {
                        assert(o == f(v@[ix(b)], v@[ix(a)]));
                        lemma_key_lt_total(v@, f, a, b);
                        lemma_flip(v@, f, ix(a), ix(b));
                        assert(key_lt(v@, f, a, b));
                        lemma_emit_back(v@, f, pre, p@, p0, ix(d0), ix(hi), 1, ix(mid), mid + se0, ix(lo), ix(first_end));
                    }
                }
            } else {
                p[dest_end - 1] = a;
                first_end -= 1;
                proof {
                    lemma_block_before(pre, p@, p0, ix(d0), ix(hi), 1, ix(first_end));
                    assert(p0.subrange(ix(first_end), ix(mid)) =~= p0.subrange(ix(first_end), ix(fe0)) + p0.subrange(ix(fe0), ix(mid)));
                    lemma_multiset_grow(pre.subrange(ix(d0), ix(hi)), p0.subrange(ix(fe0), ix(mid)),
                        p0.subrange(mid + second_end, ix(hi)), p0.subrange(ix(first_end), ix(fe0)));
                    assert forall|f: spec_fn(T, T) -> Ordering| #[trigger] merge_inputs_ok(v@, *c, f, p0, ix(lo), ix(mid), ix(hi))
                        implies back_merged(v@, f, p@, d0 - 1, ix(hi), p0, ix(lo), ix(first_end), ix(mid), mid + second_end) by {
                        assert(o == f(v@[ix(b)], v@[ix(a)]));
                        lemma_key_lt_total(v@, f, a, b);
                        lemma_flip(v@, f, ix(a), ix(b));
                        assert(key_lt(v@, f, b, a));
                        lemma_emit_back(v@, f, pre, p@, p0, ix(d0), ix(hi), 1, ix(lo), ix(fe0), ix(mid), mid + second_end);
                    }
                }
            }
            dest_end -= 1;
        } else {
            // Galloping: move the items of the first run that come strictly
            // after the last item of the second, then those of the second that
            // come no earlier than the last item of the first.
            let kept = gallop_right(v, b, p, lo, first_end, Mode::Reverse, c);
            first_count = first_end - lo - kept;
            let fc = first_count;
            copy_backward(p, first_end - fc, dest_end - fc, fc);
            proof {
                assert forall|t: int| 0 <= t < fc implies #[trigger] p@[d0 - fc + t] == p0[fe0 - fc + t] by {
                    assert(p@[d0 - fc + t] == pre[fe0 - fc + t]);
                }
                assert forall|k: int| 0 <= k < p@.len() implies #[trigger] p@[k] < vlen by {
                    if d0 - fc <= k < d0 {
                        assert(p@[d0 - fc + (k - (d0 - fc))] == p0[fe0 - fc + (k - (d0 - fc))]);
                    } else {
                        assert(p@[k] == pre[k]);
                    }
                }
                lemma_block_before(pre, p@, p0, ix(d0), ix(hi), ix(fc), fe0 - fc);
                assert(p0.subrange(fe0 - fc, ix(mid)) =~= p0.subrange(fe0 - fc, ix(fe0)) + p0.subrange(ix(fe0), ix(mid)));
                lemma_multiset_grow(pre.subrange(ix(d0), ix(hi)), p0.subrange(ix(fe0), ix(mid)),
                    p0.subrange(mid + se0, ix(hi)), p0.subrange(fe0 - fc, ix(fe0)));
                assert forall|f: spec_fn(T, T) -> Ordering| #[trigger] merge_inputs_ok(v@, *c, f, p0, ix(lo), ix(mid), ix(hi))
                    implies back_merged(v@, f, p@, d0 - fc, ix(hi), p0, ix(lo), fe0 - fc, ix(mid), mid + se0) by {
                    lemma_stable_run_sorted(v@, f, p0, ix(lo), ix(mid), ix(lo), ix(fe0));
                    lemma_sorted_copy(v@, f, p0, pre, ix(lo), ix(fe0), 0);
                    assert forall|t: int| 0 <= t < fc implies key_lt(v@, f, p0[mid + se0 - 1], #[trigger] p0[fe0 - fc + t]) by {
                        assert(lo + kept <= fe0 - fc + t);
                        assert(!goes_before(f, v@[ix(pre[fe0 - fc + t])], v@[ix(b)], false));
                        lemma_key_lt_total(v@, f, p0[fe0 - fc + t], b);
                    }
                    lemma_emit_back(v@, f, pre, p@, p0, ix(d0), ix(hi), ix(fc), ix(lo), ix(fe0), ix(mid), mid + se0);
                }
            }
            dest_end -= fc;
            first_end -= fc;
            if first_end < dest_end && first_end > lo {
                let ghost pre2 = p@;
                let ghost d1 = dest_end;
                let a = p[first_end - 1];
                assert(a == p0[first_end - 1]);
                let before = gallop_left(v, a, &tmp, 0, second_end, Mode::Reverse, c);
                second_count = second_end - before;
                let sc = second_count;
                copy_from(p, dest_end - sc, &tmp, second_end - sc, sc);
                proof {
                    assert forall|t: int| 0 <= t < sc implies #[trigger] p@[d1 - sc + t] == p0[mid + se0 - sc + t] by {
                        assert(p@[d1 - sc + t] == tmp@[se0 - sc + t]);
                    }
                    assert forall|k: int| 0 <= k < p@.len() implies #[trigger] p@[k] < vlen by {
                        if d1 - sc <= k < d1 {
                            assert(p@[d1 - sc + (k - (d1 - sc))] == p0[mid + se0 - sc + (k - (d1 - sc))]);
                        } else {
                            assert(p@[k] == pre2[k]);
                        }
                    }
                    lemma_block_before(pre2, p@, p0, ix(d1), ix(hi), ix(sc), mid + se0 - sc);
                    assert(p0.subrange(mid + se0 - sc, ix(hi)) =~= p0.subrange(mid + se0 - sc, mid + se0) + p0.subrange(mid + se0, ix(hi)));
                    lemma_multiset_grow(pre2.subrange(ix(d1), ix(hi)), p0.subrange(ix(first_end), ix(mid)),
                        p0.subrange(mid + se0, ix(hi)), p0.subrange(mid + se0 - sc, mid + se0));
                    assert forall|f: spec_fn(T, T) -> Ordering| #[trigger] merge_inputs_ok(v@, *c, f, p0, ix(lo), ix(mid), ix(hi))
                        implies back_merged(v@, f, p@, d1 - sc, ix(hi), p0, ix(lo), ix(first_end), ix(mid), mid + se0 - sc) by {
                        lemma_stable_run_sorted(v@, f, p0, ix(mid), ix(hi), ix(mid), mid + se0);
                        lemma_sorted_copy(v@, f, p0, tmp@, 0, ix(se0), ix(mid));
                        assert forall|t: int| 0 <= t < sc implies key_lt(v@, f, p0[first_end - 1], #[trigger] p0[mid + se0 - sc + t]) by {
                            assert(tmp@[se0 - sc + t] == p0[mid + se0 - sc + t]);
                            assert(!goes_before(f, v@[ix(tmp@[se0 - sc + t])], v@[ix(a)], true));
                            lemma_key_lt_total(v@, f, a, p0[mid + se0 - sc + t]);
                        }
                        lemma_emit_back(v@, f, pre2, p@, p0, ix(d1), ix(hi), ix(sc), ix(mid), mid + se0, ix(lo), ix(first_end));
                    }
                }
                dest_end -= sc;
                second_end -= sc;
            }
            proof {
                if dest_end == d0 {
                    assert(second_count == 0 && first_count == 0);
                    assert((second_count | first_count) == 0usize) by (bit_vector)
                        requires
                            second_count == 0usize && first_count == 0usize;
                }
            }
        }
    }
    // What is left of the second run goes at the start.
    let ghost pre = p@;
    let rest = second_end;
    copy_from(p, dest_end - rest, &tmp, 0, rest);
    proof {
        let d = dest_end - rest;
        assert(d == first_end);
        assert forall|t: int| 0 <= t < rest implies #[trigger] p@[d + t] == p0[mid + t] by {
            assert(p@[d + t] == tmp@[t]);
        }
        assert forall|k: int| 0 <= k < p@.len() implies #[trigger] p@[k] < vlen by {
            if d <= k < dest_end {
                assert(p@[d + (k - d)] == p0[mid + (k - d)]);
            } else {
                assert(p@[k] == pre[k]);
            }
        }
        lemma_block_before(pre, p@, p0, ix(dest_end), ix(hi), ix(rest), ix(mid));
        assert(p0.subrange(ix(mid), ix(hi)) =~= p0.subrange(ix(mid), mid + rest) + p0.subrange(mid + rest, ix(hi)));
        lemma_multiset_grow(pre.subrange(ix(dest_end), ix(hi)), p0.subrange(ix(first_end), ix(mid)),
            p0.subrange(mid + rest, ix(hi)), p0.subrange(ix(mid), mid + rest));
        assert(p@.subrange(ix(lo), ix(hi)) =~= p0.subrange(ix(lo), d) + p@.subrange(d, ix(hi)));
        assert(p0.subrange(ix(lo), ix(mid)) =~= p0.subrange(ix(lo), d) + p0.subrange(d, ix(mid)));
        assert(p0.subrange(ix(lo), ix(hi)) =~= p0.subrange(ix(lo), ix(mid)) + p0.subrange(ix(mid), ix(hi)));
        lemma_multiset_grow(p@.subrange(d, ix(hi)), p0.subrange(d, ix(mid)),
            p0.subrange(ix(mid), ix(hi)), p0.subrange(ix(lo), d));
        lemma_multiset_commutative(p0.subrange(ix(lo), ix(mid)), p0.subrange(ix(mid), ix(hi)));
        assert(!(lo < first_end && 0 < second_end));
        assert forall|t: int| 0 <= t < d - lo implies #[trigger] p@[d - (d - lo) + t] == p0[d - (d - lo) + t] by {
            assert(p@[lo + t] == pre[lo + t]);
        }
        assert forall|f: spec_fn(T, T) -> Ordering| #[trigger] merge_inputs_ok(v@, *c, f, p0, ix(lo), ix(mid), ix(hi))
            implies is_stable_run(v@, f, p@, ix(lo), ix(hi)) by {
            lemma_emit_back(v@, f, pre, p@, p0, ix(dest_end), ix(hi), ix(rest), ix(mid), mid + rest, ix(lo), ix(first_end));
            lemma_emit_back(v@, f, p@, p@, p0, d, ix(hi), d - lo, ix(lo), d, ix(mid), ix(mid));
        }
    }
}

/// Three consecutive stable runs, each of whose items come before the items
/// of the later ones, form one stable run.
proof fn lemma_join_runs<T>(v: Seq<T>, f: spec_fn(T, T) -> Ordering, q: Seq<usize>, lo: int, a: int, b: int, hi: int)
    requires
        lo <= a <= b <= hi,
        is_stable_run(v, f, q, lo, a),
        is_stable_run(v, f, q, a, b),
        is_stable_run(v, f, q, b, hi),
        forall|k: int, l: int| lo <= k < a && a <= l < hi ==> key_lt(v, f, #[trigger] q[k], #[trigger] q[l]),
        forall|k: int, l: int| a <= k < b && b <= l < hi ==> key_lt(v, f, #[trigger] q[k], #[trigger] q[l]),
    ensures
        is_stable_run(v, f, q, lo, hi),
{
    assert forall|k: int, l: int| lo <= k < l < hi implies key_lt(v, f, #[trigger] q[k], #[trigger] q[l]) by {
        if k < a {
            if l < a {
                assert(key_lt(v, f, q[k], q[l]));
            }
        } else if k < b {
            if l < b {
                assert(key_lt(v, f, q[k], q[l]));
            }
        } else {
            assert(key_lt(v, f, q[k], q[l]));
        }
    }
}

/// Merges the adjacent runs `p[lo..mid]` and `p[mid..hi]`. Items of the first
/// run that already come before all of the second, and items of the second
/// that already come after all of the first, are left where they are; the
/// rest is merged with the shorter run held in temporary storage.
#[verifier::spinoff_prover]
pub(crate) fn merge_runs<T, C: Fn(&T, &T) -> Ordering>(v: &[T], p: &mut Vec<usize>, lo: usize, mid: usize, hi: usize, c: &C)
    requires
        lo <= mid <= hi <= old(p)@.len(),
        positions_below(old(p)@, len_of(v@)),
        runs_in_order(old(p)@, ix(lo), ix(mid), ix(hi)),
        callable_on(*c, v@),
    ensures
        same_outside(old(p)@, final(p)@, ix(lo), ix(hi)),
        positions_below(final(p)@, len_of(v@)),
        final(p)@.subrange(ix(lo), ix(hi)).to_multiset() == old(p)@.subrange(ix(lo), ix(hi)).to_multiset(),
        forall|f: spec_fn(T, T) -> Ordering| #[trigger] merge_inputs_ok(v@, *c, f, old(p)@, ix(lo), ix(mid), ix(hi))
            ==> is_stable_run(v@, f, final(p)@, ix(lo), ix(hi)),
        lo == mid || mid == hi ==> final(p)@ == old(p)@,
{
    let ghost p0 = p@;
    if mid == lo || mid == hi {
        proof {
            assert forall|f: spec_fn(T, T) -> Ordering| #[trigger] merge_inputs_ok(v@, *c, f, p0, ix(lo), ix(mid), ix(hi))
                implies is_stable_run(v@, f, p0, ix(lo), ix(hi)) by {
                lemma_join_runs(v@, f, p0, ix(lo), ix(mid), ix(mid), ix(hi));
            }
        }
        return;
    }
    let last_first = p[mid - 1];
    // How many items of the second run come strictly before the last of the first.
    let second_len = gallop_left(v, last_first, p, mid, hi, Mode::Reverse, c);
    proof {
        assert forall|f: spec_fn(T, T) -> Ordering| #[trigger] merge_inputs_ok(v@, *c, f, p0, ix(lo), ix(mid), ix(hi))
            implies (forall|i: int, j: int| lo <= i < mid && mid + second_len <= j < hi
                ==> key_lt(v@, f, #[trigger] p0[i], #[trigger] p0[j])) by {
            lemma_stable_run_sorted(v@, f, p0, ix(mid), ix(hi), ix(mid), ix(hi));
            assert forall|j: int| mid + second_len <= j < hi implies key_lt(v@, f, last_first, #[trigger] p0[j]) by {
                assert(!goes_before(f, v@[ix(p0[j])], v@[ix(last_first)], true));
                lemma_key_lt_total(v@, f, last_first, p0[j]);
            }
            assert forall|i: int, j: int| lo <= i < mid && mid + second_len <= j < hi
                implies key_lt(v@, f, #[trigger] p0[i], #[trigger] p0[j]) by {
                if i < mid - 1 {
                    assert(key_lt(v@, f, p0[i], p0[mid - 1]));
                    lemma_key_lt_trans(v@, f, p0[i], last_first, p0[j]);
                }
            }
        }
    }
    if second_len == 0 {
        proof {
            assert forall|f: spec_fn(T, T) -> Ordering| #[trigger] merge_inputs_ok(v@, *c, f, p0, ix(lo), ix(mid), ix(hi))
                implies is_stable_run(v@, f, p0, ix(lo), ix(hi)) by {
                lemma_join_runs(v@, f, p0, ix(lo), ix(mid), ix(mid), ix(hi));
            }
        }
        return;
    }
    let first_second = p[mid];
    // How many items of the first run come no later than the first of the second.
    let first_off = gallop_right(v, first_second, p, lo, mid, Mode::Forward, c);
    proof {
        assert forall|f: spec_fn(T, T) -> Ordering| #[trigger] merge_inputs_ok(v@, *c, f, p0, ix(lo), ix(mid), ix(hi))
            implies (forall|i: int, j: int| lo <= i < lo + first_off && mid <= j < hi
                ==> key_lt(v@, f, #[trigger] p0[i], #[trigger] p0[j])) by {
            lemma_stable_run_sorted(v@, f, p0, ix(lo), ix(mid), ix(lo), ix(mid));
            assert forall|i: int| lo <= i < lo + first_off implies key_lt(v@, f, #[trigger] p0[i], first_second) by {
                assert(goes_before(f, v@[ix(p0[i])], v@[ix(first_second)], false));
                lemma_key_lt_total(v@, f, p0[i], first_second);
            }
            assert forall|i: int, j: int| lo <= i < lo + first_off && mid <= j < hi
                implies key_lt(v@, f, #[trigger] p0[i], #[trigger] p0[j]) by {
                if j > mid {
                    assert(key_lt(v@, f, p0[ix(mid)], p0[j]));
                    lemma_key_lt_trans(v@, f, p0[i], first_second, p0[j]);
                }
            }
        }
    }
    let first_len = mid - lo - first_off;
    if first_len == 0 {
        proof {
            assert forall|f: spec_fn(T, T) -> Ordering| #[trigger] merge_inputs_ok(v@, *c, f, p0, ix(lo), ix(mid), ix(hi))
                implies is_stable_run(v@, f, p0, ix(lo), ix(hi)) by {
                lemma_join_runs(v@, f, p0, ix(lo), ix(mid), ix(mid), ix(hi));
            }
        }
        return;
    }
    let start = lo + first_off;
    let end = mid + second_len;
    if first_len > second_len {
        merge_hi_run(v, p, start, mid, end, c);
    } else {
        merge_lo_run(v, p, start, mid, end, c);
    }
    proof {
        let q = p@;
        let middle0 = p0.subrange(ix(start), ix(end));
        let middle1 = q.subrange(ix(start), ix(end));
        assert forall|f: spec_fn(T, T) -> Ordering| #[trigger] merge_inputs_ok(v@, *c, f, p0, ix(lo), ix(mid), ix(hi))
            implies is_stable_run(v@, f, q, ix(lo), ix(hi)) by {
            assert(merge_inputs_ok(v@, *c, f, p0, ix(start), ix(mid), ix(end)));
            let pred = |y: usize|
                (forall|i: int| lo <= i < start ==> key_lt(v@, f, #[trigger] p0[i], y))
                && (forall|j: int| end <= j < hi ==> key_lt(v@, f, y, #[trigger] p0[j]));
            assert forall|t: int| 0 <= t < middle0.len() implies #[trigger] pred(middle0[t]) by {
                let y = middle0[t];
                assert(y == p0[start + t]);
                assert forall|i: int| lo <= i < start implies key_lt(v@, f, #[trigger] p0[i], y) by {
                    assert(key_lt(v@, f, p0[i], p0[start + t]));
                }
                assert forall|j: int| end <= j < hi implies key_lt(v@, f, y, #[trigger] p0[j]) by {
                    assert(key_lt(v@, f, p0[start + t], p0[j]));
                }
            }
            crate::permute::lemma_multiset_forall(middle0, middle1, pred);
            assert forall|k: int, l: int| lo <= k < start && start <= l < hi
                implies key_lt(v@, f, #[trigger] q[k], #[trigger] q[l]) by {
                assert(q[k] == p0[k]);
                if l < end {
                    assert(q[l] == middle1[l - start]);
                    assert(pred(middle1[l - start]));
                } else {
                    assert(q[l] == p0[l]);
                    assert(key_lt(v@, f, p0[k], p0[l]));
                }
            }
            assert forall|k: int, l: int| start <= k < end && end <= l < hi
                implies key_lt(v@, f, #[trigger] q[k], #[trigger] q[l]) by {
                assert(q[k] == middle1[k - start]);
                assert(pred(middle1[k - start]));
                assert(q[l] == p0[l]);
            }
            assert(is_stable_run(v@, f, q, ix(lo), ix(start))) by {
                assert forall|k: int, l: int| lo <= k < l < start implies key_lt(v@, f, #[trigger] q[k], #[trigger] q[l]) by {
                    assert(q[k] == p0[k] && q[l] == p0[l]);
                }
            }
            assert(is_stable_run(v@, f, q, ix(end), ix(hi))) by {
                assert forall|k: int, l: int| end <= k < l < hi implies key_lt(v@, f, #[trigger] q[k], #[trigger] q[l]) by {
                    assert(q[k] == p0[k] && q[l] == p0[l]);
                }
            }
            lemma_join_runs(v@, f, q, ix(lo), ix(start), ix(end), ix(hi));
        }
        assert(q.subrange(ix(lo), ix(hi)) =~= p0.subrange(ix(lo), ix(start)) + middle1 + p0.subrange(ix(end), ix(hi)));
        assert(p0.subrange(ix(lo), ix(hi)) =~= p0.subrange(ix(lo), ix(start)) + middle0 + p0.subrange(ix(end), ix(hi)));
        lemma_multiset_commutative(p0.subrange(ix(lo), ix(start)), middle1);
        lemma_multiset_commutative(p0.subrange(ix(lo), ix(start)), middle0);
        lemma_multiset_commutative(p0.subrange(ix(lo), ix(start)) + middle1, p0.subrange(ix(end), ix(hi)));
        lemma_multiset_commutative(p0.subrange(ix(lo), ix(start)) + middle0, p0.subrange(ix(end), ix(hi)));
    }
}

/// How a merge of whole slices is carried out.
enum Strategy {
    Trimmed,
    FromLow,
    FromHigh,
}

/// Merges `list[..first_len]` with `list[first_len..]` by the given strategy,
/// working on positions and rearranging the items once at the end.
fn merge_slice<T, C: Fn(&T, &T) -> Ordering>(list: &mut [T], first_len: usize, c: &C, strategy: Strategy)
    requires
        first_len <= old(list)@.len(),
        callable_on(*c, old(list)@),
    ensures
        final(list)@.len() == old(list)@.len(),
        final(list)@.to_multiset() == old(list)@.to_multiset(),
        forall|f: spec_fn(T, T) -> Ordering|
            #[trigger] is_order_on(*c, f, old(list)@) && is_sorted_by(old(list)@.subrange(0, ix(first_len)), f)
                && is_sorted_by(old(list)@.subrange(ix(first_len), len_of(old(list)@)), f)
            ==> is_stable_sort_of(final(list)@, old(list)@, f),
        first_len == 0 || first_len == old(list)@.len() ==> final(list)@ == old(list)@,
{
    let ghost old_list = list@;
    let n = list.len();
    let mut p = identity_indices(n);
    let ghost p0 = p@;
    assert(positions_below(p0, len_of(old_list)));
    assert(runs_in_order(p0, 0, ix(first_len), ix(n)));
    match strategy {
        Strategy::Trimmed => merge_runs(list, &mut p, 0, first_len, n, c),
        Strategy::FromLow => merge_lo_run(list, &mut p, 0, first_len, n, c),
        Strategy::FromHigh => merge_hi_run(list, &mut p, 0, first_len, n, c),
    }
    proof {
        assert(p@.subrange(0, ix(n)) =~= p@);
        assert(p0.subrange(0, ix(n)) =~= p0);
        lemma_range_multiset_is_permutation(p@, ix(n));
    }
    apply_permutation(list, &p);
    proof {
        if first_len == 0 || first_len == n {
            assert(p@ == p0);
            assert forall|k: int| 0 <= k < n implies #[trigger] list@[k] == old_list[k] by {
                assert(list@[k] == old_list[ix(p@[k])]);
            }
            assert(list@ =~= old_list);
        }
        assert forall|f: spec_fn(T, T) -> Ordering|
            #[trigger] is_order_on(*c, f, old_list) && is_sorted_by(old_list.subrange(0, ix(first_len)), f)
                && is_sorted_by(old_list.subrange(ix(first_len), len_of(old_list)), f)
            implies is_stable_sort_of(list@, old_list, f) by {
            lemma_sorted_stretch_is_stable_run(old_list, f, 0, ix(first_len));
            lemma_sorted_stretch_is_stable_run(old_list, f, ix(first_len), ix(n));
            assert(merge_inputs_ok(old_list, *c, f, p0, 0, ix(first_len), ix(n)));
            assert(is_stable_run(old_list, f, p@, 0, ix(n)));
            assert(sorts_stably(p@, list@, old_list, f));
            lemma_stable_sort_witness(p@, list@, old_list, f);
        }
    }
}

/// Merges the sorted slices `list[..first_len]` and `list[first_len..]`.
///
/// `c(a, b)` should return `Ordering::Greater` when `a` is greater than `b`.
/// The comparator is called only on items of the slice. The result always
/// holds the same items, and when one half is empty it is the slice as it was;
/// for any total preorder on the slice's items that the comparator computes on
/// them and by which both halves are sorted, it is their stable merge, which
/// is the stable sort of the whole slice.
pub fn merge<T, C: Fn(&T, &T) -> Ordering>(list: &mut [T], first_len: usize, c: C)
    requires
        first_len <= old(list)@.len(),
        callable_on(c, old(list)@),
    ensures
        final(list)@.len() == old(list)@.len(),
        final(list)@.to_multiset() == old(list)@.to_multiset(),
        forall|f: spec_fn(T, T) -> Ordering|
            #[trigger] is_order_on(c, f, old(list)@) && is_sorted_by(old(list)@.subrange(0, ix(first_len)), f)
                && is_sorted_by(old(list)@.subrange(ix(first_len), len_of(old(list)@)), f)
            ==> is_stable_sort_of(final(list)@, old(list)@, f),
        first_len == 0 || first_len == old(list)@.len() ==> final(list)@ == old(list)@,
{
    merge_slice(list, first_len, &c, Strategy::Trimmed);
}

/// Merge implementation used when the first run is smaller than the second.
pub fn merge_lo<T, C: Fn(&T, &T) -> Ordering>(list: &mut [T], first_len: usize, c: C)
    requires
        first_len <= old(list)@.len(),
        callable_on(c, old(list)@),
    ensures
        final(list)@.len() == old(list)@.len(),
        final(list)@.to_multiset() == old(list)@.to_multiset(),
        forall|f: spec_fn(T, T) -> Ordering|
            #[trigger] is_order_on(c, f, old(list)@) && is_sorted_by(old(list)@.subrange(0, ix(first_len)), f)
                && is_sorted_by(old(list)@.subrange(ix(first_len), len_of(old(list)@)), f)
            ==> is_stable_sort_of(final(list)@, old(list)@, f),
        first_len == 0 || first_len == old(list)@.len() ==> final(list)@ == old(list)@,
{
    merge_slice(list, first_len, &c, Strategy::FromLow);
}

/// Merge implementation used when the first run is larger than the second.
pub fn merge_hi<T, C: Fn(&T, &T) -> Ordering>(list: &mut [T], first_len: usize, second_len: usize, c: C)
    requires
        first_len + second_len == old(list)@.len(),
        callable_on(c, old(list)@),
    ensures
        final(list)@.len() == old(list)@.len(),
        final(list)@.to_multiset() == old(list)@.to_multiset(),
        forall|f: spec_fn(T, T) -> Ordering|
            #[trigger] is_order_on(c, f, old(list)@) && is_sorted_by(old(list)@.subrange(0, ix(first_len)), f)
                && is_sorted_by(old(list)@.subrange(ix(first_len), len_of(old(list)@)), f)
            ==> is_stable_sort_of(final(list)@, old(list)@, f),
        first_len == 0 || first_len == old(list)@.len() ==> final(list)@ == old(list)@,
{
    merge_slice(list, first_len, &c, Strategy::FromHigh);
}

} // verus!
