//! Galloping search: finding where an item belongs in a sorted run of
//! positions, probing at exponentially growing distances from one end
//! of the run before a binary search.
use vstd::prelude::*;
use core::cmp::Ordering;
use crate::index::ix;
use crate::order::{callable_on, is_order_on, is_total_preorder_on, is_stable_run, key_lt, le, lt, lemma_trans, lemma_flip, lemma_key_lt_total};

verus! {

/// The end of the run where the search starts.
#[derive(Clone, Copy, Debug)]
pub enum Mode {
    Forward,
    Reverse,
}

/// The item `x` goes before `key`: strictly before it when `strict`, no
/// later than it otherwise.
pub open spec fn goes_before<T>(f: spec_fn(T, T) -> Ordering, x: T, key: T, strict: bool) -> bool {
    if strict {
        lt(f, x, key)
    } else {
        le(f, x, key)
    }
}

/// The items at positions `run[start..end]` of `v` are in non-decreasing order.
pub open spec fn is_sorted_run<T>(v: Seq<T>, f: spec_fn(T, T) -> Ordering, run: Seq<usize>, start: int, end: int) -> bool {
    forall|k: int, l: int| start <= k < l < end ==> le(f, v[ix(#[trigger] run[k])], v[ix(#[trigger] run[l])])
}

/// Exactly the positions `run[start..mid]` go before `key`, the rest of `run[start..end]` not.
pub open spec fn splits_at<T>(
    v: Seq<T>, f: spec_fn(T, T) -> Ordering, run: Seq<usize>, start: int, mid: int, end: int, key: usize, strict: bool,
) -> bool {
    &&& forall|i: int| start <= i < mid ==> goes_before(f, v[ix(#[trigger] run[i])], v[ix(key)], strict)
    &&& forall|i: int| mid <= i < end ==> !goes_before(f, v[ix(#[trigger] run[i])], v[ix(key)], strict)
}

/// Along a sorted run, the positions that go before a key form a prefix.
proof fn lemma_goes_before_prefix<T>(
    v: Seq<T>, f: spec_fn(T, T) -> Ordering, run: Seq<usize>, start: int, end: int, key: usize, strict: bool, i: int, j: int,
)
    requires
        is_total_preorder_on(f, v),
        is_sorted_run(v, f, run, start, end),
        start <= i <= j < end,
        run[i] < v.len(),
        run[j] < v.len(),
        key < v.len(),
    ensures
        goes_before(f, v[ix(run[j])], v[ix(key)], strict) ==> goes_before(f, v[ix(run[i])], v[ix(key)], strict),
{
    if i < j {
        assert(le(f, v[ix(run[i])], v[ix(run[j])]));
    } else {
        lemma_flip(v, f, ix(run[i]), ix(run[j]));
    }
    lemma_trans(v, f, ix(run[i]), ix(run[j]), ix(key));
}

/// Asks the comparator whether the item at position `x` goes before the one at `key`.
fn probe<T, C: Fn(&T, &T) -> Ordering>(v: &[T], x: usize, key: usize, strict: bool, c: &C) -> (b: bool)
    requires
        x < v@.len(),
        key < v@.len(),
        callable_on(*c, v@),
    ensures
        forall|f: spec_fn(T, T) -> Ordering| #[trigger] is_order_on(*c, f, v@)
            ==> b == goes_before(f, v@[ix(x)], v@[ix(key)], strict),
{
    let o = c(&v[key], &v[x]);
    proof {
        assert forall|f: spec_fn(T, T) -> Ordering| #[trigger] is_order_on(*c, f, v@)
            implies (match o { Ordering::Greater => true, _ => false }) == lt(f, v@[ix(x)], v@[ix(key)])
                && (match o { Ordering::Less => false, _ => true }) == le(f, v@[ix(x)], v@[ix(key)]) by {
            assert(o == f(v@[ix(key)], v@[ix(x)]));
            lemma_flip(v@, f, ix(x), ix(key));
        }
    }
    if strict {
        match o {
            Ordering::Greater => true,
            _ => false,
        }
    } else {
        match o {
            Ordering::Less => false,
            _ => true,
        }
    }
}

/// Every position in `run[start..lo]` goes before `key`, and none in `run[hi..end]` does.
pub open spec fn brackets<T>(
    v: Seq<T>, f: spec_fn(T, T) -> Ordering, run: Seq<usize>, start: int, lo: int, hi: int, end: int, key: usize, strict: bool,
) -> bool {
    &&& forall|i: int| start <= i < lo ==> goes_before(f, v[ix(#[trigger] run[i])], v[ix(key)], strict)
    &&& forall|i: int| hi <= i < end ==> !goes_before(f, v[ix(#[trigger] run[i])], v[ix(key)], strict)
}

/// Probing position `m` between the brackets narrows them.
proof fn lemma_probe_step<T>(
    v: Seq<T>, f: spec_fn(T, T) -> Ordering, run: Seq<usize>, start: int, lo: int, hi: int, end: int,
    key: usize, strict: bool, m: int, b: bool,
)
    requires
        is_total_preorder_on(f, v),
        is_sorted_run(v, f, run, start, end),
        brackets(v, f, run, start, lo, hi, end, key, strict),
        start <= lo <= m < hi <= end,
        key < v.len(),
        forall|i: int| start <= i < end ==> #[trigger] run[i] < v.len(),
        b == goes_before(f, v[ix(run[m])], v[ix(key)], strict),
    ensures
        b ==> brackets(v, f, run, start, m + 1, hi, end, key, strict),
        !b ==> brackets(v, f, run, start, lo, m, end, key, strict),
{
    if b {
        assert forall|i: int| start <= i < m + 1 implies goes_before(f, v[ix(#[trigger] run[i])], v[ix(key)], strict) by {
            lemma_goes_before_prefix(v, f, run, start, end, key, strict, i, m);
        }
    } else {
        assert forall|i: int| m <= i < end implies !goes_before(f, v[ix(#[trigger] run[i])], v[ix(key)], strict) by {
            lemma_goes_before_prefix(v, f, run, start, end, key, strict, m, i);
        }
    }
}

/// Counts the positions at the start of `run[start..end]` whose items go
/// before the item at `key`.
fn gallop<T, C: Fn(&T, &T) -> Ordering>(
    v: &[T], key: usize, run: &Vec<usize>, start: usize, end: usize, mode: Mode, strict: bool, c: &C,
) -> (k: usize)
    requires
        start <= end <= run@.len(),
        key < v@.len(),
        forall|i: int| start <= i < end ==> #[trigger] run@[i] < v@.len(),
        callable_on(*c, v@),
    ensures
        k <= end - start,
        forall|f: spec_fn(T, T) -> Ordering| #[trigger] is_order_on(*c, f, v@) && is_sorted_run(v@, f, run@, ix(start), ix(end))
            ==> splits_at(v@, f, run@, ix(start), start + k, ix(end), key, strict),
{
    let len = end - start;
    let mut lo = start;
    let mut hi = end;
    match mode {
        Mode::Forward => {
            let mut ofs: usize = 1;
            while ofs <= len
                invariant_except_break
                    lo < start + ofs,
                    hi == end,
                invariant
                    start <= lo <= hi <= end,
                    len == end - start,
                    1 <= ofs,
                    forall|f: spec_fn(T, T) -> Ordering| #[trigger] is_order_on(*c, f, v@) && is_sorted_run(v@, f, run@, ix(start), ix(end))
                        ==> brackets(v@, f, run@, ix(start), ix(lo), ix(hi), ix(end), key, strict),
                    start <= end <= run@.len(),
                    key < v@.len(),
                    forall|i: int| start <= i < end ==> #[trigger] run@[i] < v@.len(),
                    callable_on(*c, v@),
                ensures
                    start <= lo <= hi <= end,
                    forall|f: spec_fn(T, T) -> Ordering| #[trigger] is_order_on(*c, f, v@) && is_sorted_run(v@, f, run@, ix(start), ix(end))
                        ==> brackets(v@, f, run@, ix(start), ix(lo), ix(hi), ix(end), key, strict),
                decreases len - ofs,
            {
                let m = start + ofs - 1;
                let b = probe(v, run[m], key, strict, c);
                proof {
                    assert forall|f: spec_fn(T, T) -> Ordering| #[trigger] is_order_on(*c, f, v@) && is_sorted_run(v@, f, run@, ix(start), ix(end))
                        implies (b ==> brackets(v@, f, run@, ix(start), m + 1, ix(hi), ix(end), key, strict))
                            && (!b ==> brackets(v@, f, run@, ix(start), ix(lo), ix(m), ix(end), key, strict)) by {
                        lemma_probe_step(v@, f, run@, ix(start), ix(lo), ix(hi), ix(end), key, strict, ix(m), b);
                    }
                }
                if b {
                    lo = m + 1;
                    if ofs > len - ofs {
                        break;
                    }
                    ofs = ofs + ofs;
                } else {
                    hi = m;
                    break;
                }
            }
        },
        Mode::Reverse => {
            let mut ofs: usize = 1;
            while ofs <= len
                invariant_except_break
                    end - ofs < hi,
                    lo == start,
                invariant
                    start <= lo <= hi <= end,
                    len == end - start,
                    1 <= ofs,
                    forall|f: spec_fn(T, T) -> Ordering| #[trigger] is_order_on(*c, f, v@) && is_sorted_run(v@, f, run@, ix(start), ix(end))
                        ==> brackets(v@, f, run@, ix(start), ix(lo), ix(hi), ix(end), key, strict),
                    start <= end <= run@.len(),
                    key < v@.len(),
                    forall|i: int| start <= i < end ==> #[trigger] run@[i] < v@.len(),
                    callable_on(*c, v@),
                ensures
                    start <= lo <= hi <= end,
                    forall|f: spec_fn(T, T) -> Ordering| #[trigger] is_order_on(*c, f, v@) && is_sorted_run(v@, f, run@, ix(start), ix(end))
                        ==> brackets(v@, f, run@, ix(start), ix(lo), ix(hi), ix(end), key, strict),
                decreases len - ofs,
            {
                let m = end - ofs;
                let b = probe(v, run[m], key, strict, c);
                proof {
                    assert forall|f: spec_fn(T, T) -> Ordering| #[trigger] is_order_on(*c, f, v@) && is_sorted_run(v@, f, run@, ix(start), ix(end))
                        implies (b ==> brackets(v@, f, run@, ix(start), m + 1, ix(hi), ix(end), key, strict))
                            && (!b ==> brackets(v@, f, run@, ix(start), ix(lo), ix(m), ix(end), key, strict)) by {
                        lemma_probe_step(v@, f, run@, ix(start), ix(lo), ix(hi), ix(end), key, strict, ix(m), b);
                    }
                }
                if b {
                    lo = m + 1;
                    break;
                } else {
                    hi = m;
                    if ofs > len - ofs {
                        break;
                    }
                    ofs = ofs + ofs;
                }
            }
        },
    }
    while lo < hi
        invariant
            start <= lo <= hi <= end,
            forall|f: spec_fn(T, T) -> Ordering| #[trigger] is_order_on(*c, f, v@) && is_sorted_run(v@, f, run@, ix(start), ix(end))
                ==> brackets(v@, f, run@, ix(start), ix(lo), ix(hi), ix(end), key, strict),
            start <= end <= run@.len(),
            key < v@.len(),
            forall|i: int| start <= i < end ==> #[trigger] run@[i] < v@.len(),
            callable_on(*c, v@),
        decreases hi - lo,
    {
        let m = lo + (hi - lo) / 2;
        let b = probe(v, run[m], key, strict, c);
        proof {
            assert forall|f: spec_fn(T, T) -> Ordering| #[trigger] is_order_on(*c, f, v@) && is_sorted_run(v@, f, run@, ix(start), ix(end))
                implies (b ==> brackets(v@, f, run@, ix(start), m + 1, ix(hi), ix(end), key, strict))
                    && (!b ==> brackets(v@, f, run@, ix(start), ix(lo), ix(m), ix(end), key, strict)) by {
                lemma_probe_step(v@, f, run@, ix(start), ix(lo), ix(hi), ix(end), key, strict, ix(m), b);
            }
        }
        if b {
            lo = m + 1;
        } else {
            hi = m;
        }
    }
    lo - start
}

/// A run that is strictly increasing by item and position is sorted by item.
pub proof fn lemma_stable_run_sorted<T>(v: Seq<T>, f: spec_fn(T, T) -> Ordering, run: Seq<usize>, lo: int, hi: int, x: int, y: int)
    requires
        is_total_preorder_on(f, v),
        is_stable_run(v, f, run, lo, hi),
        lo <= x <= y <= hi,
    ensures
        is_sorted_run(v, f, run, x, y),
{
    assert forall|k: int, l: int| x <= k < l < y implies le(f, v[ix(#[trigger] run[k])], v[ix(#[trigger] run[l])]) by {
        assert(key_lt(v, f, run[k], run[l]));
        lemma_key_lt_total(v, f, run[k], run[l]);
    }
}

/// Counts the positions at the start of `run[start..end]` whose items come
/// strictly before the item at `key`.
pub fn gallop_left<T, C: Fn(&T, &T) -> Ordering>(
    v: &[T], key: usize, run: &Vec<usize>, start: usize, end: usize, mode: Mode, c: &C,
) -> (k: usize)
    requires
        start <= end <= run@.len(),
        key < v@.len(),
        forall|i: int| start <= i < end ==> #[trigger] run@[i] < v@.len(),
        callable_on(*c, v@),
    ensures
        k <= end - start,
        forall|f: spec_fn(T, T) -> Ordering| #[trigger] is_order_on(*c, f, v@) && is_sorted_run(v@, f, run@, ix(start), ix(end))
            ==> splits_at(v@, f, run@, ix(start), start + k, ix(end), key, true),
{
    gallop(v, key, run, start, end, mode, true, c)
}

/// Counts the positions at the start of `run[start..end]` whose items come
/// no later than the item at `key`.
pub fn gallop_right<T, C: Fn(&T, &T) -> Ordering>(
    v: &[T], key: usize, run: &Vec<usize>, start: usize, end: usize, mode: Mode, c: &C,
) -> (k: usize)
    requires
        start <= end <= run@.len(),
        key < v@.len(),
        forall|i: int| start <= i < end ==> #[trigger] run@[i] < v@.len(),
        callable_on(*c, v@),
    ensures
        k <= end - start,
        forall|f: spec_fn(T, T) -> Ordering| #[trigger] is_order_on(*c, f, v@) && is_sorted_run(v@, f, run@, ix(start), ix(end))
            ==> splits_at(v@, f, run@, ix(start), start + k, ix(end), key, false),
{
    gallop(v, key, run, start, end, mode, false, c)
}

} // verus!
