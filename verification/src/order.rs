//! What a comparator means: the three-way comparisons that the sorting
//! functions take, the orders they describe, and what it is for one
//! sequence to be the stable sort of another.
use vstd::prelude::*;
use core::cmp::Ordering;
use crate::index::{ix, len_of, index_range, is_index_permutation};

verus! {

/// The comparator may be called on any two items of `s`.
pub open spec fn callable_on<T, C: Fn(&T, &T) -> Ordering>(c: C, s: Seq<T>) -> bool {
    forall|i: int, j: int| 0 <= i < s.len() && 0 <= j < s.len() ==> #[trigger] c.requires((&s[i], &s[j]))
}

/// On any two items of `s`, every answer that the comparator gives is the one that `f` gives.
pub open spec fn computes_on<T, C: Fn(&T, &T) -> Ordering>(c: C, f: spec_fn(T, T) -> Ordering, s: Seq<T>) -> bool {
    forall|i: int, j: int, r: Ordering|
        0 <= i < s.len() && 0 <= j < s.len() && #[trigger] c.ensures((&s[i], &s[j]), r) ==> r == f(s[i], s[j])
}

/// `a` comes no later than `b`.
pub open spec fn le<T>(f: spec_fn(T, T) -> Ordering, a: T, b: T) -> bool {
    f(a, b) != Ordering::Greater
}

/// `a` comes strictly before `b`.
pub open spec fn lt<T>(f: spec_fn(T, T) -> Ordering, a: T, b: T) -> bool {
    f(a, b) == Ordering::Less
}

/// `f` is a total preorder: swapping the arguments swaps `Less` and
/// `Greater`, and "no later than" is transitive.
#[verifier::opaque]
pub open spec fn is_total_preorder<T>(f: spec_fn(T, T) -> Ordering) -> bool {
    &&& forall|a: T, b: T| #[trigger] f(a, b) == Ordering::Less <==> f(b, a) == Ordering::Greater
    &&& forall|a: T, b: T, d: T|
        #![trigger f(a, b), f(b, d)]
        f(a, b) != Ordering::Greater && f(b, d) != Ordering::Greater ==> f(a, d) != Ordering::Greater
}

/// `f` is a total preorder on the items of `s`: for items of `s`, swapping
/// the arguments swaps `Less` and `Greater`, and "no later than" is transitive.
#[verifier::opaque]
pub open spec fn is_total_preorder_on<T>(f: spec_fn(T, T) -> Ordering, s: Seq<T>) -> bool {
    &&& forall|i: int, j: int|
        0 <= i < s.len() && 0 <= j < s.len() ==> (#[trigger] f(s[i], s[j]) == Ordering::Less <==> f(s[j], s[i]) == Ordering::Greater)
    &&& forall|i: int, j: int, k: int|
        #![trigger f(s[i], s[j]), f(s[j], s[k])]
        0 <= i < s.len() && 0 <= j < s.len() && 0 <= k < s.len() && f(s[i], s[j]) != Ordering::Greater
            && f(s[j], s[k]) != Ordering::Greater ==> f(s[i], s[k]) != Ordering::Greater
}

/// `f` is a total preorder on the items of `s`, and on any two of them every
/// answer that the comparator gives is the one `f` gives.
pub open spec fn is_order_on<T, C: Fn(&T, &T) -> Ordering>(c: C, f: spec_fn(T, T) -> Ordering, s: Seq<T>) -> bool {
    computes_on(c, f, s) && is_total_preorder_on(f, s)
}

/// `s` is in non-decreasing order.
pub open spec fn is_sorted_by<T>(s: Seq<T>, f: spec_fn(T, T) -> Ordering) -> bool {
    forall|k: int, l: int| 0 <= k < l < s.len() ==> le(f, #[trigger] s[k], #[trigger] s[l])
}

/// Positions `i` and `j` of `v`, ordered by item and then by position: both
/// are positions of `v`, and
/// the item at `i` comes strictly first, or the two are equivalent and `i < j`.
pub open spec fn key_lt<T>(v: Seq<T>, f: spec_fn(T, T) -> Ordering, i: usize, j: usize) -> bool {
    &&& i < v.len()
    &&& j < v.len()
    &&& lt(f, v[ix(i)], v[ix(j)]) || (f(v[ix(i)], v[ix(j)]) == Ordering::Equal && i < j)
}

/// Positions `p[lo..hi]` of `v` are strictly increasing by item, then by position.
pub open spec fn is_stable_run<T>(v: Seq<T>, f: spec_fn(T, T) -> Ordering, p: Seq<usize>, lo: int, hi: int) -> bool {
    forall|k: int, l: int| lo <= k < l < hi ==> key_lt(v, f, #[trigger] p[k], #[trigger] p[l])
}

/// `new` is `old` rearranged by `p`, and `p` lists the positions of `old`
/// by item first and by position second.
pub open spec fn sorts_stably<T>(p: Seq<usize>, new: Seq<T>, old: Seq<T>, f: spec_fn(T, T) -> Ordering) -> bool {
    &&& new.len() == old.len()
    &&& is_index_permutation(p, len_of(old))
    &&& forall|k: int| 0 <= k < new.len() ==> new[k] == old[ix(#[trigger] p[k])]
    &&& is_stable_run(old, f, p, 0, len_of(old))
}

/// `new` is the stable sort of `old` under `f`: items in order, and items
/// that compare equal in the order they had in `old`.
pub open spec fn is_stable_sort_of<T>(new: Seq<T>, old: Seq<T>, f: spec_fn(T, T) -> Ordering) -> bool {
    exists|p: Seq<usize>| sorts_stably(p, new, old, f)
}

/// A total preorder on every value is one on the items of any sequence.
pub proof fn lemma_total_preorder_on<T>(f: spec_fn(T, T) -> Ordering, s: Seq<T>)
    requires
        is_total_preorder(f),
    ensures
        is_total_preorder_on(f, s),
{
    reveal(is_total_preorder);
    reveal(is_total_preorder_on);
}

/// Swapping the arguments of a total preorder swaps `Less` and `Greater`.
pub proof fn lemma_flip<T>(v: Seq<T>, f: spec_fn(T, T) -> Ordering, i: int, j: int)
    requires
        is_total_preorder_on(f, v),
        0 <= i < v.len(),
        0 <= j < v.len(),
    ensures
        lt(f, v[i], v[j]) <==> f(v[j], v[i]) == Ordering::Greater,
        lt(f, v[j], v[i]) <==> f(v[i], v[j]) == Ordering::Greater,
        f(v[i], v[j]) == Ordering::Equal <==> f(v[j], v[i]) == Ordering::Equal,
        le(f, v[i], v[j]) || le(f, v[j], v[i]),
        le(f, v[i], v[j]) <==> !lt(f, v[j], v[i]),
{
    reveal(is_total_preorder_on);
    assert(f(v[i], v[j]) == Ordering::Less <==> f(v[j], v[i]) == Ordering::Greater);
    assert(f(v[j], v[i]) == Ordering::Less <==> f(v[i], v[j]) == Ordering::Greater);
}

/// "No later than" is transitive, and so is "strictly before" through it.
pub proof fn lemma_trans<T>(v: Seq<T>, f: spec_fn(T, T) -> Ordering, i: int, j: int, k: int)
    requires
        is_total_preorder_on(f, v),
        0 <= i < v.len(),
        0 <= j < v.len(),
        0 <= k < v.len(),
    ensures
        le(f, v[i], v[j]) && le(f, v[j], v[k]) ==> le(f, v[i], v[k]),
        lt(f, v[i], v[j]) && le(f, v[j], v[k]) ==> lt(f, v[i], v[k]),
        le(f, v[i], v[j]) && lt(f, v[j], v[k]) ==> lt(f, v[i], v[k]),
{
    reveal(is_total_preorder_on);
    assert(f(v[i], v[j]) != Ordering::Greater && f(v[j], v[k]) != Ordering::Greater ==> f(v[i], v[k]) != Ordering::Greater);
    assert(f(v[j], v[k]) != Ordering::Greater && f(v[k], v[i]) != Ordering::Greater ==> f(v[j], v[i]) != Ordering::Greater);
    assert(f(v[k], v[i]) != Ordering::Greater && f(v[i], v[j]) != Ordering::Greater ==> f(v[k], v[j]) != Ordering::Greater);
    lemma_flip(v, f, i, j);
    lemma_flip(v, f, j, k);
    lemma_flip(v, f, i, k);
}

/// The order by item, then position, is transitive.
pub proof fn lemma_key_lt_trans<T>(v: Seq<T>, f: spec_fn(T, T) -> Ordering, i: usize, j: usize, k: usize)
    requires
        is_total_preorder_on(f, v),
        key_lt(v, f, i, j),
        key_lt(v, f, j, k),
    ensures
        key_lt(v, f, i, k),
{
    lemma_trans(v, f, ix(i), ix(j), ix(k));
    lemma_flip(v, f, ix(i), ix(k));
    lemma_flip(v, f, ix(i), ix(j));
    lemma_flip(v, f, ix(j), ix(k));
}

/// Between positions of `v`, the order by item, then position, is total and
/// asymmetric; between an earlier position `i` and a later one `j` it is
/// decided by the items alone.
pub proof fn lemma_key_lt_total<T>(v: Seq<T>, f: spec_fn(T, T) -> Ordering, i: usize, j: usize)
    requires
        is_total_preorder_on(f, v),
        i < v.len(),
        j < v.len(),
    ensures
        i != j ==> key_lt(v, f, i, j) || key_lt(v, f, j, i),
        !(key_lt(v, f, i, j) && key_lt(v, f, j, i)),
        !key_lt(v, f, i, i),
        i < j ==> (key_lt(v, f, i, j) <==> le(f, v[ix(i)], v[ix(j)])),
        i < j ==> (key_lt(v, f, j, i) <==> lt(f, v[ix(j)], v[ix(i)])),
        key_lt(v, f, i, j) ==> le(f, v[ix(i)], v[ix(j)]),
{
    lemma_flip(v, f, ix(i), ix(j));
    lemma_flip(v, f, ix(i), ix(i));
}

/// In a sorted stretch of `v`, positions in increasing order form a stable run.
pub proof fn lemma_sorted_stretch_is_stable_run<T>(v: Seq<T>, f: spec_fn(T, T) -> Ordering, lo: int, hi: int)
    requires
        is_total_preorder_on(f, v),
        0 <= lo <= hi <= v.len(),
        hi <= usize::MAX,
        is_sorted_by(v.subrange(lo, hi), f),
    ensures
        is_stable_run(v, f, index_range(0, len_of(v)), lo, hi),
{
    let p = index_range(0, len_of(v));
    assert forall|k: int, l: int| lo <= k < l < hi implies key_lt(v, f, #[trigger] p[k], #[trigger] p[l]) by {
        assert(p[k] == k && p[l] == l);
        assert(v.subrange(lo, hi)[k - lo] == v[k]);
        assert(v.subrange(lo, hi)[l - lo] == v[l]);
        assert(le(f, v.subrange(lo, hi)[k - lo], v.subrange(lo, hi)[l - lo]));
        lemma_key_lt_total(v, f, p[k], p[l]);
    }
}

/// Rearranging by a permutation that lists positions by item, then position, gives the stable sort.
pub proof fn lemma_stable_sort_witness<T>(p: Seq<usize>, new: Seq<T>, old: Seq<T>, f: spec_fn(T, T) -> Ordering)
    requires
        sorts_stably(p, new, old, f),
    ensures
        is_stable_sort_of(new, old, f),
{
}

} // verus!
