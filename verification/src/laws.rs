//! What holds of the library as a whole: the stable sort is sorted, holds
//! the same items, keeps equal items in order, and is unique; and the
//! comparisons of lawful `PartialOrd` and `Ord` types are total preorders.
use vstd::prelude::*;
use core::cmp::Ordering;
use vstd::std_specs::cmp::{PartialEqSpec, PartialOrdSpec, OrdSpec};
use vstd::laws_eq::obeys_eq_spec_properties;
use vstd::laws_cmp::{obeys_partial_cmp_spec_properties, obeys_cmp, obeys_cmp_ord, obeys_cmp_partial_ord};
use crate::partial_order_of;
use crate::ord::order_of;
use crate::index::{ix, len_of, index_range, is_index_permutation};
use crate::order::{
    is_total_preorder, is_total_preorder_on, is_sorted_by, is_stable_sort_of, sorts_stably, is_stable_run, key_lt, le,
    lemma_key_lt_total, lemma_sorted_stretch_is_stable_run,
};
use crate::permute::lemma_rearranged_same_multiset;

verus! {

/// With the laws of `PartialOrd`, where any two items are comparable, the
/// comparison by `partial_cmp` is a total preorder.
pub proof fn lemma_partial_order_is_total<T: PartialOrd>()
    requires
        obeys_partial_cmp_spec_properties::<T>(),
        forall|a: T, b: T| (#[trigger] a.partial_cmp_spec(&b)) is Some,
    ensures
        is_total_preorder(partial_order_of::<T>()),
{
    reveal(obeys_partial_cmp_spec_properties);
    reveal(obeys_eq_spec_properties);
    let f = partial_order_of::<T>();
    assert forall|a: T, b: T| #[trigger] f(a, b) == Ordering::Less <==> f(b, a) == Ordering::Greater by {
        assert(a.partial_cmp_spec(&b) is Some);
        assert(b.partial_cmp_spec(&a) is Some);
        assert(a.partial_cmp_spec(&b) == Some(Ordering::Less) <==> b.partial_cmp_spec(&a) == Some(Ordering::Greater));
    }
    // Strictly before, then equivalent, is never after.
    assert forall|a: T, b: T, d: T|
        #![trigger f(a, b), f(b, d)]
        f(a, b) == Ordering::Less && f(b, d) == Ordering::Equal implies f(a, d) != Ordering::Greater by {
        assert(a.partial_cmp_spec(&d) is Some);
        assert(d.partial_cmp_spec(&b) is Some);
        if f(a, d) == Ordering::Greater {
            assert(d.partial_cmp_spec(&a) == Some(Ordering::Less));
            assert(a.partial_cmp_spec(&b) == Some(Ordering::Less));
            assert(d.partial_cmp_spec(&b) == Some(Ordering::Less));
            assert(b.eq_spec(&d));
            assert(d.eq_spec(&b));
            assert(d.partial_cmp_spec(&b) == Some(Ordering::Equal));
        }
    }
    assert forall|a: T, b: T, d: T|
        #![trigger f(a, b), f(b, d)]
        f(a, b) != Ordering::Greater && f(b, d) != Ordering::Greater implies f(a, d) != Ordering::Greater by {
        assert(a.partial_cmp_spec(&b) is Some);
        assert(b.partial_cmp_spec(&d) is Some);
        assert(a.partial_cmp_spec(&d) is Some);
        if f(a, b) == Ordering::Less && f(b, d) == Ordering::Less {
            assert(a.partial_cmp_spec(&d) == Some(Ordering::Less));
        } else if f(a, b) == Ordering::Equal && f(b, d) == Ordering::Equal {
            assert(a.eq_spec(&b) && b.eq_spec(&d));
            assert(a.eq_spec(&d));
        } else if f(a, b) == Ordering::Less {
            assert(f(a, d) != Ordering::Greater);
        } else {
            // a is equivalent to b, and b is strictly before d.
            if f(a, d) == Ordering::Greater {
                assert(d.partial_cmp_spec(&a) is Some);
                assert(f(d, a) == Ordering::Less);
                assert(b.partial_cmp_spec(&a) is Some);
                assert(b.eq_spec(&a) == a.eq_spec(&b));
                assert(f(a, b) == Ordering::Equal);
                assert(f(d, b) != Ordering::Greater);
                assert(d.partial_cmp_spec(&b) is Some);
                assert(f(b, d) == Ordering::Less);
            }
        }
    }
    reveal(is_total_preorder);
}

/// With the laws of `Ord`, the comparison by `cmp` is a total preorder, and
/// so is the comparison by `partial_cmp`, which agrees with it.
pub proof fn lemma_order_is_total<T: Ord>()
    requires
        obeys_cmp::<T>(),
    ensures
        T::obeys_cmp_spec(),
        T::obeys_partial_cmp_spec(),
        is_total_preorder(order_of::<T>()),
        is_total_preorder(partial_order_of::<T>()),
        order_of::<T>() == partial_order_of::<T>(),
{
    reveal(obeys_cmp_ord);
    reveal(obeys_cmp_partial_ord);
    assert forall|a: T, b: T| (#[trigger] a.partial_cmp_spec(&b)) is Some by {
        assert(a.partial_cmp_spec(&b) == Some(a.cmp_spec(&b)));
    }
    lemma_partial_order_is_total::<T>();
    assert forall|a: T, b: T| #[trigger] order_of::<T>()(a, b) == partial_order_of::<T>()(a, b) by {
        assert(a.partial_cmp_spec(&b) == Some(a.cmp_spec(&b)));
    }
    assert(order_of::<T>() =~= partial_order_of::<T>());
}

/// A permutation of the positions below `n` lists exactly those positions.
proof fn lemma_permutation_set(p: Seq<usize>, n: int)
    requires
        0 <= n <= usize::MAX,
        is_index_permutation(p, n),
    ensures
        p.to_set() == index_range(0, n).to_set(),
{
    let r = index_range(0, n);
    assert forall|k: int| 0 <= k < n implies #[trigger] r[k] == k by {}
    assert(p.no_duplicates());
    assert(r.no_duplicates());
    p.unique_seq_to_set();
    r.unique_seq_to_set();
    assert forall|x: usize| p.to_set().contains(x) implies r.to_set().contains(x) by {
        let k = choose|k: int| 0 <= k < p.len() && p[k] == x;
        assert(r[ix(x)] == x);
    }
    vstd::set_lib::lemma_subset_equality(p.to_set(), r.to_set());
}

/// Two sequences of positions with the same set, both strictly increasing by
/// item and then position, are equal.
proof fn lemma_increasing_unique<T>(v: Seq<T>, f: spec_fn(T, T) -> Ordering, p: Seq<usize>, q: Seq<usize>)
    requires
        is_total_preorder_on(f, v),
        p.len() == q.len(),
        p.to_set() == q.to_set(),
        is_stable_run(v, f, p, 0, len_of(p)),
        is_stable_run(v, f, q, 0, len_of(q)),
    ensures
        p == q,
    decreases p.len(),
{
    if p.len() == 0 {
        assert(p =~= q);
    } else {
        assert(p.to_set().contains(p[0]));
        assert(q.to_set().contains(q[0]));
        let j = choose|j: int| 0 <= j < q.len() && q[j] == p[0];
        let i = choose|i: int| 0 <= i < p.len() && p[i] == q[0];
        if i > 0 {
            assert(key_lt(v, f, p[0], p[i]));
            lemma_key_lt_total(v, f, p[0], p[i]);
            if j > 0 {
                assert(key_lt(v, f, q[0], q[j]));
            }
        }
        assert(p[0] == q[0]);
        let dp = p.drop_first();
        let dq = q.drop_first();
        assert forall|k: int| 0 < k < p.len() implies #[trigger] p[k] != p[0] by {
            assert(key_lt(v, f, p[0], p[k]));
            lemma_key_lt_total(v, f, p[0], p[k]);
        }
        assert forall|k: int| 0 < k < q.len() implies #[trigger] q[k] != q[0] by {
            assert(key_lt(v, f, q[0], q[k]));
            lemma_key_lt_total(v, f, q[0], q[k]);
        }
        assert forall|x: usize| #[trigger] dp.to_set().contains(x) <==> p.to_set().contains(x) && x != p[0] by {
            if p.to_set().contains(x) && x != p[0] {
                let k = choose|k: int| 0 <= k < p.len() && p[k] == x;
                assert(dp[k - 1] == x);
            }
        }
        assert forall|x: usize| #[trigger] dq.to_set().contains(x) <==> q.to_set().contains(x) && x != q[0] by {
            if q.to_set().contains(x) && x != q[0] {
                let k = choose|k: int| 0 <= k < q.len() && q[k] == x;
                assert(dq[k - 1] == x);
            }
        }
        assert(dp.to_set() =~= dq.to_set());
        assert forall|k: int, l: int| 0 <= k < l < dp.len() implies key_lt(v, f, #[trigger] dp[k], #[trigger] dp[l]) by {
            assert(key_lt(v, f, p[k + 1], p[l + 1]));
        }
        assert forall|k: int, l: int| 0 <= k < l < dq.len() implies key_lt(v, f, #[trigger] dq[k], #[trigger] dq[l]) by {
            assert(key_lt(v, f, q[k + 1], q[l + 1]));
        }
        lemma_increasing_unique(v, f, dp, dq);
        assert(p =~= q) by {
            assert forall|k: int| 0 < k < p.len() implies p[k] == q[k] by {
                assert(dp[k - 1] == dq[k - 1]);
            }
        }
    }
}

/// The stable sort is in order.
pub proof fn lemma_stable_sort_is_sorted<T>(new: Seq<T>, old: Seq<T>, f: spec_fn(T, T) -> Ordering)
    requires
        is_total_preorder_on(f, old),
        is_stable_sort_of(new, old, f),
    ensures
        is_sorted_by(new, f),
{
    let p = choose|p: Seq<usize>| sorts_stably(p, new, old, f);
    assert forall|k: int, l: int| 0 <= k < l < new.len() implies le(f, #[trigger] new[k], #[trigger] new[l]) by {
        assert(key_lt(old, f, p[k], p[l]));
        lemma_key_lt_total(old, f, p[k], p[l]);
    }
}

/// The stable sort holds the same items as what was sorted.
pub proof fn lemma_stable_sort_same_items<T>(new: Seq<T>, old: Seq<T>, f: spec_fn(T, T) -> Ordering)
    requires
        is_stable_sort_of(new, old, f),
    ensures
        new.to_multiset() == old.to_multiset(),
{
    let p = choose|p: Seq<usize>| sorts_stably(p, new, old, f);
    lemma_rearranged_same_multiset(new, old, p);
}

/// In the stable sort, items that compare equal come in the order they had before.
pub proof fn lemma_stable_sort_keeps_equal_items_in_order<T>(new: Seq<T>, old: Seq<T>, f: spec_fn(T, T) -> Ordering)
    requires
        is_stable_sort_of(new, old, f),
    ensures
        exists|p: Seq<usize>|
            {
                &&& is_index_permutation(p, len_of(old))
                &&& forall|k: int| 0 <= k < new.len() ==> new[k] == old[ix(#[trigger] p[k])]
                &&& forall|k: int, l: int|
                    0 <= k < l < new.len() && f(#[trigger] new[k], #[trigger] new[l]) == Ordering::Equal ==> p[k] < p[l]
            },
{
    let p = choose|p: Seq<usize>| sorts_stably(p, new, old, f);
    assert forall|k: int, l: int| 0 <= k < l < new.len() && f(#[trigger] new[k], #[trigger] new[l]) == Ordering::Equal
        implies p[k] < p[l] by {
        assert(key_lt(old, f, p[k], p[l]));
    }
}

/// There is only one stable sort of a sequence.
pub proof fn lemma_stable_sort_unique<T>(a: Seq<T>, b: Seq<T>, old: Seq<T>, f: spec_fn(T, T) -> Ordering)
    requires
        is_total_preorder_on(f, old),
        old.len() <= usize::MAX,
        is_stable_sort_of(a, old, f),
        is_stable_sort_of(b, old, f),
    ensures
        a == b,
{
    let p = choose|p: Seq<usize>| sorts_stably(p, a, old, f);
    let q = choose|q: Seq<usize>| sorts_stably(q, b, old, f);
    lemma_permutation_set(p, len_of(old));
    lemma_permutation_set(q, len_of(old));
    lemma_increasing_unique(old, f, p, q);
    assert(a =~= b) by {
        assert forall|k: int| 0 <= k < a.len() implies a[k] == b[k] by {
            assert(a[k] == old[ix(p[k])]);
            assert(b[k] == old[ix(q[k])]);
        }
    }
}

/// A sorted sequence is its own stable sort.
pub proof fn lemma_sorted_is_own_stable_sort<T>(s: Seq<T>, f: spec_fn(T, T) -> Ordering)
    requires
        is_total_preorder_on(f, s),
        s.len() <= usize::MAX,
        is_sorted_by(s, f),
    ensures
        is_stable_sort_of(s, s, f),
{
    let p = index_range(0, len_of(s));
    assert(s.subrange(0, len_of(s)) =~= s);
    lemma_sorted_stretch_is_stable_run(s, f, 0, len_of(s));
    assert forall|k: int| 0 <= k < s.len() implies #[trigger] p[k] == k by {}
    assert(sorts_stably(p, s, s, f));
}

/// Sorting a sorted sequence leaves it as it is.
pub proof fn lemma_sorting_sorted_changes_nothing<T>(new: Seq<T>, old: Seq<T>, f: spec_fn(T, T) -> Ordering)
    requires
        is_total_preorder_on(f, old),
        old.len() <= usize::MAX,
        is_sorted_by(old, f),
        is_stable_sort_of(new, old, f),
    ensures
        new == old,
{
    lemma_sorted_is_own_stable_sort(old, f);
    lemma_stable_sort_unique(new, old, old, f);
}

/// A total preorder on the items of a sequence is one on the items of any
/// rearrangement of it.
pub proof fn lemma_total_preorder_on_rearranged<T>(f: spec_fn(T, T) -> Ordering, new: Seq<T>, old: Seq<T>, p: Seq<usize>)
    requires
        is_total_preorder_on(f, old),
        forall|k: int| 0 <= k < new.len() ==> #[trigger] p[k] < old.len() && new[k] == old[ix(p[k])],
    ensures
        is_total_preorder_on(f, new),
{
    reveal(is_total_preorder_on);
    assert forall|i: int, j: int| 0 <= i < new.len() && 0 <= j < new.len()
        implies (#[trigger] f(new[i], new[j]) == Ordering::Less <==> f(new[j], new[i]) == Ordering::Greater) by {
        assert(p[i] < old.len() && p[j] < old.len());
        assert(f(old[ix(p[i])], old[ix(p[j])]) == Ordering::Less <==> f(old[ix(p[j])], old[ix(p[i])]) == Ordering::Greater);
    }
    assert forall|i: int, j: int, k: int|
        #![trigger f(new[i], new[j]), f(new[j], new[k])]
        0 <= i < new.len() && 0 <= j < new.len() && 0 <= k < new.len() && f(new[i], new[j]) != Ordering::Greater
            && f(new[j], new[k]) != Ordering::Greater implies f(new[i], new[k]) != Ordering::Greater by {
        assert(p[i] < old.len() && p[j] < old.len() && p[k] < old.len());
        let a = ix(p[i]);
        let b = ix(p[j]);
        let d = ix(p[k]);
        assert(f(old[a], old[b]) != Ordering::Greater && f(old[b], old[d]) != Ordering::Greater
            ==> f(old[a], old[d]) != Ordering::Greater);
    }
}

/// Sorting the stable sort again changes nothing.
pub proof fn lemma_stable_sort_idempotent<T>(once: Seq<T>, twice: Seq<T>, old: Seq<T>, f: spec_fn(T, T) -> Ordering)
    requires
        is_total_preorder_on(f, old),
        old.len() <= usize::MAX,
        is_stable_sort_of(once, old, f),
        is_stable_sort_of(twice, once, f),
    ensures
        twice == once,
{
    lemma_stable_sort_is_sorted(once, old, f);
    let p = choose|p: Seq<usize>| sorts_stably(p, once, old, f);
    lemma_total_preorder_on_rearranged(f, once, old, p);
    lemma_sorting_sorted_changes_nothing(twice, once, f);
}

} // verus!
