//! A stable sorting algorithm with O(n) worst-case storage requirements,
//! O(n log n) worst-case comparisons, and O(n) comparisons on an
//! already-sorted list, smoothly becoming O(n log n) as the sorted sections
//! (runs) get smaller and smaller.
use vstd::prelude::*;
use core::cmp::Ordering;
use vstd::std_specs::cmp::PartialOrdSpec;
use crate::order::{callable_on, computes_on, is_order_on, is_total_preorder_on, is_stable_sort_of};

pub mod index;
pub mod permute;
pub mod order;
pub mod gallop;
pub mod merge;
pub mod sort;
pub mod ord;
pub mod laws;

verus! {

/// Sorts `list` stably with the comparator `c`; see [`sort::sort`].
pub fn sort_by<T, C: Fn(&T, &T) -> Ordering>(list: &mut [T], c: C)
    requires
        callable_on(c, old(list)@),
    ensures
        final(list)@.len() == old(list)@.len(),
        final(list)@.to_multiset() == old(list)@.to_multiset(),
        forall|f: spec_fn(T, T) -> Ordering| #[trigger] is_order_on(c, f, old(list)@)
            ==> is_stable_sort_of(final(list)@, old(list)@, f),
{
    crate::sort::sort(list, c)
}

/// The comparison of a `PartialOrd` type, with incomparable items taken as equal.
pub open spec fn partial_order_of<T: PartialOrd>() -> spec_fn(T, T) -> Ordering {
    |a: T, b: T|
        match a.partial_cmp_spec(&b) {
            Some(o) => o,
            None => Ordering::Equal,
        }
}

/// Sorts `list` stably by `partial_cmp`, taking incomparable items as equal.
///
/// The result always holds the same items; when `partial_cmp` follows its
/// specification and, with incomparable items taken as equal, is a total
/// preorder on the items of the slice, it is the stable sort of the slice.
pub fn sort<T: PartialOrd>(list: &mut [T])
    ensures
        final(list)@.len() == old(list)@.len(),
        final(list)@.to_multiset() == old(list)@.to_multiset(),
        T::obeys_partial_cmp_spec() && is_total_preorder_on(partial_order_of::<T>(), old(list)@)
            ==> is_stable_sort_of(final(list)@, old(list)@, partial_order_of::<T>()),
{
    let compare = |a: &T, b: &T| -> (r: Ordering)
        ensures
            T::obeys_partial_cmp_spec() ==> r == partial_order_of::<T>()(*a, *b),
        { a.partial_cmp(b).unwrap_or(Ordering::Equal) };
    let ghost old_list = list@;
    proof {
        if T::obeys_partial_cmp_spec() {
            assert(computes_on(compare, partial_order_of::<T>(), old_list));
        }
        assert(callable_on(compare, old_list));
    }
    crate::sort::sort_with(list, &compare);
    proof {
        if T::obeys_partial_cmp_spec() && is_total_preorder_on(partial_order_of::<T>(), old_list) {
            assert(is_order_on(compare, partial_order_of::<T>(), old_list));
        }
    }
}

} // verus!
