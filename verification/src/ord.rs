//! Sorting items of a type with a total order.
use vstd::prelude::*;
use core::cmp::Ordering;
use vstd::std_specs::cmp::OrdSpec;
use crate::order::{callable_on, computes_on, is_order_on, is_total_preorder_on, is_stable_sort_of};

verus! {

/// The comparison of an `Ord` type.
pub open spec fn order_of<T: Ord>() -> spec_fn(T, T) -> Ordering {
    |a: T, b: T| a.cmp_spec(&b)
}

/// Sorts `list` stably by `Ord::cmp`.
///
/// The result always holds the same items; when `cmp` follows its
/// specification and is a total preorder on the items of the slice, it is
/// the stable sort of the slice.
pub fn sort<T: Ord>(list: &mut [T])
    ensures
        final(list)@.len() == old(list)@.len(),
        final(list)@.to_multiset() == old(list)@.to_multiset(),
        T::obeys_cmp_spec() && is_total_preorder_on(order_of::<T>(), old(list)@)
            ==> is_stable_sort_of(final(list)@, old(list)@, order_of::<T>()),
{
    let compare = |a: &T, b: &T| -> (r: Ordering)
        ensures
            T::obeys_cmp_spec() ==> r == order_of::<T>()(*a, *b),
        { a.cmp(b) };
    let ghost old_list = list@;
    proof {
        if T::obeys_cmp_spec() {
            assert(computes_on(compare, order_of::<T>(), old_list));
        }
        assert(callable_on(compare, old_list));
    }
    crate::sort::sort_with(list, &compare);
    proof {
        if T::obeys_cmp_spec() && is_total_preorder_on(order_of::<T>(), old_list) {
            assert(is_order_on(compare, order_of::<T>(), old_list));
        }
    }
}

} // verus!
