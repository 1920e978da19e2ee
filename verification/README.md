# timsort

A stable merge sort over natural runs, verified with Verus.

- `sort` sorts a slice of a `PartialOrd` type, `ord::sort` one of an `Ord`
  type, and `sort_by` (also `sort::sort`) sorts with a three-way comparator.
- `merge::merge`, `merge::merge_lo` and `merge::merge_hi` merge two adjacent
  sorted halves of a slice.

Every function returns a rearrangement of its input. When, on the items of
the input, the comparator computes a total preorder, the result of sorting is the stable sort of the
input (`order::is_stable_sort_of`), and so is the result of merging two
sorted halves. `laws` proves that the stable sort is sorted, holds the same
items, keeps equal items in their order, is unique, leaves sorted input as it
is, and that lawful `Ord` and `PartialOrd` types give total preorders.

Layout of `src/`: `order` (what comparators and stable sorts mean), `index`
and `permute` (positions, copies, rearranging a slice by exchanges),
`gallop` (galloping search), `merge` (merging runs), `sort` (finding,
extending and merging runs), `ord`, `laws`.

The algorithms work on a vector of positions; the items are moved once, at
the end, by exchanges, so they need not be `Copy` or `Clone`.
