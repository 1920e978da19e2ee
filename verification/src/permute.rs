//! Rearranging a slice of arbitrary items by a permutation of indices, and
//! the multiset facts that the sorting code relies on.
use vstd::prelude::*;
use vstd::seq_lib::lemma_multiset_commutative;
use crate::index::{ix, index_range, is_index_permutation};

verus! {

broadcast use vstd::seq_lib::group_to_multiset_ensures;

/// If two sequences hold the same multiset, every property that holds of all
/// items of the first holds of all items of the second.
pub proof fn lemma_multiset_forall<A>(s1: Seq<A>, s2: Seq<A>, pred: spec_fn(A) -> bool)
    requires
        s1.to_multiset() == s2.to_multiset(),
        forall|k: int| 0 <= k < s1.len() ==> #[trigger] pred(s1[k]),
    ensures
        forall|k: int| 0 <= k < s2.len() ==> #[trigger] pred(s2[k]),
{
    assert forall|k: int| 0 <= k < s2.len() implies #[trigger] pred(s2[k]) by {
        let x = s2[k];
        assert(s2.contains(x));
        assert(s2.to_multiset().count(x) > 0);
        assert(s1.to_multiset().count(x) > 0);
        assert(s1.contains(x));
        let i = choose|i: int| 0 <= i < s1.len() && s1[i] == x;
        assert(pred(s1[i]));
    }
}

/// Growing a sequence made of two parts by a block grows one of the parts by it.
pub proof fn lemma_multiset_grow<A>(out: Seq<A>, x: Seq<A>, y: Seq<A>, blk: Seq<A>)
    requires
        out.to_multiset() == x.to_multiset().add(y.to_multiset()),
    ensures
        (out + blk).to_multiset() == x.to_multiset().add((y + blk).to_multiset()),
        (out + blk).to_multiset() == (x + blk).to_multiset().add(y.to_multiset()),
        (blk + out).to_multiset() == x.to_multiset().add((blk + y).to_multiset()),
        (blk + out).to_multiset() == (blk + x).to_multiset().add(y.to_multiset()),
{
    broadcast use vstd::multiset::group_multiset_axioms;
    lemma_multiset_commutative(out, blk);
    lemma_multiset_commutative(y, blk);
    lemma_multiset_commutative(x, blk);
    lemma_multiset_commutative(blk, out);
    lemma_multiset_commutative(blk, y);
    lemma_multiset_commutative(blk, x);
    assert((out + blk).to_multiset() =~= x.to_multiset().add((y + blk).to_multiset()));
    assert((out + blk).to_multiset() =~= (x + blk).to_multiset().add(y.to_multiset()));
    assert((blk + out).to_multiset() =~= x.to_multiset().add((blk + y).to_multiset()));
    assert((blk + out).to_multiset() =~= (blk + x).to_multiset().add(y.to_multiset()));
}

/// A sequence of indices with the multiset of `0, 1, ..., n - 1` is a
/// permutation of those indices.
pub proof fn lemma_range_multiset_is_permutation(p: Seq<usize>, n: int)
    requires
        0 <= n <= usize::MAX,
        p.to_multiset() == index_range(0, n).to_multiset(),
    ensures
        is_index_permutation(p, n),
{
    let r = index_range(0, n);
    assert forall|k: int| 0 <= k < n implies #[trigger] r[k] == k by {}
    assert(r.no_duplicates());
    r.lemma_multiset_has_no_duplicates();
    p.lemma_multiset_has_no_duplicates_conv();
    assert(p.len() == n) by {
        assert(p.len() == p.to_multiset().len());
        assert(r.len() == r.to_multiset().len());
    }
    lemma_multiset_forall(r, p, |x: usize| x < n);
    assert forall|k: int| 0 <= k < n implies #[trigger] p[k] < n by {
        assert((|x: usize| x < n)(p[k]));
    }
}

/// Exchanges the items at positions `i` and `j` of a slice.
pub fn swap_items<T>(list: &mut [T], i: usize, j: usize)
    requires
        i < j < old(list)@.len(),
    ensures
        final(list)@ == old(list)@.update(ix(i), old(list)@[ix(j)]).update(ix(j), old(list)@[ix(i)]),
{
    let (left, right) = list.split_at_mut(j);
    let (_, middle) = left.split_at_mut(i);
    match middle.first_mut() {
        Some(a) => match right.first_mut() {
            Some(b) => core::mem::swap(a, b),
            None => {},
        },
        None => {},
    }
    assert(list@ =~= old(list)@.update(ix(i), old(list)@[ix(j)]).update(ix(j), old(list)@[ix(i)]));
}

/// The identity arrangement `0, 1, ..., n - 1`.
pub fn identity_indices(n: usize) -> (p: Vec<usize>)
    ensures
        p@ == index_range(0, ix(n)),
{
    let mut p: Vec<usize> = Vec::new();
    let mut q: usize = 0;
    while q < n
        invariant
            q <= n,
            p@ == index_range(0, ix(q)),
        decreases n - q,
    {
        p.push(q);
        q += 1;
        assert(p@ =~= index_range(0, ix(q)));
    }
    p
}

/// Rearranges `list` so that the item at position `k` is the one that stood at
/// position `p[k]` before; it moves items only by exchanging them.
pub fn apply_permutation<T>(list: &mut [T], p: &Vec<usize>)
    requires
        is_index_permutation(p@, old(list)@.len() as int),
    ensures
        final(list)@.len() == old(list)@.len(),
        forall|k: int| 0 <= k < old(list)@.len() ==> final(list)@[k] == old(list)@[ix(#[trigger] p@[k])],
        final(list)@.to_multiset() == old(list)@.to_multiset(),
{
    let ghost orig = list@;
    let n = list.len();
    // at[q]: the position, before the call, of the item now at q.
    // place[j]: the position now of the item that stood at j.
    let mut at = identity_indices(n);
    let mut place = identity_indices(n);
    let mut k: usize = 0;
    while k < n
        invariant
            orig == old(list)@,
            n == orig.len(),
            list@.len() == n,
            at@.len() == n,
            place@.len() == n,
            k <= n,
            is_index_permutation(p@, n as int),
            forall|q: int| 0 <= q < n ==> #[trigger] at@[q] < n && place@[ix(at@[q])] == q,
            forall|j: int| 0 <= j < n ==> #[trigger] place@[j] < n && at@[ix(place@[j])] == j,
            forall|q: int| 0 <= q < n ==> list@[q] == orig[ix(#[trigger] at@[q])],
            forall|q: int| 0 <= q < k ==> #[trigger] at@[q] == p@[q],
            list@.to_multiset() == orig.to_multiset(),
        decreases n - k,
    {
        let j = p[k];
        let q = place[j];
        assert(at@[ix(q)] == j);
        if q < k {
            assert(at@[ix(q)] == p@[ix(q)]);
            assert(p@[ix(q)] != p@[ix(k)]);
        }
        if q != k {
            let ghost before = list@;
            swap_items(list, k, q);
            assert(list@.to_multiset() == before.to_multiset()) by {
                before.to_multiset_ensures();
                before.update(ix(k), before[ix(q)]).to_multiset_ensures();
            }
        }
        let moved = at[k];
        at[q] = moved;
        place[moved] = q;
        at[k] = j;
        place[j] = k;
        k += 1;
    }
    assert forall|q: int| 0 <= q < n implies list@[q] == orig[ix(#[trigger] p@[q])] by {
        assert(at@[q] == p@[q]);
    }
}

/// A sequence rearranged by a permutation of its positions holds the same items.
pub proof fn lemma_rearranged_same_multiset<A>(new: Seq<A>, old: Seq<A>, p: Seq<usize>)
    requires
        is_index_permutation(p, old.len() as int),
        new.len() == old.len(),
        forall|k: int| 0 <= k < new.len() ==> new[k] == old[#[trigger] p[k] as int],
    ensures
        new.to_multiset() == old.to_multiset(),
    decreases old.len(),
{
    broadcast use vstd::multiset::group_multiset_axioms;
    let n = old.len() as int;
    if n == 0 {
        assert(new =~= old);
    } else {
        let j = p[n - 1] as int;
        let x = new[n - 1];
        assert(x == old[j]);
        let old2 = old.remove(j);
        let new2 = new.drop_last();
        let p2 = Seq::new((n - 1) as nat, |k: int| if p[k] < j { p[k] } else { (p[k] - 1) as usize });
        assert forall|k: int| 0 <= k < n - 1 implies #[trigger] p2[k] < n - 1 && (p[k] < j ==> p2[k] == p[k])
            && (p[k] > j ==> p2[k] == p[k] - 1) by {
            assert(p[k] != p[n - 1]);
        }
        assert forall|k: int, l: int| 0 <= k < n - 1 && 0 <= l < n - 1 && k != l implies #[trigger] p2[k] != #[trigger] p2[l] by {
            assert(p[k] != p[n - 1] && p[l] != p[n - 1] && p[k] != p[l]);
        }
        assert forall|k: int| 0 <= k < new2.len() implies new2[k] == old2[#[trigger] p2[k] as int] by {
            assert(p[k] != p[n - 1]);
            assert(new2[k] == old[p[k] as int]);
        }
        lemma_rearranged_same_multiset(new2, old2, p2);
        assert(new =~= new2.push(x));
        assert(old.to_multiset().count(x) > 0) by {
            assert(old.contains(x));
        }
        assert(old2.to_multiset() =~= old.to_multiset().remove(x));
        assert(old.to_multiset() =~= old2.to_multiset().insert(x));
    }
}

} // verus!
