//! # Selection
//!
//! Selecting an order statistic from an unordered sequence.

use super::order::{count_less, lemma_count_less_split, less, lemma_trichotomy, sorted, total_order};
use rand::Rng;
use vstd::prelude::*;
use vstd::std_specs::cmp::PartialOrdSpec;

verus! {

/// Relies on `slice::swap`: the elements at `a` and `b` trade places; it panics
/// when either is out of bounds.
pub assume_specification<X>[ <[X]>::swap ](items: &mut [X], x: usize, y: usize)
    requires
        x < old(items)@.len(),
        y < old(items)@.len(),
    ensures
        final(items)@ == old(items)@.update(x as int, old(items)@[y as int]).update(
            y as int,
            old(items)@[x as int],
        ),
;

/// Relies on rand's `thread_rng().gen_range(low, high)`: a value in `[low, high)`;
/// it panics when `low >= high`.
#[verifier::external_body]
fn random_index(low: usize, high: usize) -> (r: usize)
    requires
        low < high,
    ensures
        low <= r < high,
{
    rand::thread_rng().gen_range(low, high)
}

/// Swapping two elements keeps the multiset of elements.
pub proof fn lemma_swap_multiset<T>(s: Seq<T>, a: int, b: int)
    requires
        0 <= a < s.len(),
        0 <= b < s.len(),
    ensures
        s.update(a, s[b]).update(b, s[a]).to_multiset() == s.to_multiset(),
{
    broadcast use vstd::multiset::group_multiset_axioms;

    if a == b {
        assert(s.update(a, s[b]).update(b, s[a]) =~= s);
    } else {
        let t = s.update(a, s[b]);
        assert(t.len() == s.len() && t[b] == s[b]);
        vstd::seq_lib::to_multiset_update(s, a, s[b]);
        vstd::seq_lib::to_multiset_update(t, b, s[a]);
        let m = s.to_multiset();
        assert(s.contains(s[a]));
        vstd::seq_lib::to_multiset_contains(s, s[a]);
        assert(m.insert(s[b]).remove(s[a]).insert(s[a]).remove(s[b]) =~= m);
        assert(t.update(b, s[a]).to_multiset() =~= s.to_multiset());
    }
}

/// Every element of `t[lo..hi)` is some element of `s[lo..hi)`.
pub open spec fn drawn_from<T>(t: Seq<T>, s: Seq<T>, lo: int, hi: int) -> bool {
    forall|j: int| lo <= j < hi ==> exists|j2: int| lo <= j2 < hi && #[trigger] t[j] == s[j2]
}

/// `after` is `before` reordered so that the element at `k` has all the elements
/// before it at most it and all the elements after it at least it: it is the
/// `k`-th smallest.
pub open spec fn selected<T: PartialOrd>(before: Seq<T>, k: int, after: Seq<T>) -> bool {
    &&& 0 <= k < after.len()
    &&& after.to_multiset() == before.to_multiset()
    &&& forall|i: int| 0 <= i < k ==> !less(after[k], #[trigger] after[i])
    &&& forall|i: int| k < i < after.len() ==> !less(#[trigger] after[i], after[k])
}

/// Partitions `list[lo..hi)` around the element at `pivot_idx`: smaller items
/// end up before the pivot, larger or equal items after it. Returns the pivot's
/// final position.
fn partition<T: PartialOrd>(list: &mut [T], lo: usize, hi: usize, pivot_idx: usize) -> (p: usize)
    requires
        total_order::<T>(),
        lo <= pivot_idx < hi <= old(list)@.len(),
    ensures
        lo <= p < hi,
        final(list)@.len() == old(list)@.len(),
        final(list)@.to_multiset() == old(list)@.to_multiset(),
        forall|i: int| 0 <= i < final(list)@.len() && !(lo <= i < hi) ==> final(list)@[i] == old(list)@[i],
        drawn_from(final(list)@, old(list)@, lo as int, hi as int),
        forall|i: int| lo <= i < p ==> less(#[trigger] final(list)@[i], final(list)@[p as int]),
        forall|i: int| p < i < hi ==> !less(#[trigger] final(list)@[i], final(list)@[p as int]),
        final(list)@[p as int] == old(list)@[pivot_idx as int],
        p - lo == count_less(old(list)@.subrange(lo as int, hi as int), old(list)@[pivot_idx as int]),
{
    let ghost orig = list@;
    let ghost pv = orig[pivot_idx as int];
    let last_idx = hi - 1;
    let mut store_idx = lo;
    proof {
        lemma_swap_multiset(list@, pivot_idx as int, last_idx as int);
        lemma_swap_in_range(list@, lo as int, hi as int, pivot_idx as int, last_idx as int);
    }
    list.swap(pivot_idx, last_idx);  // move pivot to end
    proof {
        assert forall|j: int| lo <= j < hi implies exists|j2: int| lo <= j2 < hi && #[trigger] list@[j] == orig[j2] by {
            if j == pivot_idx {
                assert(list@[j] == orig[last_idx as int]);
            } else if j == last_idx {
                assert(list@[j] == orig[pivot_idx as int]);
            } else {
                assert(list@[j] == orig[j]);
            }
        }
    }
    let mut i = lo;
    while i < last_idx
        invariant
            total_order::<T>(),
            lo <= store_idx <= i <= last_idx < hi <= list@.len(),
            list@.len() == orig.len(),
            list@.to_multiset() == orig.to_multiset(),
            forall|q: int| 0 <= q < list@.len() && !(lo <= q < hi) ==> list@[q] == orig[q],
            drawn_from(list@, orig, lo as int, hi as int),
            forall|q: int| lo <= q < store_idx ==> less(#[trigger] list@[q], list@[last_idx as int]),
            forall|q: int| store_idx <= q < i ==> !less(#[trigger] list@[q], list@[last_idx as int]),
            list@[last_idx as int] == pv,
            pv == orig[pivot_idx as int],
            list@.subrange(lo as int, hi as int).to_multiset() == orig.subrange(lo as int, hi as int).to_multiset(),
        decreases last_idx - i,
    {
        // Compare with pivot value.
        if list[i] < list[last_idx] {
            let ghost before = list@;
            proof {
                lemma_swap_multiset(list@, store_idx as int, i as int);
                lemma_swap_in_range(list@, lo as int, hi as int, store_idx as int, i as int);
            }
            list.swap(store_idx, i);  // put it into the left side of pivot
            proof {
                assert forall|j: int| lo <= j < hi implies exists|j2: int| lo <= j2 < hi && #[trigger] list@[j] == orig[j2] by {
                    if j == store_idx {
                        assert(list@[j] == before[i as int]);
                        assert(exists|j2: int| lo <= j2 < hi && before[i as int] == orig[j2]);
                    } else if j == i {
                        assert(list@[j] == before[store_idx as int]);
                        assert(exists|j2: int| lo <= j2 < hi && before[store_idx as int] == orig[j2]);
                    } else {
                        assert(list@[j] == before[j]);
                    }
                }
            }
            store_idx = store_idx + 1;
        }
        i = i + 1;
    }
    let ghost before = list@;
    proof {
        lemma_swap_multiset(list@, store_idx as int, last_idx as int);
        lemma_swap_in_range(list@, lo as int, hi as int, store_idx as int, last_idx as int);
    }
    list.swap(store_idx, last_idx);  // move pivot to its final sorted place
    proof {
        assert forall|j: int| lo <= j < hi implies exists|j2: int| lo <= j2 < hi && #[trigger] list@[j] == orig[j2] by {
            if j == store_idx {
                assert(list@[j] == before[last_idx as int]);
                assert(exists|j2: int| lo <= j2 < hi && before[last_idx as int] == orig[j2]);
            } else if j == last_idx {
                assert(list@[j] == before[store_idx as int]);
                assert(exists|j2: int| lo <= j2 < hi && before[store_idx as int] == orig[j2]);
            } else {
                assert(list@[j] == before[j]);
            }
        }
        assert forall|q: int| store_idx < q < hi implies !less(#[trigger] list@[q], list@[store_idx as int]) by {
            if q == last_idx {
                assert(list@[q] == before[store_idx as int]);
            } else {
                assert(list@[q] == before[q]);
            }
        }
        // The pivot's position counts the smaller items of the range.
        let sub = list@.subrange(lo as int, hi as int);
        let k = store_idx - lo;
        assert(sub[k] == pv);
        lemma_trichotomy(pv, pv);
        assert forall|j: int| 0 <= j < k implies less(#[trigger] sub[j], pv) by {
            assert(sub[j] == list@[lo + j]);
        }
        assert forall|j: int| k <= j < sub.len() implies !less(#[trigger] sub[j], pv) by {
            assert(sub[j] == list@[lo + j]);
        }
        lemma_count_less_split(sub, pv, k);
        let below = |e: T| less(e, pv);
        lemma_count_less_is_count_where(sub, pv, below);
        lemma_count_less_is_count_where(orig.subrange(lo as int, hi as int), pv, below);
        lemma_count_permutation(sub, orig.subrange(lo as int, hi as int), below);
    }
    store_idx
}

/// Swapping two elements of `s[lo..hi)` keeps the multiset of that range.
proof fn lemma_swap_in_range<T>(s: Seq<T>, lo: int, hi: int, a: int, b: int)
    requires
        0 <= lo <= a < hi <= s.len(),
        lo <= b < hi,
    ensures
        s.update(a, s[b]).update(b, s[a]).subrange(lo, hi).to_multiset() == s.subrange(
            lo,
            hi,
        ).to_multiset(),
{
    let sub = s.subrange(lo, hi);
    assert(s.update(a, s[b]).update(b, s[a]).subrange(lo, hi) =~= sub.update(a - lo, sub[b - lo]).update(
        b - lo,
        sub[a - lo],
    ));
    lemma_swap_multiset(sub, a - lo, b - lo);
}

/// Counting the elements below `v` is counting those that satisfy `p`, where `p`
/// holds exactly of the elements below `v`.
proof fn lemma_count_less_is_count_where<T: PartialOrd>(s: Seq<T>, v: T, p: spec_fn(T) -> bool)
    requires
        forall|e: T| #[trigger] p(e) == less(e, v),
    ensures
        count_less(s, v) == count_where(s, p),
    decreases s.len(),
{
    if s.len() > 0 {
        lemma_count_less_is_count_where(s.drop_last(), v, p);
        assert(p(s.last()) == less(s.last(), v));
    }
}

/// Everything in `s[..lo)` is at most everything in `s[lo..)`.
pub open spec fn split_below<T: PartialOrd>(s: Seq<T>, lo: int) -> bool {
    forall|i: int, j: int| 0 <= i < lo <= j < s.len() ==> !less(#[trigger] s[j], #[trigger] s[i])
}

/// # Quickselect
///
/// Selects the k-th smallest element (counting from 0) of an unordered slice,
/// reordering the slice in place around randomly chosen pivots.
pub fn quick_smallest<T: PartialOrd>(list: &mut [T], k: usize) -> (r: &T)
    requires
        total_order::<T>(),
        k < old(list)@.len(),
    ensures
        selected(old(list)@, k as int, final(list)@),
        *r == final(list)@[k as int],
{
    let pick = |lo: usize, hi: usize| -> (p: usize)
        requires
            hi > lo,
        ensures
            p >= lo && hi > p,
        { random_index(lo, hi) };
    quick_smallest_by(list, k, pick)
}

/// Quickselect whose pivots come from `choose_pivot`: given the bounds `lo < hi`
/// of the part still searched, it names a position in `[lo, hi)`. A fixed rule
/// makes the reordering reproducible.
pub fn quick_smallest_by<T: PartialOrd, F: Fn(usize, usize) -> usize>(
    list: &mut [T],
    k: usize,
    choose_pivot: F,
) -> (r: &T)
    requires
        total_order::<T>(),
        k < old(list)@.len(),
        forall|lo: usize, hi: usize| lo < hi ==> choose_pivot.requires((lo, hi)),
        forall|lo: usize, hi: usize, p: usize|
            lo < hi && choose_pivot.ensures((lo, hi), p) ==> lo <= p < hi,
    ensures
        selected(old(list)@, k as int, final(list)@),
        *r == final(list)@[k as int],
{
    let ghost orig = list@;
    let mut lo: usize = 0;
    let mut hi: usize = list.len();
    while hi - lo != 1
        invariant
            total_order::<T>(),
            lo <= k < hi <= list@.len(),
            orig == old(list)@,
            list@.len() == orig.len(),
            list@.to_multiset() == orig.to_multiset(),
            split_below(list@, lo as int),
            split_below(list@, hi as int),
            forall|a: usize, b: usize| a < b ==> choose_pivot.requires((a, b)),
            forall|a: usize, b: usize, p: usize|
                a < b && choose_pivot.ensures((a, b), p) ==> a <= p < b,
        decreases hi - lo,
    {
        // Randomly choose a pivot and partition the range accordingly.
        let ghost old_list = list@;
        let pivot_idx = choose_pivot(lo, hi);
        let p = partition(list, lo, hi, pivot_idx);
        let ghost l = list@;
        proof {
            // What lay below `lo` or from `hi` on stays where it was, and keeps its
            // order against everything that moved.
            assert forall|i: int, j: int| 0 <= i < lo <= j < l.len() implies !less(
                #[trigger] l[j],
                #[trigger] l[i],
            ) by {
                assert(l[i] == old_list[i]);
                if j < hi {
                    let j2 = choose|j2: int| lo <= j2 < hi && l[j] == old_list[j2];
                    assert(!less(old_list[j2], old_list[i]));
                } else {
                    assert(l[j] == old_list[j]);
                }
            }
            assert forall|i: int, j: int| 0 <= i < hi <= j < l.len() implies !less(
                #[trigger] l[j],
                #[trigger] l[i],
            ) by {
                assert(l[j] == old_list[j]);
                if i >= lo {
                    let i2 = choose|i2: int| lo <= i2 < hi && l[i] == old_list[i2];
                    assert(!less(old_list[j], old_list[i2]));
                } else {
                    assert(l[i] == old_list[i]);
                }
            }
            // Around the pivot: smaller before it, larger or equal after it.
            assert forall|i: int, j: int| lo <= i <= p <= j < hi implies !less(
                #[trigger] l[j],
                #[trigger] l[i],
            ) by {
                if i < p {
                    assert(less(l[i], l[p as int]));
                }
                if j > p {
                    assert(!less(l[j], l[p as int]));
                }
                lemma_trichotomy(l[j], l[p as int]);
                lemma_trichotomy(l[i], l[p as int]);
                lemma_trichotomy(l[i], l[j]);
            }
        }
        if k == p {
            proof {
                assert forall|i: int| 0 <= i < k implies !less(l[k as int], #[trigger] l[i]) by {
                    if i < lo {
                        assert(!less(l[k as int], l[i]));
                    } else {
                        assert(!less(l[p as int], l[i]));
                    }
                }
                assert forall|i: int| k < i < l.len() implies !less(#[trigger] l[i], l[k as int]) by {
                    if i >= hi {
                        assert(!less(l[i], l[k as int]));
                    } else {
                        assert(!less(l[i], l[p as int]));
                    }
                }
            }
            return &list[k];  // found it!
        } else if k < p {
            hi = p;  // take the left side
        } else {
            lo = p + 1;  // take the right side
        }
    }
    &list[k]  // only one possibility
}

/// The number of elements of `s` that satisfy `p`.
pub open spec fn count_where<T>(s: Seq<T>, p: spec_fn(T) -> bool) -> nat
    decreases s.len(),
{
    if s.len() == 0 {
        0
    } else {
        count_where(s.drop_last(), p) + if p(s.last()) {
            1nat
        } else {
            0nat
        }
    }
}

proof fn lemma_count_remove<T>(s: Seq<T>, p: spec_fn(T) -> bool, i: int)
    requires
        0 <= i < s.len(),
    ensures
        count_where(s, p) == count_where(s.remove(i), p) + if p(s[i]) {
            1nat
        } else {
            0nat
        },
    decreases s.len(),
{
    if i < s.len() - 1 {
        let t = s.drop_last();
        lemma_count_remove(t, p, i);
        assert(s.remove(i).drop_last() =~= t.remove(i));
        assert(s.remove(i).last() == s.last());
    } else {
        assert(s.remove(i) =~= s.drop_last());
    }
}

proof fn lemma_count_permutation<T>(s: Seq<T>, t: Seq<T>, p: spec_fn(T) -> bool)
    requires
        s.to_multiset() == t.to_multiset(),
    ensures
        count_where(s, p) == count_where(t, p),
    decreases s.len(),
{
    broadcast use vstd::multiset::group_multiset_axioms;

    vstd::seq_lib::to_multiset_len(s);
    vstd::seq_lib::to_multiset_len(t);
    if s.len() > 0 {
        let a = s.last();
        let rest = s.drop_last();
        assert(s.contains(a));
        vstd::seq_lib::to_multiset_contains(s, a);
        vstd::seq_lib::to_multiset_contains(t, a);
        let i = choose|i: int| 0 <= i < t.len() && t[i] == a;
        vstd::seq_lib::to_multiset_remove(t, i);
        assert(s =~= rest.push(a));
        vstd::seq_lib::to_multiset_build(rest, a);
        assert(rest.to_multiset() =~= s.to_multiset().remove(a));
        lemma_count_permutation(rest, t.remove(i), p);
        lemma_count_remove(t, p, i);
    }
}

proof fn lemma_count_at_most_len<T>(s: Seq<T>, p: spec_fn(T) -> bool)
    ensures
        count_where(s, p) <= s.len(),
    decreases s.len(),
{
    if s.len() > 0 {
        lemma_count_at_most_len(s.drop_last(), p);
    }
}

proof fn lemma_count_prefix_all<T>(s: Seq<T>, p: spec_fn(T) -> bool, n: int)
    requires
        0 <= n <= s.len(),
        forall|i: int| 0 <= i < n ==> p(#[trigger] s[i]),
    ensures
        count_where(s, p) >= n,
    decreases s.len(),
{
    if s.len() > 0 {
        let t = s.drop_last();
        if n == s.len() {
            lemma_count_prefix_all(t, p, n - 1);
            assert(p(s[n - 1]));
        } else {
            assert forall|i: int| 0 <= i < n implies p(#[trigger] t[i]) by {
                assert(t[i] == s[i]);
            }
            lemma_count_prefix_all(t, p, n);
        }
    }
}

proof fn lemma_count_suffix_none<T>(s: Seq<T>, p: spec_fn(T) -> bool, n: int)
    requires
        0 <= n,
        forall|i: int| n <= i < s.len() ==> !p(#[trigger] s[i]),
    ensures
        count_where(s, p) <= n,
    decreases s.len(),
{
    if s.len() <= n {
        lemma_count_at_most_len(s, p);
    } else {
        let t = s.drop_last();
        assert forall|i: int| n <= i < t.len() implies !p(#[trigger] t[i]) by {
            assert(t[i] == s[i]);
        }
        lemma_count_suffix_none(t, p, n);
        assert(!p(s[s.len() - 1]));
    }
}

/// The element selected at `k` equals the `k`-th element of every sorted
/// arrangement of the same elements.
pub proof fn lemma_selection_matches_sorted<T: PartialOrd>(
    before: Seq<T>,
    k: int,
    after: Seq<T>,
    sorted_copy: Seq<T>,
)
    requires
        total_order::<T>(),
        selected(before, k, after),
        sorted(sorted_copy),
        sorted_copy.to_multiset() == before.to_multiset(),
    ensures
        k < sorted_copy.len(),
        after[k] == sorted_copy[k],
{
    vstd::seq_lib::to_multiset_len(after);
    vstd::seq_lib::to_multiset_len(sorted_copy);
    let n = after.len() as int;
    let x = after[k];
    let y = sorted_copy[k];
    lemma_trichotomy(x, y);
    lemma_trichotomy(x, x);
    if less(x, y) {
        let p = |e: T| !less(x, e);
        assert forall|i: int| 0 <= i < k + 1 implies p(#[trigger] after[i]) by {}
        lemma_count_prefix_all(after, p, k + 1);
        assert forall|i: int| k <= i < n implies !p(#[trigger] sorted_copy[i]) by {
            lemma_trichotomy(y, sorted_copy[i]);
        }
        lemma_count_suffix_none(sorted_copy, p, k);
        lemma_count_permutation(after, sorted_copy, p);
    } else if less(y, x) {
        let p = |e: T| less(e, x);
        assert forall|i: int| k <= i < n implies !p(#[trigger] after[i]) by {}
        lemma_count_suffix_none(after, p, k);
        assert forall|i: int| 0 <= i < k + 1 implies p(#[trigger] sorted_copy[i]) by {
            lemma_trichotomy(sorted_copy[i], y);
        }
        lemma_count_prefix_all(sorted_copy, p, k + 1);
        lemma_count_permutation(after, sorted_copy, p);
    }
}

} // verus!
