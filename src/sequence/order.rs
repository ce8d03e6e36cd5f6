//! # Order
//!
//! The comparison model shared by the ordered algorithms: what `==`, `<` and
//! `>` mean for an element type, and what a sorted sequence is.

use core::cmp::Ordering;
use vstd::prelude::*;
use vstd::std_specs::cmp::{PartialEqSpec, PartialOrdSpec};

verus! {

/// `a` comes strictly before `b` in the order of `T`.
pub open spec fn less<T: PartialOrd>(a: T, b: T) -> bool {
    a.partial_cmp_spec(&b) == Some(Ordering::Less)
}

/// `==` on `T` is identity and `partial_cmp` is a total order consistent with it.
pub open spec fn total_order<T: PartialOrd>() -> bool {
    &&& T::obeys_eq_spec()
    &&& T::obeys_partial_cmp_spec()
    &&& forall|a: T, b: T| #[trigger] a.eq_spec(&b) <==> a == b
    &&& forall|a: T, b: T|
        {
            let c = #[trigger] a.partial_cmp_spec(&b);
            &&& c is Some
            &&& c == Some(Ordering::Equal) <==> a == b
            &&& c == Some(Ordering::Greater) <==> less(b, a)
        }
    &&& forall|a: T, b: T, c: T| #[trigger] less(a, b) && #[trigger] less(b, c) ==> less(a, c)
}

/// Every element is at most each element after it.
pub open spec fn sorted<T: PartialOrd>(s: Seq<T>) -> bool {
    forall|i: int, j: int| 0 <= i < j < s.len() ==> !less(#[trigger] s[j], #[trigger] s[i])
}

/// Every element is strictly less than each element after it.
pub open spec fn strictly_sorted<T: PartialOrd>(s: Seq<T>) -> bool {
    forall|i: int, j: int| 0 <= i < j < s.len() ==> less(#[trigger] s[i], #[trigger] s[j])
}

/// The number of elements of `s` strictly less than `v`.
pub open spec fn count_less<T: PartialOrd>(s: Seq<T>, v: T) -> nat
    decreases s.len(),
{
    if s.len() == 0 {
        0
    } else {
        count_less(s.drop_last(), v) + if less(s.last(), v) {
            1nat
        } else {
            0nat
        }
    }
}

/// Under a total order, exactly one of `a < b`, `a == b`, `b < a` holds.
pub proof fn lemma_trichotomy<T: PartialOrd>(a: T, b: T)
    requires
        total_order::<T>(),
    ensures
        less(a, b) || a == b || less(b, a),
        !(less(a, b) && a == b),
        !(less(a, b) && less(b, a)),
{
    let c = a.partial_cmp_spec(&b);
    let d = b.partial_cmp_spec(&a);
    assert(c is Some && d is Some);
    match c {
        Some(Ordering::Greater) => assert(less(b, a)),
        _ => {},
    }
}

/// When `s` splits at `r` into a part below `v` and a part not below it, `r` counts
/// the elements below `v`.
pub proof fn lemma_count_less_split<T: PartialOrd>(s: Seq<T>, v: T, r: int)
    requires
        0 <= r <= s.len(),
        forall|j: int| 0 <= j < r ==> less(#[trigger] s[j], v),
        forall|j: int| r <= j < s.len() ==> !less(#[trigger] s[j], v),
    ensures
        count_less(s, v) == r,
    decreases s.len(),
{
    if s.len() > 0 {
        let t = s.drop_last();
        if r == s.len() {
            lemma_count_less_split(t, v, r - 1);
            assert(less(s[s.len() - 1], v));
        } else {
            assert forall|j: int| 0 <= j < r implies less(#[trigger] t[j], v) by {
                assert(t[j] == s[j]);
            }
            assert forall|j: int| r <= j < t.len() implies !less(#[trigger] t[j], v) by {
                assert(t[j] == s[j]);
            }
            lemma_count_less_split(t, v, r);
            assert(!less(s[s.len() - 1], v));
        }
    }
}

/// The count of elements below `v` is at most the length.
pub proof fn lemma_count_less_bounds<T: PartialOrd>(s: Seq<T>, v: T)
    ensures
        count_less(s, v) <= s.len(),
    decreases s.len(),
{
    if s.len() > 0 {
        lemma_count_less_bounds(s.drop_last(), v);
    }
}

/// In a sorted sequence holding `v` at `k`, the leftmost match is at the count of
/// elements below `v`.
pub proof fn lemma_count_less_at_match<T: PartialOrd>(s: Seq<T>, v: T, k: int)
    requires
        total_order::<T>(),
        sorted(s),
        0 <= k < s.len(),
        s[k] == v,
    ensures
        count_less(s, v) <= k,
        s[count_less(s, v) as int] == v,
{
    let q = lemma_first_not_below(s, v, k);
    assert forall|j: int| q <= j < s.len() implies !less(#[trigger] s[j], v) by {
        lemma_trichotomy(s[j], s[q]);
        lemma_trichotomy(s[q], v);
        lemma_trichotomy(s[j], v);
    }
    lemma_count_less_split(s, v, q);
    lemma_trichotomy(s[q], s[k]);
    lemma_trichotomy(s[q], v);
}

/// In a sorted sequence whose element at `k` is not below `v`, some position up
/// to `k` is the first whose element is not below `v`.
proof fn lemma_first_not_below<T: PartialOrd>(s: Seq<T>, v: T, k: int) -> (q: int)
    requires
        total_order::<T>(),
        sorted(s),
        0 <= k < s.len(),
        !less(s[k], v),
    ensures
        0 <= q <= k,
        !less(s[q], v),
        forall|j: int| 0 <= j < q ==> less(#[trigger] s[j], v),
    decreases k,
{
    if k == 0 || !less(s[k - 1], v) {
        if k == 0 {
            0
        } else {
            lemma_first_not_below(s, v, k - 1)
        }
    } else {
        assert forall|j: int| 0 <= j < k implies less(#[trigger] s[j], v) by {
            lemma_trichotomy(s[j], s[k - 1]);
        }
        k
    }
}

} // verus!
