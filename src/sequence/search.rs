//! # Search
//!
//! Locating a value, or its rank, in a sorted sequence.

use super::order::{
    count_less, lemma_count_less_at_match, lemma_count_less_bounds, lemma_count_less_split, lemma_trichotomy, less, sorted, strictly_sorted,
    total_order,
};
use core::ops::Sub;
use num_traits::{FromPrimitive, ToPrimitive};
use vstd::prelude::*;
use vstd::std_specs::ops::SubSpec;
use vstd::std_specs::cmp::PartialOrdSpec;

verus! {

/// Kinds of a search target: the extremum that a ternary search looks for.
pub enum SearchTarget {
    Minimum,
    Maximum,
}

/// Result of a binary search.
#[derive(Clone, Copy, Debug, PartialEq, Eq, Structural)]
pub struct BinarySearchResult {
    /// Position of the item
    pub index: Option<usize>,
    /// Number of items smaller than the item
    pub rank: usize,
}

/// What a binary search for `v` in the sorted `s` gives: the number of elements
/// below `v` as the rank, and that same position as the index where it holds
/// `v`, which is then the leftmost match.
pub open spec fn binary_result<T: PartialOrd>(s: Seq<T>, v: T) -> BinarySearchResult {
    let rank = count_less(s, v);
    BinarySearchResult {
        index: if rank < s.len() && s[rank as int] == v {
            Some(rank as usize)
        } else {
            None
        },
        rank: rank as usize,
    }
}

impl BinarySearchResult {
    /// Creates a new BinarySearchResult; a match's rank never exceeds its index.
    pub fn new(index: Option<usize>, rank: usize) -> (r: BinarySearchResult)
        requires
            index matches Some(i) ==> rank <= i,
        ensures
            r.index == index,
            r.rank == rank,
    {
        BinarySearchResult { index, rank }
    }
}

/// Binary search for `val` within `sequence[lo..hi]`: bisects down to the first
/// position of the range whose element is not below `val`, and reports a match
/// where that element is `val`. Positions are those of the whole sequence.
fn binary_in<T: PartialOrd>(sequence: &[T], val: &T, lo: usize, hi: usize) -> (r:
    BinarySearchResult)
    requires
        total_order::<T>(),
        sorted(sequence@),
        lo <= hi <= sequence@.len(),
    ensures
        lo <= r.rank <= hi,
        forall|j: int| lo <= j < r.rank ==> less(#[trigger] sequence@[j], *val),
        forall|j: int| r.rank <= j < hi ==> !less(#[trigger] sequence@[j], *val),
        r.index == (if r.rank < hi && sequence@[r.rank as int] == *val {
            Some(r.rank)
        } else {
            None
        }),
{
    let mut left: usize = lo;
    let mut right: usize = hi;
    while left < right
        invariant
            total_order::<T>(),
            sorted(sequence@),
            lo <= left <= right <= hi <= sequence@.len(),
            forall|j: int| lo <= j < left ==> less(#[trigger] sequence@[j], *val),
            forall|j: int| right <= j < hi ==> !less(#[trigger] sequence@[j], *val),
        decreases right - left,
    {
        let m = left + (right - 1 - left) / 2;
        if sequence[m] < *val {
            proof {
                assert(less(sequence@[m as int], *val));
                assert forall|j: int| lo <= j < m + 1 implies less(#[trigger] sequence@[j], *val) by {
                    if j < m {
                        lemma_trichotomy(sequence@[j], sequence@[m as int]);
                    }
                }
            }
            left = m + 1;
        } else {
            proof {
                assert(!less(sequence@[m as int], *val));
                assert forall|j: int| m <= j < hi implies !less(#[trigger] sequence@[j], *val) by {
                    if j > m {
                        lemma_trichotomy(sequence@[j], sequence@[m as int]);
                        lemma_trichotomy(sequence@[m as int], *val);
                    }
                }
            }
            right = m;
        }
    }
    if left < hi && sequence[left] == *val {
        BinarySearchResult::new(Some(left), left)
    } else {
        BinarySearchResult::new(None, left)
    }
}

/// # Binary Search
///
/// Search for position and rank of an item in a sorted sequence with the binary
/// search algorithm. The rank is the number of smaller items; the index is the
/// leftmost position holding the item, if any does.
pub fn binary<T: PartialOrd>(sequence: &[T], val: &T) -> (r: BinarySearchResult)
    requires
        total_order::<T>(),
        sorted(sequence@),
    ensures
        r == binary_result(sequence@, *val),
        r.rank == count_less(sequence@, *val),
        forall|j: int| 0 <= j < r.rank ==> less(#[trigger] sequence@[j], *val),
        forall|j: int| r.rank <= j < sequence@.len() ==> !less(#[trigger] sequence@[j], *val),
        r.index is None <==> forall|j: int| 0 <= j < sequence@.len() ==> sequence@[j] != *val,
{
    let r = binary_in(sequence, val, 0, sequence.len());
    proof {
        let s = sequence@;
        let v = *val;
        lemma_count_less_split(s, v, r.rank as int);
        if r.index is None {
            assert forall|j: int| 0 <= j < s.len() implies s[j] != v by {
                if j < r.rank {
                    lemma_trichotomy(s[j], v);
                } else {
                    lemma_trichotomy(s[r.rank as int], v);
                    lemma_trichotomy(s[j], s[r.rank as int]);
                    lemma_trichotomy(s[j], v);
                }
            }
        }
    }
    r
}

/// Position of the greatest element below the searched value, derived from a
/// search result: the one just before its rank.
pub open spec fn predecessor_of(b: BinarySearchResult) -> Option<usize> {
    if b.rank == 0 {
        None
    } else {
        Some((b.rank - 1) as usize)
    }
}

/// Position of the first element after the searched value, derived from a search
/// result: the one after an exact match, or else the rank itself.
pub open spec fn successor_of(len: nat, b: BinarySearchResult) -> Option<usize> {
    let i: int = match b.index {
        Some(_) => b.rank + 1,
        None => b.rank as int,
    };
    if i < len {
        Some(i as usize)
    } else {
        None
    }
}

/// Search for position of the predecessor of an item in a sorted sequence.
pub fn binary_predecessor<T: PartialOrd>(sequence: &[T], val: &T) -> (r: Option<usize>)
    requires
        total_order::<T>(),
        sorted(sequence@),
    ensures
        r == predecessor_of(binary_result(sequence@, *val)),
{
    let result = binary(sequence, val);
    if result.rank == 0 {
        None
    } else {
        Some(result.rank - 1)
    }
}

/// Search for position of the successor of an item in a sorted sequence.
pub fn binary_successor<T: PartialOrd>(sequence: &[T], val: &T) -> (r: Option<usize>)
    requires
        total_order::<T>(),
        sorted(sequence@),
    ensures
        r == successor_of(sequence@.len(), binary_result(sequence@, *val)),
{
    let n = sequence.len();
    let result = binary(sequence, val);
    let successor_idx = match result.index {
        Some(_) => result.rank + 1,
        None => result.rank,
    };
    if successor_idx < n {
        Some(successor_idx)
    } else {
        None
    }
}

/// # Exponential Search
///
/// Search for index/position of an item in a sorted sequence: probe positions
/// 1, 2, 4, ... until one holds an element not below the item, then search the
/// last doubling step with a binary search. The answer is binary search's index.
pub fn exponential<T: PartialOrd>(sequence: &[T], val: &T) -> (r: Option<usize>)
    requires
        total_order::<T>(),
        sorted(sequence@),
    ensures
        r == binary_result(sequence@, *val).index,
        found_outcome(sequence@, *val, r),
{
    let size = sequence.len();
    let ghost s = sequence@;
    let ghost v = *val;
    if size == 0 {
        proof {
            lemma_count_less_split(s, v, 0);
        }
        return None;
    }
    // Find the upper and lower bounds for the search space.
    let mut lower: usize = 0;
    let mut bound: usize = 1;
    while bound < size && sequence[bound] < *val
        invariant
            total_order::<T>(),
            sorted(sequence@),
            size == sequence@.len(),
            lower < bound <= size,
            forall|j: int| 0 <= j < lower ==> less(#[trigger] sequence@[j], *val),
        decreases size - bound,
    {
        proof {
            assert(less(sequence@[bound as int], *val));
            assert forall|j: int| 0 <= j < bound implies less(#[trigger] sequence@[j], *val) by {
                lemma_trichotomy(sequence@[j], sequence@[bound as int]);
            }
        }
        lower = bound;
        bound = if bound <= size / 2 {
            bound * 2
        } else {
            size
        };
    }
    let upper = if bound < size {
        bound + 1
    } else {
        size
    };
    let result = binary_in(sequence, val, lower, upper);
    proof {
        if bound < size {
            assert(!less(s[bound as int], v));
        }
        assert forall|j: int| 0 <= j < result.rank implies less(#[trigger] s[j], v) by {}
        assert forall|j: int| result.rank <= j < s.len() implies !less(#[trigger] s[j], v) by {
            if j >= upper {
                lemma_trichotomy(s[j], s[bound as int]);
                lemma_trichotomy(s[bound as int], v);
                lemma_trichotomy(s[j], v);
            }
        }
        lemma_count_less_split(s, v, result.rank as int);
        if bound < size {
            assert(result.rank <= bound);
        }
        if result.index is None {
            assert forall|j: int| 0 <= j < s.len() implies s[j] != v by {
                if j < result.rank {
                    lemma_trichotomy(s[j], v);
                } else if result.rank < s.len() {
                    lemma_trichotomy(s[result.rank as int], v);
                    lemma_trichotomy(s[j], s[result.rank as int]);
                    lemma_trichotomy(s[j], v);
                }
            }
        }
    }
    result.index
}

/// Position of the nearest neighbour derived from a search result. The
/// candidates are the predecessor (just before the rank) and the successor (the
/// rank itself, or the position after an exact match); the one closer to `v`
/// wins, the predecessor on a tie. Without a predecessor it is the successor,
/// and without a successor the predecessor.
pub open spec fn nearest_of<T: PartialOrd + Sub<Output = T>>(
    s: Seq<T>,
    v: T,
    b: BinarySearchResult,
) -> Option<usize> {
    let succ: int = match b.index {
        Some(_) => b.rank + 1,
        None => b.rank as int,
    };
    if s.len() == 0 {
        None
    } else if b.rank == 0 {
        if succ < s.len() {
            Some(succ as usize)
        } else {
            None
        }
    } else if succ < s.len() {
        let p_dist = v.sub_spec(s[b.rank - 1]);
        let s_dist = s[succ].sub_spec(v);
        if !less(s_dist, p_dist) {
            Some((b.rank - 1) as usize)
        } else {
            Some(succ as usize)
        }
    } else {
        Some((b.rank - 1) as usize)
    }
}

/// The distance between `v` and each element of `s` is defined, subtracting the
/// smaller from the larger.
pub open spec fn differences_defined<T: PartialOrd + Sub<Output = T>>(s: Seq<T>, v: T) -> bool {
    &&& T::obeys_sub_spec()
    &&& forall|j: int| 0 <= j < s.len() && !less(v, #[trigger] s[j]) ==> v.sub_req(s[j])
    &&& forall|j: int| 0 <= j < s.len() && !less(#[trigger] s[j], v) ==> s[j].sub_req(v)
}

/// Search for position of the nearest neighbor of an item in a sorted sequence.
pub fn binary_nearest_neighbor<T>(sequence: &[T], val: &T) -> (r: Option<usize>) where
    T: Copy + PartialOrd + Sub<Output = T>,

    requires
        total_order::<T>(),
        sorted(sequence@),
        differences_defined(sequence@, *val),
    ensures
        r == nearest_of(sequence@, *val, binary_result(sequence@, *val)),
{
    let n = sequence.len();
    if n == 0 {
        return None;
    }
    let result = binary(sequence, val);
    let successor_idx = match result.index {
        Some(_) => result.rank + 1,
        None => result.rank,
    };
    // Without a predecessor: the successor, if any.
    if result.rank == 0 {
        return if successor_idx < n {
            Some(successor_idx)
        } else {
            None
        };
    }
    let predecessor_idx = result.rank - 1;
    // With both candidates, the closer one wins; the predecessor on a tie.
    if successor_idx < n {
        proof {
            lemma_trichotomy(sequence@[predecessor_idx as int], *val);
        }
        let p_dist = *val - sequence[predecessor_idx];
        let s_dist = sequence[successor_idx] - *val;
        if p_dist <= s_dist {
            Some(predecessor_idx)
        } else {
            proof {
                lemma_trichotomy(p_dist, s_dist);
            }
            Some(successor_idx)
        }
    } else {
        Some(predecessor_idx)
    }
}

/// `r` is a correct answer to whether, and where, `v` occurs in `s`.
pub open spec fn found_outcome<T>(s: Seq<T>, v: T, r: Option<usize>) -> bool {
    match r {
        Some(i) => i < s.len() && s[i as int] == v,
        None => forall|j: int| 0 <= j < s.len() ==> s[j] != v,
    }
}

/// Relies on num_traits' `FromPrimitive::from_usize` for `u128`: every `usize` is
/// representable, so the value comes back unchanged.
#[verifier::external_body]
fn wide_from_index(n: usize) -> (r: Option<u128>)
    ensures
        r == Some(n as u128),
{
    <u128 as FromPrimitive>::from_usize(n)
}

/// Relies on num_traits' `ToPrimitive::to_usize` for `u128`: the same value where
/// it fits in a `usize`, and `None` otherwise.
#[verifier::external_body]
fn index_from_wide(x: u128) -> (r: Option<usize>)
    ensures
        r == (if x as int <= usize::MAX as int {
            Some(x as usize)
        } else {
            None
        }),
{
    x.to_usize()
}

/// # Interpolation Search
///
/// Search for index/position of an item in a sorted sequence of integers by
/// estimating its position from the values at both ends of the search window.
pub fn interpolation(sequence: &[i64], val: &i64) -> (r: Option<usize>)
    requires
        sorted(sequence@),
    ensures
        found_outcome(sequence@, *val, r),
{
    let n = sequence.len();
    if n == 0 {
        return None;
    }
    let v = *val;
    let mut low: usize = 0;
    let mut high: usize = n - 1;
    // Only when there are more than 1 item left and val is in the range.
    while sequence[high] != sequence[low] && (v >= sequence[low] && v <= sequence[high])
        invariant
            n == sequence@.len(),
            v == *val,
            sorted(sequence@),
            low <= high < n,
            forall|j: int| 0 <= j < low ==> #[trigger] sequence@[j] < v,
            forall|j: int| high < j < n ==> #[trigger] sequence@[j] > v,
        decreases high - low,
    {
        let lo_val = sequence[low];
        let hi_val = sequence[high];
        proof {
            assert(!less(sequence@[high as int], sequence@[low as int]));
        }
        // Interpolate position of sought item.
        let k = wide_from_index(high - low).unwrap();
        let num = (v as i128 - lo_val as i128) as u128;
        let den = (hi_val as i128 - lo_val as i128) as u128;
        proof {
            assert(usize::MAX as int <= u64::MAX as int);
            assert(num * k <= u64::MAX as int * u64::MAX as int) by (nonlinear_arith)
                requires
                    num <= u64::MAX as int,
                    k <= u64::MAX as int,
            ;
        }
        let offset = num * k / den;
        proof {
            assert(offset <= k) by (nonlinear_arith)
                requires
                    offset as int == (num as int * k as int) / (den as int),
                    num <= den,
                    den > 0,
            {
                assert(num as int * k as int <= den as int * k as int);
            }
        }
        let mid = low + index_from_wide(offset).unwrap();
        // Narrow the search space.
        if sequence[mid] < v {
            proof {
                assert forall|j: int| 0 <= j < mid + 1 implies #[trigger] sequence@[j] < v by {
                    if j < mid {
                        assert(!less(sequence@[mid as int], sequence@[j]));
                    }
                }
            }
            low = mid + 1;
        } else if sequence[mid] > v {
            proof {
                assert forall|j: int| mid - 1 < j < n implies #[trigger] sequence@[j] > v by {
                    if j > mid {
                        assert(!less(sequence@[j], sequence@[mid as int]));
                    }
                }
            }
            high = mid - 1;
        } else {
            return Some(mid);
        }
    }
    // Either it's the last item or there is none.
    if sequence[low] == v {
        Some(low)
    } else {
        proof {
            assert forall|j: int| 0 <= j < n implies sequence@[j] != v by {
                if low <= j <= high {
                    if j > low {
                        assert(!less(sequence@[j], sequence@[low as int]));
                    }
                    if j < high {
                        assert(!less(sequence@[high as int], sequence@[j]));
                    }
                }
            }
        }
        None
    }
}

/// Exponential and interpolation search agree with binary search on a sorted
/// integer sequence. Exponential search returns binary search's index outright
/// (its own contract). Interpolation search finds the value exactly when binary
/// search finds it, always at a position that holds it, and at the very same
/// position where no value repeats.
pub proof fn lemma_searches_agree_with_binary(
    s: Seq<i64>,
    v: i64,
    e: Option<usize>,
    p: Option<usize>,
)
    requires
        sorted(s),
        e == binary_result(s, v).index,
        found_outcome(s, v, p),
    ensures
        e == binary_result(s, v).index,
        p is Some <==> binary_result(s, v).index is Some,
        strictly_sorted(s) ==> p == binary_result(s, v).index,
{
    let r = count_less(s, v);
    lemma_count_less_bounds(s, v);
    if let Some(k) = p {
        lemma_count_less_at_match(s, v, k as int);
        if strictly_sorted(s) && r < k {
            assert(less(s[r as int], s[k as int]));
        }
    } else {
        if r < s.len() {
            assert(s[r as int] != v);
        }
    }
}

} // verus!
