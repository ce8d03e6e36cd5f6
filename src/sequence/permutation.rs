//! # Permutation
//!
//! Generators that produce every permutation of a sequence, one per call, and
//! start over once they are exhausted.

use super::order::{less, total_order};
use vstd::prelude::*;
use vstd::std_specs::cmp::PartialOrdSpec;

verus! {

/// `s` with the elements at `a` and `b` exchanged.
pub open spec fn swapped<T>(s: Seq<T>, a: int, b: int) -> Seq<T> {
    s.update(a, s[b]).update(b, s[a])
}

/// `v` is an element-wise clone of `s`.
pub open spec fn clone_of<T: Clone>(s: Seq<T>, v: Seq<T>) -> bool {
    &&& v.len() == s.len()
    &&& forall|i: int| 0 <= i < s.len() ==> cloned(#[trigger] s[i], v[i])
}

/// The first position from `i` on whose interchange counter is below the
/// position, or `sw.len()` where there is none.
pub open spec fn next_open(sw: Seq<usize>, i: int) -> int
    decreases sw.len() - i,
{
    if i >= sw.len() || i < 0 {
        sw.len() as int
    } else if sw[i] < i {
        i
    } else {
        next_open(sw, i + 1)
    }
}

/// The counters below position `c` reset, the one at `c` one higher, the rest
/// unchanged.
pub open spec fn raise_at(sw: Seq<usize>, c: int) -> Seq<usize> {
    Seq::new(
        sw.len(),
        |i: int|
            if i < c {
                0usize
            } else if i == c {
                (sw[c] + 1) as usize
            } else {
                sw[i]
            },
    )
}

/// The counters after a step: raised at the first open position.
pub open spec fn counters_after(sw: Seq<usize>) -> Seq<usize> {
    raise_at(sw, next_open(sw, 0))
}

proof fn lemma_next_open(sw: Seq<usize>, i: int)
    requires
        0 <= i <= sw.len(),
    ensures
        i <= next_open(sw, i) <= sw.len(),
        next_open(sw, i) < sw.len() ==> sw[next_open(sw, i)] < next_open(sw, i),
        forall|q: int| i <= q < next_open(sw, i) ==> sw[q] >= q,
    decreases sw.len() - i,
{
    if i < sw.len() && sw[i] >= i {
        lemma_next_open(sw, i + 1);
    }
}

/// # Heap's Algorithm
///
/// Generates all possible permutations of *n* objects, each from the previous one
/// by a single swap. First proposed by B. R. Heap in 1963.
pub struct HeapGen<T: Clone> {
    /// Last generated permutation
    last_permutation: Vec<T>,
    /// Interchange counter of every position
    swaps: Vec<usize>,
    /// Position whose counter is examined next
    n: usize,
    /// Whether the current cycle has produced its first permutation
    started: bool,
    /// The sequence the generator was made with
    initial: Ghost<Seq<T>>,
}

impl<T: Clone> HeapGen<T> {
    /// Last generated permutation.
    pub closed spec fn permutation(&self) -> Seq<T> {
        self.last_permutation@
    }

    /// Interchange counters, one per position.
    pub closed spec fn counters(&self) -> Seq<usize> {
        self.swaps@
    }

    /// Whether the current cycle has produced its first permutation.
    pub closed spec fn started(&self) -> bool {
        self.started
    }

    /// The sequence the generator was made with.
    pub closed spec fn initial(&self) -> Seq<T> {
        self.initial@
    }

    /// One counter per position, each at most its position, the cursor at the
    /// start, and the current permutation a rearrangement of the initial one.
    pub closed spec fn wf(&self) -> bool {
        &&& self.swaps@.len() == self.last_permutation@.len()
        &&& self.swaps@.len() <= usize::MAX
        &&& self.n == 0
        &&& forall|i: int| 0 <= i < self.swaps@.len() ==> #[trigger] self.swaps@[i] <= i
        &&& self.last_permutation@.to_multiset() == self.initial@.to_multiset()
    }

    pub fn new(sequence: Vec<T>) -> (r: HeapGen<T>)
        ensures
            r.wf(),
            r.permutation() == sequence@,
            r.initial() == sequence@,
            r.counters() == Seq::new(sequence@.len(), |_i: int| 0usize),
            !r.started(),
    {
        let len = sequence.len();
        let swaps = vec![0usize; len];
        assert(swaps@ =~= Seq::new(sequence@.len(), |_i: int| 0usize));
        HeapGen {
            swaps,
            initial: Ghost(sequence@),
            last_permutation: sequence,
            n: 0,
            started: false,
        }
    }

    /// Produces the next permutation, or `None` once the cycle is exhausted; the
    /// call after `None` starts the cycle again.
    ///
    /// The first call of a cycle returns the sequence as it stands. Each later call
    /// finds the first position `c` whose counter is below `c`, swaps position `c`
    /// with position 0 (`c` even) or with its counter's position (`c` odd), and
    /// updates the counters as `counters_after` says. Where no such position is
    /// left, the counters are reset and `None` is returned.
    pub fn next(&mut self) -> (r: Option<Vec<T>>)
        requires
            old(self).wf(),
        ensures
            final(self).wf(),
            final(self).initial() == old(self).initial(),
            ({
                let perm = old(self).permutation();
                let sw = old(self).counters();
                let c = next_open(sw, 0);
                if !old(self).started() {
                    &&& final(self).permutation() == perm
                    &&& final(self).counters() == sw
                    &&& final(self).started()
                    &&& r matches Some(v) && clone_of(perm, v@)
                } else if c == sw.len() {
                    &&& final(self).permutation() == perm
                    &&& final(self).counters() == Seq::new(sw.len(), |_i: int| 0usize)
                    &&& !final(self).started()
                    &&& r is None
                } else {
                    &&& final(self).permutation() == swapped(
                        perm,
                        if c % 2 == 0 {
                            0
                        } else {
                            sw[c] as int
                        },
                        c,
                    )
                    &&& final(self).counters() == counters_after(sw)
                    &&& final(self).started()
                    &&& r matches Some(v) && clone_of(final(self).permutation(), v@)
                }
            }),
    {
        // Return without swapping only on the first call.
        if !self.started {
            self.started = true;
            return Some(self.last_permutation.clone());
        }
        let len = self.last_permutation.len();
        let ghost sw = self.swaps@;
        let ghost start = self.n as int;
        proof {
            lemma_next_open(sw, start);
        }
        // Skip the positions whose counter is used up, resetting them.
        while self.n < len && self.swaps[self.n] >= self.n
            invariant
                len == self.last_permutation@.len(),
                self.last_permutation@ == old(self).last_permutation@,
                self.initial@ == old(self).initial@,
                self.started,
                self.swaps@.len() == len,
                sw.len() == len,
                0 <= start,
                start <= self.n <= next_open(sw, start) <= len,
                next_open(sw, start) < len ==> sw[next_open(sw, start)] < next_open(sw, start),
                forall|q: int| start <= q < next_open(sw, start) ==> sw[q] >= q,
                forall|q: int| 0 <= q < len ==> #[trigger] self.swaps@[q] == if start <= q < self.n {
                    0usize
                } else {
                    sw[q]
                },
            decreases len - self.n,
        {
            let n = self.n;
            self.swaps.set(n, 0);
            self.n = n + 1;
        }
        if self.n < len {
            let n = self.n;
            let counter = self.swaps[n];
            // Swap two elements based on n.
            let ghost before = self.last_permutation@;
            let other = if n % 2 == 0 {
                0
            } else {
                counter
            };
            self.last_permutation.swap(other, n);
            proof {
                crate::sequence::selection::lemma_swap_multiset(before, other as int, n as int);
            }
            // Prepare for the next permutation.
            self.swaps.set(n, counter + 1);
            self.n = 0;
            proof {
                assert(self.swaps@ =~= counters_after(sw));
            }
            Some(self.last_permutation.clone())
        } else {
            // Reset state so the iteration may continue.
            let mut i: usize = 0;
            while i < len
                invariant
                    len == self.swaps@.len(),
                    self.last_permutation@ == old(self).last_permutation@,
                    self.initial@ == old(self).initial@,
                    i <= len,
                    forall|q: int| 0 <= q < i ==> #[trigger] self.swaps@[q] == 0usize,
                decreases len - i,
            {
                self.swaps.set(i, 0);
                i = i + 1;
            }
            assert(self.swaps@ =~= Seq::new(sw.len(), |_i: int| 0usize));
            self.n = 0;
            self.started = false;
            None
        }
    }
}

/// Directions at the start of a cycle: the first element stays, every other one
/// moves toward lower positions.
pub open spec fn initial_directions(len: nat) -> Seq<i8> {
    Seq::new(len, |i: int| if i == 0 {
        0i8
    } else {
        -1i8
    })
}

/// `m` holds the largest element that still has a direction, and no element
/// before it with a direction is as large.
pub open spec fn largest_mobile<T: PartialOrd>(perm: Seq<T>, dirs: Seq<i8>, m: int) -> bool {
    &&& 0 <= m < perm.len()
    &&& dirs[m] != 0
    &&& forall|j: int| 0 <= j < perm.len() && dirs[j] != 0 ==> !less(perm[m], #[trigger] perm[j])
    &&& forall|j: int| 0 <= j < m && dirs[j] != 0 ==> less(#[trigger] perm[j], perm[m])
}

/// Where the element at `m` moves: the neighbour in its direction.
pub open spec fn target_of(dirs: Seq<i8>, m: int) -> int {
    m + dirs[m] as int
}

/// Directions after the element at `m` moved one step. The element it passed
/// stops if it now sits at an end facing outward. The moved element stops at an
/// end, or before a larger neighbour in its direction. Every element larger than
/// it then turns toward it.
pub open spec fn directions_after<T: PartialOrd>(perm: Seq<T>, dirs: Seq<i8>, m: int) -> Seq<i8> {
    let d = dirs[m] as int;
    let p = target_of(dirs, m);
    let last = perm.len() - 1;
    let q = swapped(perm, m, p);
    let d1 = swapped(dirs, m, p);
    let d2 = if (m == 0 && d1[m] == -1) || (m == last && d1[m] == 1) {
        d1.update(m, 0i8)
    } else {
        d1
    };
    let d3 = if p == 0 || p == last || less(q[p], q[p + d]) {
        d2.update(p, 0i8)
    } else {
        d2
    };
    Seq::new(
        perm.len(),
        |i: int|
            if less(q[p], q[i]) {
                if i < p {
                    1i8
                } else {
                    -1i8
                }
            } else {
                d3[i]
            },
    )
}

/// # Steinhaus-Johnson-Trotter Algorithm
///
/// Generates all the permutations of *n* elements, each from the previous one by
/// swapping two adjacent elements. This algorithm is named after Hugo Steinhaus,
/// Selmer M. Johnson, and Hale F. Trotter; Shimon Even provided the improvement
/// of its running time that is implemented here.
pub struct SJTEven<T: Clone + PartialOrd> {
    /// Last generated permutation
    last_permutation: Vec<T>,
    /// Direction of every element (0 = stay, +1 = move right, -1 = move left)
    directions: Vec<i8>,
    /// Whether the current cycle has produced its first permutation
    started: bool,
    /// The sequence the generator was made with
    initial: Ghost<Seq<T>>,
}

impl<T: Clone + PartialOrd> SJTEven<T> {
    /// Last generated permutation.
    pub closed spec fn permutation(&self) -> Seq<T> {
        self.last_permutation@
    }

    /// Direction of the element at each position.
    pub closed spec fn directions(&self) -> Seq<i8> {
        self.directions@
    }

    /// Whether the current cycle has produced its first permutation.
    pub closed spec fn started(&self) -> bool {
        self.started
    }

    /// The sequence the generator was made with.
    pub closed spec fn initial(&self) -> Seq<T> {
        self.initial@
    }

    /// One direction per element, each -1, 0 or 1, none pointing past either end,
    /// and the current permutation a rearrangement of the initial one.
    pub closed spec fn wf(&self) -> bool {
        let len = self.last_permutation@.len();
        &&& self.directions@.len() == len
        &&& forall|i: int| 0 <= i < len ==> -1 <= #[trigger] self.directions@[i] <= 1
        &&& len > 0 ==> self.directions@[0] != -1 && self.directions@[len - 1] != 1
        &&& self.last_permutation@.to_multiset() == self.initial@.to_multiset()
    }

    pub fn new(sequence: Vec<T>) -> (r: SJTEven<T>)
        ensures
            r.wf(),
            r.permutation() == sequence@,
            r.initial() == sequence@,
            r.directions() == initial_directions(sequence@.len()),
            !r.started(),
    {
        let len = sequence.len();
        // [0, -1, -1, -1, ...]
        let mut directions: Vec<i8> = Vec::new();
        let mut i: usize = 0;
        while i < len
            invariant
                i <= len,
                directions@ =~= initial_directions(i as nat),
            decreases len - i,
        {
            directions.push(if i == 0 {
                0
            } else {
                -1
            });
            i = i + 1;
        }
        SJTEven { directions, initial: Ghost(sequence@), last_permutation: sequence, started: false }
    }

    /// Produces the next permutation, or `None` once the cycle is exhausted; the
    /// call after `None` starts the cycle again.
    ///
    /// The first call of a cycle returns the sequence as it stands. Each later call
    /// moves the largest element that has a direction one step that way, and
    /// updates the directions as `directions_after` says. Where no element has a
    /// direction, the directions are reset and `None` is returned.
    pub fn next(&mut self) -> (r: Option<Vec<T>>)
        requires
            total_order::<T>(),
            old(self).wf(),
        ensures
            final(self).wf(),
            final(self).initial() == old(self).initial(),
            ({
                let perm = old(self).permutation();
                let dirs = old(self).directions();
                if !old(self).started() {
                    &&& final(self).permutation() == perm
                    &&& final(self).directions() == dirs
                    &&& final(self).started()
                    &&& r matches Some(v) && clone_of(perm, v@)
                } else if forall|i: int| 0 <= i < dirs.len() ==> dirs[i] == 0 {
                    &&& final(self).permutation() == perm
                    &&& final(self).directions() == initial_directions(dirs.len())
                    &&& !final(self).started()
                    &&& r is None
                } else {
                    &&& exists|m: int|
                        {
                            &&& largest_mobile(perm, dirs, m)
                            &&& final(self).permutation() == swapped(perm, m, target_of(dirs, m))
                            &&& final(self).directions() == directions_after(perm, dirs, m)
                        }
                    &&& final(self).started()
                    &&& r matches Some(v) && clone_of(final(self).permutation(), v@)
                }
            }),
    {
        if !self.started {
            // Return the sequence itself as the first permutation.
            self.started = true;
            return Some(self.last_permutation.clone());
        }
        let len = self.last_permutation.len();
        let ghost perm = self.last_permutation@;
        let ghost dirs = self.directions@;
        // Find the largest element which has a nonzero direction.
        let mut max_i: usize = 0;
        let mut is_marked = false;
        let mut i: usize = 0;
        while i < len
            invariant
                total_order::<T>(),
                perm == self.last_permutation@,
                dirs == self.directions@,
                perm == old(self).last_permutation@,
                dirs == old(self).directions@,
                self.initial@ == old(self).initial@,
                self.started,
                len == perm.len(),
                dirs.len() == len,
                i <= len,
                max_i < len || (max_i == 0 && !is_marked),
                is_marked <==> exists|j: int| 0 <= j < i && dirs[j] != 0,
                !is_marked ==> max_i == 0,
                is_marked ==> {
                    &&& max_i < i
                    &&& dirs[max_i as int] != 0
                    &&& forall|j: int| 0 <= j < i && dirs[j] != 0 ==> !less(perm[max_i as int], #[trigger] perm[j])
                    &&& forall|j: int| 0 <= j < max_i && dirs[j] != 0 ==> less(#[trigger] perm[j], perm[max_i as int])
                },
            decreases len - i,
        {
            if self.directions[i] != 0 {
                if !is_marked || self.last_permutation[i] > self.last_permutation[max_i] {
                    proof {
                        if is_marked {
                            assert(less(perm[max_i as int], perm[i as int]));
                            assert forall|j: int| 0 <= j < i && dirs[j] != 0 implies less(#[trigger] perm[j], perm[i as int]) by {
                                crate::sequence::order::lemma_trichotomy(perm[j], perm[max_i as int]);
                            }
                            assert forall|j: int| 0 <= j <= i && dirs[j] != 0 implies !less(perm[i as int], #[trigger] perm[j]) by {
                                crate::sequence::order::lemma_trichotomy(perm[j], perm[i as int]);
                            }
                        } else {
                            crate::sequence::order::lemma_trichotomy(perm[i as int], perm[i as int]);
                        }
                    }
                    max_i = i;
                } else {
                    proof {
                        crate::sequence::order::lemma_trichotomy(perm[i as int], perm[max_i as int]);
                    }
                }
                is_marked = true;
            }
            i = i + 1;
        }
        // Without any direction left, every permutation has been generated.
        if !is_marked {
            // Reset state so it may regenerate all permutations.
            let mut k: usize = 0;
            while k < len
                invariant
                    len == self.directions@.len(),
                    self.last_permutation@ == perm,
                    self.initial@ == old(self).initial@,
                    k <= len,
                    forall|q: int| 0 <= q < k ==> #[trigger] self.directions@[q] == initial_directions(len as nat)[q],
                decreases len - k,
            {
                self.directions.set(k, if k == 0 {
                    0
                } else {
                    -1
                });
                k = k + 1;
            }
            assert(self.directions@ =~= initial_directions(len as nat));
            self.started = false;
            return None;
        }
        let ghost m = max_i as int;
        assert(largest_mobile(perm, dirs, m));
        // Swap the chosen element with the next element in its direction.
        let d = self.directions[max_i];
        let old_max_i = max_i;
        let new_i: usize = if d == 1 {
            max_i + 1
        } else {
            max_i - 1
        };
        self.last_permutation.swap(new_i, old_max_i);
        self.directions.swap(new_i, old_max_i);
        proof {
            crate::sequence::selection::lemma_swap_multiset(perm, new_i as int, m);
            assert(self.last_permutation@ =~= swapped(perm, m, new_i as int));
            assert(self.directions@ =~= swapped(dirs, m, new_i as int));
        }
        let last_i = len - 1;
        // The passed element stops where it would face out of the sequence.
        if (old_max_i == 0 && self.directions[0] == -1) || (old_max_i == last_i
            && self.directions[last_i] == 1) {
            self.directions.set(old_max_i, 0);
        }
        // The chosen element stops at either end, or before a larger element in
        // its direction.
        let stops = if new_i == 0 || new_i == last_i {
            true
        } else {
            let next_i: usize = if d == 1 {
                new_i + 1
            } else {
                new_i - 1
            };
            self.last_permutation[new_i] < self.last_permutation[next_i]
        };
        if stops {
            self.directions.set(new_i, 0);
        }
        let ghost d3 = self.directions@;
        // Elements greater than the chosen one turn toward it.
        let mut k: usize = 0;
        while k < len
            invariant
                total_order::<T>(),
                len == self.directions@.len(),
                len == self.last_permutation@.len(),
                self.last_permutation@ == swapped(perm, m, new_i as int),
                self.initial@ == old(self).initial@,
                self.started,
                self.last_permutation@.to_multiset() == self.initial@.to_multiset(),
                new_i < len,
                d3.len() == len,
                k <= len,
                forall|q: int| 0 <= q < k ==> #[trigger] self.directions@[q] == (if less(
                    self.last_permutation@[new_i as int],
                    self.last_permutation@[q],
                ) {
                    if q < new_i {
                        1i8
                    } else {
                        -1i8
                    }
                } else {
                    d3[q]
                }),
                forall|q: int| k <= q < len ==> #[trigger] self.directions@[q] == d3[q],
            decreases len - k,
        {
            if self.last_permutation[k] > self.last_permutation[new_i] {
                self.directions.set(k, if k < new_i {
                    1
                } else {
                    -1
                });
            }
            k = k + 1;
        }
        proof {
            assert(self.directions@ =~= directions_after(perm, dirs, m));
            crate::sequence::order::lemma_trichotomy(self.last_permutation@[new_i as int], self.last_permutation@[new_i as int]);
            assert(new_i == target_of(dirs, m));
            assert(!(forall|i: int| 0 <= i < dirs.len() ==> dirs[i] == 0));
            assert(perm == old(self).permutation());
            assert(dirs == old(self).directions());
        }
        Some(self.last_permutation.clone())
    }
}

/// A well-formed Heap generator has one interchange counter per position, each
/// at most its position.
pub proof fn lemma_heap_shape<T: Clone>(g: HeapGen<T>)
    requires
        g.wf(),
    ensures
        g.counters().len() == g.permutation().len(),
        counters_bounded(g.counters()),
{
}

/// A well-formed SJT generator has one direction per element, each -1, 0 or 1,
/// and none pointing past either end.
pub proof fn lemma_sjt_shape<T: Clone + PartialOrd>(g: SJTEven<T>)
    requires
        g.wf(),
    ensures
        g.directions().len() == g.permutation().len(),
        forall|i: int| 0 <= i < g.directions().len() ==> -1 <= #[trigger] g.directions()[i] <= 1,
        g.directions().len() > 0 ==> g.directions()[0] != -1 && g.directions()[g.directions().len() - 1] != 1,
{
}

/// Every permutation that a Heap generator holds, and so every one it emits, is
/// a rearrangement of the sequence it was made with.
pub proof fn lemma_heap_rearranges<T: Clone>(g: HeapGen<T>)
    requires
        g.wf(),
    ensures
        g.permutation().to_multiset() == g.initial().to_multiset(),
{
}

/// Every permutation that an SJT generator holds, and so every one it emits, is
/// a rearrangement of the sequence it was made with.
pub proof fn lemma_sjt_rearranges<T: Clone + PartialOrd>(g: SJTEven<T>)
    requires
        g.wf(),
    ensures
        g.permutation().to_multiset() == g.initial().to_multiset(),
{
}

/// `n!`
pub open spec fn factorial(n: nat) -> nat
    decreases n,
{
    if n == 0 {
        1
    } else {
        n * factorial((n - 1) as nat)
    }
}

/// The interchange counters read as a mixed-radix number: the counter at
/// position `i` is a digit of weight `i!`.
pub open spec fn counter_value(sw: Seq<usize>) -> nat
    decreases sw.len(),
{
    if sw.len() == 0 {
        0
    } else {
        counter_value(sw.drop_last()) + sw.last() as nat * factorial((sw.len() - 1) as nat)
    }
}

/// Every counter is at most its position.
pub open spec fn counters_bounded(sw: Seq<usize>) -> bool {
    forall|i: int| 0 <= i < sw.len() ==> #[trigger] sw[i] <= i
}

proof fn lemma_factorial_positive(n: nat)
    ensures
        factorial(n) >= 1,
    decreases n,
{
    if n > 0 {
        lemma_factorial_positive((n - 1) as nat);
        assert(n * factorial((n - 1) as nat) >= 1) by (nonlinear_arith)
            requires
                n >= 1,
                factorial((n - 1) as nat) >= 1,
        ;
    }
}

/// Adding the top digit at its largest, `n - 1`, to a number below `(n-1)!`.
proof fn lemma_top_digit(n: nat, low: nat, digit: nat)
    requires
        n >= 1,
        digit <= n - 1,
    ensures
        low + digit * factorial((n - 1) as nat) <= low + (n - 1) * factorial((n - 1) as nat),
        (n - 1) * factorial((n - 1) as nat) + factorial((n - 1) as nat) == factorial(n),
{
    let f = factorial((n - 1) as nat);
    assert(digit * f <= (n - 1) * f) by (nonlinear_arith)
        requires
            digit <= n - 1,
    ;
    assert((n - 1) * f + f == n * f) by (nonlinear_arith);
}

proof fn lemma_value_bounds(sw: Seq<usize>)
    requires
        counters_bounded(sw),
    ensures
        counter_value(sw) + 1 <= factorial(sw.len()),
        counter_value(sw) + 1 == factorial(sw.len()) <==> forall|i: int|
            0 <= i < sw.len() ==> #[trigger] sw[i] == i,
    decreases sw.len(),
{
    lemma_factorial_positive(sw.len());
    if sw.len() > 0 {
        let t = sw.drop_last();
        let n = sw.len();
        assert forall|i: int| 0 <= i < t.len() implies #[trigger] t[i] <= i by {
            assert(t[i] == sw[i]);
        }
        lemma_value_bounds(t);
        lemma_top_digit(n, counter_value(t), sw.last() as nat);
        lemma_factorial_positive((n - 1) as nat);
        let f = factorial((n - 1) as nat);
        if forall|i: int| 0 <= i < sw.len() ==> #[trigger] sw[i] == i {
            assert forall|i: int| 0 <= i < t.len() implies #[trigger] t[i] == i by {
                assert(t[i] == sw[i]);
            }
            assert(sw[n - 1] == n - 1);
        }
        if counter_value(sw) + 1 == factorial(n) {
            if (sw.last() as nat) < n - 1 {
                assert((sw.last() as nat) * f + f <= (n - 1) * f) by (nonlinear_arith)
                    requires
                        (sw.last() as nat) < n - 1,
                ;
            }
            assert(sw.last() == n - 1);
            assert(counter_value(t) + 1 == factorial((n - 1) as nat));
            assert forall|i: int| 0 <= i < sw.len() implies #[trigger] sw[i] == i by {
                if i < n - 1 {
                    assert(t[i] == sw[i]);
                }
            }
        }
    }
}

proof fn lemma_zero_value(n: nat)
    ensures
        counter_value(Seq::new(n, |_i: int| 0usize)) == 0,
    decreases n,
{
    if n > 0 {
        let z = Seq::new(n, |_i: int| 0usize);
        assert(z.drop_last() =~= Seq::new((n - 1) as nat, |_i: int| 0usize));
        lemma_zero_value((n - 1) as nat);
        assert(z.last() == 0);
        assert(0 * factorial((n - 1) as nat) == 0);
    }
}

/// Raising the digit at `c` by one, with every digit below it reset from its
/// largest value, adds one to the number.
proof fn lemma_increment(sw: Seq<usize>, c: int)
    requires
        0 <= c < sw.len() <= usize::MAX,
        sw[c] < c,
        forall|q: int| 0 <= q < c ==> #[trigger] sw[q] == q,
    ensures
        counter_value(raise_at(sw, c)) == counter_value(sw) + 1,
    decreases sw.len(),
{
    let n = sw.len();
    let t = sw.drop_last();
    let r = raise_at(sw, c);
    if c < n - 1 {
        assert forall|q: int| 0 <= q < c implies #[trigger] t[q] == q by {
            assert(t[q] == sw[q]);
        }
        lemma_increment(t, c);
        assert(r.drop_last() =~= raise_at(t, c));
        assert(r.last() == sw.last());
    } else {
        assert(r.drop_last() =~= Seq::new(c as nat, |_i: int| 0usize));
        lemma_zero_value(c as nat);
        assert forall|i: int| 0 <= i < t.len() implies #[trigger] t[i] == i by {
            assert(t[i] == sw[i]);
        }
        lemma_value_bounds(t);
        let f = factorial(c as nat);
        assert(counter_value(t) + 1 == f);
        assert(r.last() == sw[c] + 1);
        assert((sw[c] + 1) as nat * f == sw[c] as nat * f + f) by (nonlinear_arith);
        assert(counter_value(r) == counter_value(r.drop_last()) + r.last() as nat * f);
        assert(counter_value(sw) == counter_value(t) + sw.last() as nat * f);
    }
}

/// A cycle of a Heap generator emits exactly `n!` permutations. Its counters,
/// read as a mixed-radix number, start at 0 (a new generator, or one just
/// exhausted); the first call of the cycle leaves them alone, every later call
/// that emits raises them by one, and the call that finds no open position, which
/// ends the cycle, comes exactly when they have reached `n! - 1`.
pub proof fn lemma_heap_cycle_length<T: Clone>(g: HeapGen<T>)
    requires
        g.wf(),
    ensures
        counter_value(Seq::new(g.counters().len(), |_i: int| 0usize)) == 0,
        counter_value(g.counters()) < factorial(g.counters().len()),
        next_open(g.counters(), 0) == g.counters().len() <==> counter_value(g.counters()) + 1
            == factorial(g.counters().len()),
        next_open(g.counters(), 0) < g.counters().len() ==> counter_value(
            counters_after(g.counters()),
        ) == counter_value(g.counters()) + 1,
{
    let sw = g.counters();
    assert(counters_bounded(sw));
    assert(sw.len() <= usize::MAX);
    lemma_zero_value(sw.len());
    lemma_value_bounds(sw);
    lemma_next_open(sw, 0);
    let c = next_open(sw, 0);
    if c < sw.len() {
        assert forall|q: int| 0 <= q < c implies #[trigger] sw[q] == q by {
            assert(sw[q] >= q);
        }
        lemma_increment(sw, c);
        assert(!(forall|i: int| 0 <= i < sw.len() ==> #[trigger] sw[i] == i));
    } else {
        assert forall|i: int| 0 <= i < sw.len() implies #[trigger] sw[i] == i by {
            assert(sw[i] >= i);
        }
    }
}

} // verus!
