//! # Match
//!
//! Exactly matching a pattern over a sequence, and measuring how far apart two
//! sequences are.

use bit_vec::BitVec;
use vstd::prelude::*;
use vstd::std_specs::cmp::PartialEqSpec;

verus! {

/// Contents of a bit vector, bit by bit.
pub uninterp spec fn bits_of(v: BitVec) -> Seq<bool>;

#[verifier::external_type_specification]
#[verifier::external_body]
#[verifier::reject_recursive_types(B)]
pub struct ExBitVec<B>(BitVec<B>);

/// Relies on bit_vec's `BitVec::from_elem`: `n` bits, each equal to `bit`.
#[verifier::external_body]
fn bits_filled(n: usize, bit: bool) -> (r: BitVec)
    ensures
        bits_of(r) == Seq::new(n as nat, |_i: int| bit),
{
    BitVec::from_elem(n, bit)
}

/// Relies on bit_vec's `BitVec::set`: bit `i` becomes `x` and the others stay;
/// it panics when `i` is out of bounds.
#[verifier::external_body]
fn bit_set(v: &mut BitVec, i: usize, x: bool)
    requires
        i < bits_of(*old(v)).len(),
    ensures
        bits_of(*final(v)) == bits_of(*old(v)).update(i as int, x),
{
    v.set(i, x)
}

/// Relies on bit_vec's indexing of a `BitVec`: the bit at `i`; it panics when `i`
/// is out of bounds.
#[verifier::external_body]
fn bit_at(v: &BitVec, i: usize) -> (r: bool)
    requires
        i < bits_of(*v).len(),
    ensures
        r == bits_of(*v)[i as int],
{
    v[i]
}

/// `pattern` occurs in `sequence` starting at position `i`.
pub open spec fn matches_at<T: PartialEq>(sequence: Seq<T>, pattern: Seq<T>, i: int) -> bool {
    &&& 0 <= i
    &&& i + pattern.len() <= sequence.len()
    &&& forall|j: int| 0 <= j < pattern.len() ==> (#[trigger] sequence[i + j]).eq_spec(&pattern[j])
}

/// The first `k` elements of `pattern` occur in `sequence` ending just before
/// position `e`.
pub open spec fn prefix_ends_at<T: PartialEq>(
    sequence: Seq<T>,
    pattern: Seq<T>,
    k: int,
    e: int,
) -> bool {
    &&& 0 <= k <= e <= sequence.len()
    &&& k <= pattern.len()
    &&& forall|j: int| 0 <= j < k ==> (#[trigger] sequence[e - k + j]).eq_spec(&pattern[j])
}

proof fn lemma_prefix_step<T: PartialEq>(s: Seq<T>, p: Seq<T>, k: int, e: int)
    requires
        1 <= k <= p.len(),
        0 <= e < s.len(),
    ensures
        prefix_ends_at(s, p, k, e + 1) <==> prefix_ends_at(s, p, k - 1, e) && s[e].eq_spec(&p[k - 1]),
{
    if prefix_ends_at(s, p, k, e + 1) {
        assert(s[e + 1 - k + (k - 1)].eq_spec(&p[k - 1]));
        assert forall|j: int| 0 <= j < k - 1 implies (#[trigger] s[e - (k - 1) + j]).eq_spec(&p[j]) by {
            assert(s[e + 1 - k + j].eq_spec(&p[j]));
        }
    }
    if prefix_ends_at(s, p, k - 1, e) && s[e].eq_spec(&p[k - 1]) {
        assert forall|j: int| 0 <= j < k implies (#[trigger] s[e + 1 - k + j]).eq_spec(&p[j]) by {
            if j < k - 1 {
                assert(s[e - (k - 1) + j].eq_spec(&p[j]));
            } else {
                assert(e + 1 - k + j == e);
            }
        }
    }
}

proof fn lemma_match_is_prefix<T: PartialEq>(s: Seq<T>, p: Seq<T>, i: int)
    requires
        0 <= i,
    ensures
        matches_at(s, p, i) <==> prefix_ends_at(s, p, p.len() as int, i + p.len()),
{
    let m = p.len() as int;
    if matches_at(s, p, i) {
        assert forall|j: int| 0 <= j < m implies (#[trigger] s[i + m - m + j]).eq_spec(&p[j]) by {
            assert(s[i + j].eq_spec(&p[j]));
        }
    }
    if prefix_ends_at(s, p, m, i + m) {
        assert forall|j: int| 0 <= j < m implies (#[trigger] s[i + j]).eq_spec(&p[j]) by {
            assert(s[i + m - m + j].eq_spec(&p[j]));
        }
    }
}

/// # Bitap Algorithm
///
/// Exactly matches a pattern over the given sequence using bitwise operations,
/// and returns the position of the first occurrence, or -1 where there is none.
/// An empty pattern matches at position 0.
pub fn bitap<T: PartialEq>(sequence: &[T], pattern: &[T]) -> (r: i64)
    requires
        T::obeys_eq_spec(),
        sequence@.len() <= i64::MAX,
        pattern@.len() < usize::MAX,
    ensures
        r == -1 || matches_at(sequence@, pattern@, r as int),
        forall|i: int| 0 <= i < r || (r == -1 && 0 <= i) ==> !matches_at(sequence@, pattern@, i),
        pattern@.len() == 0 ==> r == 0,
        pattern@.len() > sequence@.len() ==> r == -1,
{
    let pat_len = pattern.len();
    let seq_len = sequence.len();
    if pat_len == 0 {
        proof {
            assert(matches_at(sequence@, pattern@, 0));
        }
        return 0;  // empty pattern matches everything
    } else if pat_len > seq_len {
        return -1;  // longer pattern matches nothing
    }
    let ghost s = sequence@;
    let ghost p = pattern@;
    let mut bit_arr = bits_filled(pat_len + 1, false);  // init bit array
    bit_set(&mut bit_arr, 0, true);
    let mut i: usize = 0;
    while i < seq_len
        invariant
            T::obeys_eq_spec(),
            s == sequence@,
            p == pattern@,
            pat_len == p.len(),
            seq_len == s.len(),
            1 <= pat_len <= seq_len <= i64::MAX,
            i <= seq_len,
            bits_of(bit_arr).len() == pat_len + 1,
            forall|k: int| 0 <= k <= pat_len ==> #[trigger] bits_of(bit_arr)[k] == prefix_ends_at(s, p, k, i as int),
            forall|st: int| 0 <= st && st + pat_len <= i ==> !matches_at(s, p, st),
        decreases seq_len - i,
    {
        // Update the bit array, highest bit first.
        let mut k: usize = pat_len;
        while k >= 1
            invariant
                T::obeys_eq_spec(),
                s == sequence@,
                p == pattern@,
                pat_len == p.len(),
                seq_len == s.len(),
                i < seq_len,
                k <= pat_len,
                bits_of(bit_arr).len() == pat_len + 1,
                forall|q: int| 0 <= q <= k ==> #[trigger] bits_of(bit_arr)[q] == prefix_ends_at(s, p, q, i as int),
                forall|q: int| k < q <= pat_len ==> #[trigger] bits_of(bit_arr)[q] == prefix_ends_at(s, p, q, i + 1),
            decreases k,
        {
            let prev_bit = bit_at(&bit_arr, k - 1);
            let same = sequence[i] == pattern[k - 1];
            proof {
                lemma_prefix_step(s, p, k as int, i as int);
            }
            bit_set(&mut bit_arr, k, prev_bit && same);
            k = k - 1;
        }
        proof {
            assert(prefix_ends_at(s, p, 0, i + 1));
        }
        if bit_at(&bit_arr, pat_len) {
            let start = i + 1 - pat_len;
            proof {
                lemma_match_is_prefix(s, p, start as int);
            }
            return start as i64;  // found a match
        }
        proof {
            assert forall|st: int| 0 <= st && st + pat_len <= i + 1 implies !matches_at(s, p, st) by {
                lemma_match_is_prefix(s, p, st);
            }
        }
        i = i + 1;
    }
    -1  // no match found
}

/// `==` on `T` is identity.
pub open spec fn eq_is_identity<T: PartialEq>() -> bool {
    forall|a: T, b: T| #[trigger] a.eq_spec(&b) <==> a == b
}

/// Where `==` on `T` is identity, an occurrence of `pattern` is a slice of
/// `sequence` equal to it.
pub proof fn lemma_match_is_equal_slice<T: PartialEq>(sequence: Seq<T>, pattern: Seq<T>, i: int)
    requires
        eq_is_identity::<T>(),
        0 <= i,
        i + pattern.len() <= sequence.len(),
    ensures
        matches_at(sequence, pattern, i) <==> sequence.subrange(i, i + pattern.len()) == pattern,
{
    let sub = sequence.subrange(i, i + pattern.len());
    if matches_at(sequence, pattern, i) {
        assert forall|j: int| 0 <= j < pattern.len() implies sub[j] == pattern[j] by {
            assert(sequence[i + j].eq_spec(&pattern[j]));
        }
        assert(sub =~= pattern);
    }
    if sub == pattern {
        assert forall|j: int| 0 <= j < pattern.len() implies (#[trigger] sequence[i + j]).eq_spec(
            &pattern[j],
        ) by {
            assert(sub[j] == pattern[j]);
        }
    }
}

/// The least of three numbers.
pub open spec fn min3(a: nat, b: nat, c: nat) -> nat {
    if a <= b && a <= c {
        a
    } else if b <= c {
        b
    } else {
        c
    }
}

/// The Levenshtein distance: the fewest insertions, deletions and substitutions
/// of single elements that turn `a` into `b`.
pub open spec fn edit_distance<T: PartialEq>(a: Seq<T>, b: Seq<T>) -> nat
    decreases a.len() + b.len(),
{
    if a.len() == 0 {
        b.len()
    } else if b.len() == 0 {
        a.len()
    } else {
        min3(
            edit_distance(a.drop_last(), b) + 1,
            edit_distance(a, b.drop_last()) + 1,
            edit_distance(a.drop_last(), b.drop_last()) + if a.last().eq_spec(&b.last()) {
                0nat
            } else {
                1nat
            },
        )
    }
}

proof fn lemma_edit_distance_bound<T: PartialEq>(a: Seq<T>, b: Seq<T>)
    ensures
        edit_distance(a, b) <= if a.len() >= b.len() {
            a.len()
        } else {
            b.len()
        },
    decreases a.len() + b.len(),
{
    if a.len() > 0 && b.len() > 0 {
        lemma_edit_distance_bound(a.drop_last(), b.drop_last());
    }
}

proof fn lemma_edit_distance_symmetric<T: PartialEq>(a: Seq<T>, b: Seq<T>)
    requires
        eq_is_identity::<T>(),
    ensures
        edit_distance(a, b) == edit_distance(b, a),
    decreases a.len() + b.len(),
{
    if a.len() > 0 && b.len() > 0 {
        lemma_edit_distance_symmetric(a.drop_last(), b);
        lemma_edit_distance_symmetric(a, b.drop_last());
        lemma_edit_distance_symmetric(a.drop_last(), b.drop_last());
        assert(a.last().eq_spec(&b.last()) == b.last().eq_spec(&a.last()));
    }
}

proof fn lemma_edit_distance_self<T: PartialEq>(a: Seq<T>)
    requires
        eq_is_identity::<T>(),
    ensures
        edit_distance(a, a) == 0,
    decreases a.len(),
{
    if a.len() > 0 {
        lemma_edit_distance_self(a.drop_last());
        assert(a.last().eq_spec(&a.last()));
    }
}

/// The edit distance is symmetric, is zero from a sequence to itself, and from a
/// sequence to the empty one is its length.
pub proof fn lemma_levenshtein_laws<T: PartialEq>(a: Seq<T>, b: Seq<T>)
    requires
        eq_is_identity::<T>(),
    ensures
        edit_distance(a, b) == edit_distance(b, a),
        edit_distance(a, a) == 0,
        edit_distance(a, Seq::<T>::empty()) == a.len(),
{
    lemma_edit_distance_symmetric(a, b);
    lemma_edit_distance_self(a);
}

/// # Levenshtein Edit Distance
///
/// Calculates the minimum edit distance between two sequences, filling the
/// distance table one column (one target prefix) at a time.
pub fn levenshtein_distance<T: PartialEq>(source: &[T], target: &[T]) -> (r: u64)
    requires
        T::obeys_eq_spec(),
    ensures
        r == edit_distance(source@, target@),
{
    let m = source.len();
    let n = target.len();
    let ghost a = source@;
    let ghost b = target@;
    proof {
        assert(usize::MAX as int <= u64::MAX as int);
    }
    // Source prefixes can be transformed into the empty target by dropping all items.
    let mut prev: Vec<u64> = Vec::new();
    let mut i: usize = 0;
    while i < m
        invariant
            m == a.len(),
            i <= m,
            prev@.len() == i,
            forall|q: int| 0 <= q < i ==> #[trigger] prev@[q] == edit_distance(a.take(q), b.take(0)),
        decreases m - i,
    {
        prev.push(i as u64);
        i = i + 1;
    }
    prev.push(m as u64);
    assert(a.take(m as int) =~= a);
    // Each further column extends the target prefix by one item.
    let mut j: usize = 0;
    while j < n
        invariant
            T::obeys_eq_spec(),
            a == source@,
            b == target@,
            m == a.len(),
            n == b.len(),
            j <= n,
            prev@.len() == m + 1,
            forall|q: int| 0 <= q <= m ==> #[trigger] prev@[q] == edit_distance(a.take(q), b.take(j as int)),
        decreases n - j,
    {
        let mut cur: Vec<u64> = Vec::new();
        // The empty source turns into a target prefix by inserting every item.
        cur.push((j + 1) as u64);
        let mut i: usize = 0;
        while i < m
            invariant
                T::obeys_eq_spec(),
                a == source@,
                b == target@,
                m == a.len(),
                n == b.len(),
                j < n,
                i <= m,
                prev@.len() == m + 1,
                forall|q: int| 0 <= q <= m ==> #[trigger] prev@[q] == edit_distance(a.take(q), b.take(j as int)),
                cur@.len() == i + 1,
                forall|q: int| 0 <= q <= i ==> #[trigger] cur@[q] == edit_distance(a.take(q), b.take(j + 1)),
            decreases m - i,
        {
            let ghost ai = a.take(i + 1);
            let ghost bj = b.take(j + 1);
            proof {
                assert(ai.drop_last() =~= a.take(i as int));
                assert(bj.drop_last() =~= b.take(j as int));
                lemma_edit_distance_bound(a.take(i as int), b.take(j as int));
            }
            let substitution_cost: u64 = if source[i] == target[j] {
                0
            } else {
                1
            };
            let deletion = cur[i];
            let insertion = prev[i + 1];
            let best = if deletion < insertion {
                deletion
            } else {
                insertion
            };
            let substitution = prev[i] + substitution_cost;
            let cell = if best < substitution {
                best + 1
            } else {
                substitution
            };
            cur.push(cell);
            i = i + 1;
        }
        prev = cur;
        j = j + 1;
    }
    proof {
        assert(b.take(n as int) =~= b);
    }
    prev[m]  // the last cell holds the distance between the whole sequences
}

} // verus!
