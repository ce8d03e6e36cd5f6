use ult_algo::sequence::selection::{quick_smallest, quick_smallest_by};

#[test]
fn receives_integer_vector_slice() {
    let mut list = vec![10, -30, -2, 5, 7, 0];
    assert_eq!(*quick_smallest(&mut list[..], 3), 5);
}

#[test]
fn receives_char_vector_slice() {
    let mut list = vec!['z', 'b', 'e', 'y', 'm', 'k'];
    assert_eq!(*quick_smallest(&mut list[..], 1), 'e');
}

#[test]
fn receives_partial_slice() {
    let mut list = vec![10, -30, 5, -2, 7, 0];
    assert_eq!(*quick_smallest(&mut list[1..5], 2), 5);
}

#[test]
fn quick_smallest_matches_sorted_copy_for_every_k() {
    let items = vec![9, -4, 7, 7, 0, 12, -4, 3, 3, 3, 100, -50];
    let mut sorted = items.clone();
    sorted.sort();
    for k in 0..items.len() {
        for _ in 0..5 {
            let mut list = items.clone();
            let x = *quick_smallest(&mut list[..], k);
            assert_eq!(x, sorted[k]);
            // Reordered in place: the same items, split around position k.
            let mut again = list.clone();
            again.sort();
            assert_eq!(again, sorted);
            assert_eq!(list[k], x);
            assert!(list[..k].iter().all(|y| *y <= x));
            assert!(list[k + 1..].iter().all(|y| *y >= x));
        }
    }
}

#[test]
fn quick_smallest_single_and_equal_items() {
    let mut one = vec![42];
    assert_eq!(*quick_smallest(&mut one[..], 0), 42);
    let mut same = vec![8, 8, 8, 8];
    assert_eq!(*quick_smallest(&mut same[..], 2), 8);
}

#[test]
fn quick_smallest_by_fixed_pivots_is_reproducible() {
    let items = vec![10, -30, 5, -2, 7, 0, 44, 3];
    let mut sorted = items.clone();
    sorted.sort();
    for k in 0..items.len() {
        let mut first = items.clone();
        let mut second = items.clone();
        let a = *quick_smallest_by(&mut first[..], k, |lo, hi| lo + (hi - lo) / 2);
        let b = *quick_smallest_by(&mut second[..], k, |lo, hi| lo + (hi - lo) / 2);
        assert_eq!(a, sorted[k]);
        assert_eq!(a, b);
        assert_eq!(first, second);
    }
}

#[test]
fn quick_smallest_by_first_and_last_pivots() {
    let mut list = vec![10, -30, 5, -2, 7, 0];
    assert_eq!(*quick_smallest_by(&mut list[1..5], 2, |lo, _hi| lo), 5);
    let mut list = vec![10, -30, 5, -2, 7, 0];
    assert_eq!(*quick_smallest_by(&mut list[1..5], 2, |_lo, hi| hi - 1), 5);
    // With the last item as the first pivot, one partition settles the whole slice.
    let mut list = vec![3, 1, 2];
    assert_eq!(*quick_smallest_by(&mut list[..], 1, |_lo, hi| hi - 1), 2);
    assert_eq!(list, vec![1, 2, 3]);
}
