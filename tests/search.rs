use ult_algo::sequence::search::{
    binary, binary_nearest_neighbor, binary_predecessor, binary_successor, exponential,
    interpolation, BinarySearchResult, SearchTarget,
};

#[test]
fn search_receives_integer_sequence() {
    let sequence: Vec<u32> = (0..100).collect();
    assert_eq!(exponential(&sequence, &87).unwrap(), 87);
}

#[test]
fn search_receives_char_sequence() {
    let sequence: Vec<char> = "abcdefghijklmnopqrstuvwxyz".chars().collect();
    assert_eq!(exponential(&sequence, &'g').unwrap(), 6);
}

#[test]
fn search_receives_empty_sequence() {
    let sequence = vec![];
    assert_eq!(exponential(&sequence, &1), None);
}

#[test]
fn search_finds_non_existent_large_item() {
    let sequence: Vec<u32> = (0..100).collect();
    assert_eq!(exponential(&sequence, &100), None);
}

#[test]
fn search_finds_non_existent_small_item() {
    let sequence: Vec<i32> = (0..100).collect();
    assert_eq!(exponential(&sequence, &-200), None);
}

#[test]
fn exponential_finds_every_item_and_no_gap() {
    let sequence: Vec<i64> = (0..37).map(|x| 3 * x).collect();
    for (i, x) in sequence.iter().enumerate() {
        assert_eq!(exponential(&sequence, x), Some(i));
        assert_eq!(exponential(&sequence, &(x + 1)), None);
    }
    assert_eq!(exponential(&sequence, &-1), None);
}

#[test]
fn receives_integer_sequence() {
    let sequence: Vec<u32> = (0..100).collect();
    let result = binary(&sequence, &87);
    assert_eq!(result.index.unwrap(), 87);
    assert_eq!(result.rank, 87);
}

#[test]
fn receives_char_sequence() {
    let sequence: Vec<char> = "abcdefghijklmnopqrstuvwxyz".chars().collect();
    let result = binary(&sequence, &'g');
    assert_eq!(result.index.unwrap(), 6);
    assert_eq!(result.rank, 6);
}

#[test]
fn receives_empty_sequence() {
    let sequence = vec![];
    let result = binary(&sequence, &1);
    assert_eq!(result.index, None);
    assert_eq!(result.rank, 0);
}

#[test]
fn finds_non_existent_large_item() {
    let sequence: Vec<u32> = (0..100).collect();
    let result = binary(&sequence, &100);
    assert_eq!(result.index, None);
    assert_eq!(result.rank, 100);
}

#[test]
fn finds_non_existent_small_item() {
    let sequence: Vec<i32> = (0..100).collect();
    let result = binary(&sequence, &-200);
    assert_eq!(result.index, None);
    assert_eq!(result.rank, 0);
}

#[test]
fn binary_beyond_the_end() {
    let sequence: Vec<u32> = (0..100).collect();
    let result = binary(&sequence, &500);
    assert_eq!(result, BinarySearchResult { index: None, rank: 100 });
}

#[test]
fn binary_rank_counts_smaller_items() {
    let sequence = vec![1, 4, 5, 10, 30, 50, 80, 90];
    for v in -5..100 {
        let result = binary(&sequence, &v);
        let smaller = sequence.iter().filter(|x| **x < v).count();
        assert_eq!(result.rank, smaller);
        match result.index {
            Some(i) => assert_eq!(sequence[i], v),
            None => assert!(!sequence.contains(&v)),
        }
    }
}

#[test]
fn binary_with_repeated_items_finds_the_leftmost_match() {
    let sequence = vec![1, 2, 2, 2, 2, 3];
    assert_eq!(binary(&sequence, &2), BinarySearchResult { index: Some(1), rank: 1 });
    let ones = vec![1, 1, 1];
    assert_eq!(binary(&ones, &1), BinarySearchResult { index: Some(0), rank: 0 });
    assert_eq!(binary(&ones, &2), BinarySearchResult { index: None, rank: 3 });
    assert_eq!(binary_predecessor(&sequence, &3), Some(4));
    assert_eq!(binary_successor(&sequence, &2), Some(2));
}

#[test]
fn exponential_with_repeated_items_agrees_with_binary() {
    let sequence: Vec<i64> = vec![0, 0, 0, 5, 5, 5, 5, 6, 9, 9];
    for v in -1..11 {
        let b = binary(&sequence, &v).index;
        assert_eq!(exponential(&sequence, &v), b);
        match interpolation(&sequence, &v) {
            Some(i) => assert_eq!(sequence[i], v),
            None => assert_eq!(b, None),
        }
        assert_eq!(interpolation(&sequence, &v).is_some(), b.is_some());
    }
}

#[test]
fn new_keeps_index_and_rank() {
    let result = BinarySearchResult::new(Some(10), 10);
    assert_eq!(result.index, Some(10));
    assert_eq!(result.rank, 10);
    let result = BinarySearchResult::new(None, 11);
    assert_eq!(result.index, None);
    assert_eq!(result.rank, 11);
}

#[test]
fn finds_predecessor() {
    let sequence: Vec<u32> = (0..100).collect();
    assert_eq!(binary_predecessor(&sequence, &56).unwrap(), 55);
}

#[test]
fn finds_non_existent_predecessor() {
    let sequence: Vec<u32> = (0..100).collect();
    assert_eq!(binary_predecessor(&sequence, &0), None);
}

#[test]
fn finds_predecessor_with_non_existent_out_of_range_larger_item() {
    let sequence: Vec<u32> = (0..100).collect();
    assert_eq!(binary_predecessor(&sequence, &500).unwrap(), 99);
}

#[test]
fn finds_predecessor_with_non_existent_out_of_range_smaller_item() {
    let sequence: Vec<i32> = (0..100).collect();
    assert_eq!(binary_predecessor(&sequence, &-200), None);
}

#[test]
fn finds_predecessor_with_non_existent_in_range_item() {
    let sequence = vec![1, 4, 5, 10, 30, 50, 80, 90];
    assert_eq!(binary_predecessor(&sequence, &40).unwrap(), 4);
}

#[test]
fn finds_successor() {
    let sequence: Vec<u32> = (0..100).collect();
    assert_eq!(binary_successor(&sequence, &56).unwrap(), 57);
}

#[test]
fn finds_non_existent_successor() {
    let sequence: Vec<u32> = (0..100).collect();
    assert_eq!(binary_successor(&sequence, &99), None);
}

#[test]
fn finds_successor_with_non_existent_out_of_range_larger_item() {
    let sequence: Vec<u32> = (0..100).collect();
    assert_eq!(binary_successor(&sequence, &500), None);
}

#[test]
fn finds_successor_with_non_existent_out_of_range_smaller_item() {
    let sequence: Vec<i32> = (0..100).collect();
    assert_eq!(binary_successor(&sequence, &-100).unwrap(), 0);
}

#[test]
fn finds_successor_with_non_existent_in_range_item() {
    let sequence = vec![1, 4, 5, 10, 30, 50, 80, 90];
    assert_eq!(binary_successor(&sequence, &40).unwrap(), 5);
}

#[test]
fn successor_on_empty_sequence() {
    let sequence: Vec<i32> = vec![];
    assert_eq!(binary_successor(&sequence, &3), None);
    assert_eq!(binary_predecessor(&sequence, &3), None);
}

#[test]
fn finds_nearest_neighbor_returns_successor() {
    let sequence = vec![10, 20, 50, 60, 70, 75, 100];
    assert_eq!(binary_nearest_neighbor(&sequence, &50).unwrap(), 3);
}

#[test]
fn finds_nearest_neighbor_returns_predecessor() {
    let sequence = vec![10, 20, 50, 60, 70, 75, 100];
    assert_eq!(binary_nearest_neighbor(&sequence, &75).unwrap(), 4);
}

#[test]
fn finds_nearest_neighbor_with_equal_distance() {
    let sequence: Vec<u32> = (0..100).collect();
    assert_eq!(binary_nearest_neighbor(&sequence, &56).unwrap(), 55);
}

#[test]
fn finds_nearest_neighbor_with_non_existent_in_range_item() {
    let sequence = vec![10, 20, 50, 60, 70, 75, 100];
    assert_eq!(binary_nearest_neighbor(&sequence, &76).unwrap(), 5);
}

#[test]
fn finds_nearest_neighbor_with_non_existent_out_of_range_smaller_item() {
    let sequence = vec![10, 20, 50, 60, 70, 75, 100];
    assert_eq!(binary_nearest_neighbor(&sequence, &5).unwrap(), 0);
}

#[test]
fn finds_nearest_neighbor_with_non_existent_out_of_range_larger_item() {
    let sequence = vec![10, 20, 50, 60, 70, 75, 100];
    assert_eq!(binary_nearest_neighbor(&sequence, &106).unwrap(), 6);
}

#[test]
fn nearest_neighbor_compares_distances_from_the_value() {
    let sequence = vec![10, 20, 50, 60, 70, 75, 100];
    // 59 is 9 away from 50 and 1 away from 60.
    assert_eq!(binary_nearest_neighbor(&sequence, &59), Some(3));
    // 51 is 1 away from 50 and 9 away from 60.
    assert_eq!(binary_nearest_neighbor(&sequence, &51), Some(2));
    // 55 is as far from 50 as from 60: the predecessor wins.
    assert_eq!(binary_nearest_neighbor(&sequence, &55), Some(2));
    // 60 itself: 10 away from 50 and 10 away from 70.
    assert_eq!(binary_nearest_neighbor(&sequence, &60), Some(2));
    let unsigned: Vec<u32> = vec![3, 8, 9];
    assert_eq!(binary_nearest_neighbor(&unsigned, &7), Some(1));
    assert_eq!(binary_nearest_neighbor(&unsigned, &5), Some(0));
}

#[test]
fn nearest_neighbor_edges() {
    let sequence = vec![10, 20, 50, 60, 70, 75, 100];
    // The first item itself: its neighbour is the second.
    assert_eq!(binary_nearest_neighbor(&sequence, &10), Some(1));
    // The last item itself: its neighbour is the last but one.
    assert_eq!(binary_nearest_neighbor(&sequence, &100), Some(5));
    let empty: Vec<i32> = vec![];
    assert_eq!(binary_nearest_neighbor(&empty, &1), None);
    let single = vec![7];
    assert_eq!(binary_nearest_neighbor(&single, &7), None);
    assert_eq!(binary_nearest_neighbor(&single, &3), Some(0));
    assert_eq!(binary_nearest_neighbor(&single, &9), Some(0));
}

#[test]
fn interpolation_receives_integer_sequence() {
    let sequence: Vec<i64> = (0..100).collect();
    assert_eq!(interpolation(&sequence, &87).unwrap(), 87);
}

// Interpolation search here works on integer keys; these are the same keys.
#[test]
fn receives_float_sequence() {
    let sequence: Vec<i64> = vec![-100, -60, -34, 50, 100];
    assert_eq!(interpolation(&sequence, &-34).unwrap(), 2);
}

#[test]
fn interpolation_receives_empty_sequence() {
    let sequence = vec![];
    assert_eq!(interpolation(&sequence, &1), None);
}

#[test]
fn interpolation_finds_non_existent_large_item() {
    let sequence: Vec<i64> = (0..100).collect();
    assert_eq!(interpolation(&sequence, &100), None);
}

#[test]
fn interpolation_finds_non_existent_small_item() {
    let sequence: Vec<i64> = (0..100).collect();
    assert_eq!(interpolation(&sequence, &-200), None);
}

#[test]
fn interpolation_on_skewed_and_extreme_keys() {
    let sequence: Vec<i64> = vec![i64::MIN, -7, 0, 1, 2, 3, 1000, i64::MAX];
    for (i, x) in sequence.iter().enumerate() {
        assert_eq!(interpolation(&sequence, x), Some(i));
    }
    assert_eq!(interpolation(&sequence, &500), None);
    assert_eq!(interpolation(&sequence, &4), None);
    let flat: Vec<i64> = vec![5, 5, 5, 5];
    assert_eq!(flat[interpolation(&flat, &5).unwrap()], 5);
    assert_eq!(interpolation(&flat, &6), None);
}

#[test]
fn exponential_and_interpolation_agree_with_binary() {
    let sequence: Vec<i64> = vec![-40, -3, 0, 2, 9, 11, 12, 40, 41, 99, 1000];
    for v in -50..1010 {
        let b = binary(&sequence, &v).index;
        assert_eq!(exponential(&sequence, &v), b);
        assert_eq!(interpolation(&sequence, &v), b);
    }
}

#[test]
fn search_target_kinds_are_distinct() {
    let kinds = [SearchTarget::Minimum, SearchTarget::Maximum];
    assert!(matches!(kinds[0], SearchTarget::Minimum));
    assert!(matches!(kinds[1], SearchTarget::Maximum));
}
