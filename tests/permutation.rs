use ult_algo::sequence::permutation::{HeapGen, SJTEven};

fn heap_take(gen: &mut HeapGen<usize>, n: usize) -> Vec<Vec<usize>> {
    let mut out = Vec::new();
    while out.len() < n {
        match gen.next() {
            Some(p) => out.push(p),
            None => break,
        }
    }
    out
}

fn heap_cycle(gen: &mut HeapGen<usize>) -> Vec<Vec<usize>> {
    heap_take(gen, usize::MAX)
}

fn sjt_take(gen: &mut SJTEven<usize>, n: usize) -> Vec<Vec<usize>> {
    let mut out = Vec::new();
    while out.len() < n {
        match gen.next() {
            Some(p) => out.push(p),
            None => break,
        }
    }
    out
}

fn sjt_cycle(gen: &mut SJTEven<usize>) -> Vec<Vec<usize>> {
    sjt_take(gen, usize::MAX)
}

fn factorial(n: usize) -> usize {
    (1..=n).product()
}

#[test]
fn permutation_generate_correct_number_of_permutations() {
    let sequence = vec![1, 2, 3, 4];
    assert_eq!(heap_cycle(&mut HeapGen::new(sequence)).len(), 24);
}

#[test]
fn permutation_generate_the_first_ten_permutations() {
    let ten_permutations = [
        [1, 2, 3, 4],
        [2, 1, 3, 4],
        [3, 1, 2, 4],
        [1, 3, 2, 4],
        [2, 3, 1, 4],
        [3, 2, 1, 4],
        [4, 2, 1, 3],
        [2, 4, 1, 3],
        [1, 4, 2, 3],
        [4, 1, 2, 3],
    ];

    let sequence = vec![1, 2, 3, 4];
    let permutations = heap_take(&mut HeapGen::new(sequence), 10);
    assert_eq!(permutations.len(), 10);
    for (i, permutation) in permutations.iter().enumerate() {
        assert_eq!(permutation[..], ten_permutations[i]);
    }
}

#[test]
fn permutation_generate_the_last_ten_permutations() {
    let ten_permutations = [
        [4, 1, 3, 2],
        [1, 4, 3, 2],
        [3, 4, 1, 2],
        [4, 3, 1, 2],
        [4, 3, 2, 1],
        [3, 4, 2, 1],
        [2, 4, 3, 1],
        [4, 2, 3, 1],
        [3, 2, 4, 1],
        [2, 3, 4, 1],
    ];

    let sequence = vec![1, 2, 3, 4];
    let mut gen = HeapGen::new(sequence);
    heap_take(&mut gen, 14);
    let permutations = heap_cycle(&mut gen);
    assert_eq!(permutations.len(), 10);
    for (i, permutation) in permutations.iter().enumerate() {
        assert_eq!(permutation[..], ten_permutations[i]);
    }
}

#[test]
fn permutation_generate_unique_permutations() {
    let sequence = vec![1, 2, 3, 4];
    let mut permutations: Vec<Vec<usize>> = heap_cycle(&mut HeapGen::new(sequence));
    permutations.sort_unstable();
    permutations.dedup();
    assert_eq!(permutations.len(), 24);
}

#[test]
fn permutation_regenerate_permutations() {
    let sequence = vec![1, 2, 3, 4];
    let mut gen = HeapGen::new(sequence);
    assert_eq!(heap_take(&mut gen, 24).len(), 24);
    assert_eq!(gen.next(), None);

    let mut permutations: Vec<Vec<usize>> = heap_cycle(&mut gen);
    permutations.sort_unstable();
    permutations.dedup();
    assert_eq!(permutations.len(), 24);
}

#[test]
fn generate_correct_number_of_permutations() {
    let sequence = vec![1, 2, 3, 4];
    assert_eq!(sjt_cycle(&mut SJTEven::new(sequence)).len(), 24);
}

#[test]
fn generate_the_first_ten_permutations() {
    let ten_permutations = [
        [1, 2, 3, 4],
        [1, 2, 4, 3],
        [1, 4, 2, 3],
        [4, 1, 2, 3],
        [4, 1, 3, 2],
        [1, 4, 3, 2],
        [1, 3, 4, 2],
        [1, 3, 2, 4],
        [3, 1, 2, 4],
        [3, 1, 4, 2],
    ];

    let sequence = vec![1, 2, 3, 4];
    let permutations = sjt_take(&mut SJTEven::new(sequence), 10);
    assert_eq!(permutations.len(), 10);
    for (i, permutation) in permutations.iter().enumerate() {
        assert_eq!(permutation[..], ten_permutations[i]);
    }
}

#[test]
fn generate_the_last_ten_permutations() {
    let ten_permutations = [
        [3, 2, 4, 1],
        [3, 2, 1, 4],
        [2, 3, 1, 4],
        [2, 3, 4, 1],
        [2, 4, 3, 1],
        [4, 2, 3, 1],
        [4, 2, 1, 3],
        [2, 4, 1, 3],
        [2, 1, 4, 3],
        [2, 1, 3, 4],
    ];

    let sequence = vec![1, 2, 3, 4];
    let mut gen = SJTEven::new(sequence);
    sjt_take(&mut gen, 14);
    let permutations = sjt_cycle(&mut gen);
    assert_eq!(permutations.len(), 10);
    for (i, permutation) in permutations.iter().enumerate() {
        assert_eq!(permutation[..], ten_permutations[i]);
    }
}

#[test]
fn generate_unique_permutations() {
    let sequence = vec![1, 2, 3, 4];
    let mut permutations: Vec<Vec<usize>> = sjt_cycle(&mut SJTEven::new(sequence));
    permutations.sort_unstable();
    permutations.dedup();
    assert_eq!(permutations.len(), 24);
}

#[test]
fn regenerate_permutations() {
    let sequence = vec![1, 2, 3, 4];
    let mut gen = SJTEven::new(sequence);
    assert_eq!(sjt_take(&mut gen, 24).len(), 24);
    assert_eq!(gen.next(), None);

    let mut permutations: Vec<Vec<usize>> = sjt_cycle(&mut gen);
    permutations.sort_unstable();
    permutations.dedup();
    assert_eq!(permutations.len(), 24);
}

#[test]
fn heap_emits_n_factorial_distinct_permutations_each_cycle() {
    for n in 0..7 {
        let sequence: Vec<usize> = (0..n).collect();
        let mut heap = HeapGen::new(sequence.clone());
        let mut first_set = Vec::new();
        for cycle in 0..3 {
            let h = heap_cycle(&mut heap);
            assert_eq!(h.len(), factorial(n));
            for p in h.iter() {
                let mut q = p.clone();
                q.sort_unstable();
                assert_eq!(q, sequence);
            }
            let mut hs = h.clone();
            hs.sort_unstable();
            hs.dedup();
            assert_eq!(hs.len(), factorial(n));
            if cycle == 0 {
                first_set = hs;
            } else {
                assert_eq!(first_set, hs);
            }
        }
    }
}

#[test]
fn sjt_emits_n_factorial_distinct_permutations_then_the_same_set() {
    for n in 0..7 {
        let sequence: Vec<usize> = (0..n).collect();
        let mut sjt = SJTEven::new(sequence.clone());
        let first = sjt_cycle(&mut sjt);
        assert_eq!(first.len(), factorial(n));
        let mut first_set = first.clone();
        first_set.sort_unstable();
        first_set.dedup();
        assert_eq!(first_set.len(), factorial(n));
        // A later cycle starts from the arrangement the previous one ended on:
        // it covers the same set again, visiting some permutations twice.
        let second = sjt_cycle(&mut sjt);
        let mut second_set = second.clone();
        second_set.sort_unstable();
        second_set.dedup();
        assert_eq!(second_set, first_set);
    }
}

#[test]
fn sjt_second_cycle_over_two_items_repeats_one() {
    let mut sjt = SJTEven::new(vec![1, 2]);
    assert_eq!(sjt_cycle(&mut sjt), vec![vec![1, 2], vec![2, 1]]);
    assert_eq!(sjt_cycle(&mut sjt), vec![vec![2, 1], vec![1, 2], vec![2, 1]]);
}

#[test]
fn sjt_steps_swap_adjacent_items() {
    let mut gen = SJTEven::new(vec![1, 2, 3, 4, 5]);
    let all = sjt_cycle(&mut gen);
    for w in all.windows(2) {
        let diff: Vec<usize> = (0..5).filter(|&i| w[0][i] != w[1][i]).collect();
        assert_eq!(diff.len(), 2);
        assert_eq!(diff[1], diff[0] + 1);
    }
}

#[test]
fn heap_steps_swap_two_items() {
    let mut gen = HeapGen::new(vec![1, 2, 3, 4, 5]);
    let all = heap_cycle(&mut gen);
    for w in all.windows(2) {
        let diff = (0..5).filter(|&i| w[0][i] != w[1][i]).count();
        assert_eq!(diff, 2);
    }
}
