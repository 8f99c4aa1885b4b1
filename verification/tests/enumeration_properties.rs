use par_itertools::combinations_array::{
    comb_len, comb_len_computable, ParallelCombinationArray, ParallelCombinationArrayIter,
    ParallelCombinationArrayProducer, ParallelCombinationArrayState,
};
use par_itertools::permutations_array::{
    perm_len, perm_len_computable, ParallelPermutationArray, ParallelPermutationArrayIter,
    ParallelPermutationArrayProducer, ParallelPermutationArrayState,
};

#[test]
fn counts_at_the_edges() {
    assert_eq!(comb_len::<false>(5, 0), 1);
    assert_eq!(comb_len::<true>(5, 0), 1);
    assert_eq!(comb_len::<false>(4, 4), 1);
    assert_eq!(comb_len::<true>(1, 4), 1);
    assert_eq!(comb_len::<false>(7, 1), 7);
    assert_eq!(comb_len::<true>(2, 5), 6);
    assert_eq!(perm_len::<false>(3, 3), 6);
    assert_eq!(perm_len::<true>(0, 3), 0);
    assert_eq!(perm_len::<true>(7, 0), 1);
    assert_eq!(perm_len::<false>(7, 1), 7);
    assert_eq!(perm_len::<true>(2, 10), 1024);
}

#[test]
fn computable_counts() {
    assert!(comb_len_computable::<false>(100, 3));
    assert!(!comb_len_computable::<false>(2, 3));
    assert!(!comb_len_computable::<true>(0, 1));
    assert!(comb_len_computable::<true>(0, 0));
    assert!(!comb_len_computable::<false>(usize::MAX, 2));
    assert!(!comb_len_computable::<true>(usize::MAX, 2));
    assert!(perm_len_computable::<false>(10, 3));
    assert!(!perm_len_computable::<false>(2, 3));
    assert!(perm_len_computable::<true>(0, 3));
    assert!(!perm_len_computable::<true>(1 << 40, 2));
    assert!(perm_len_computable::<true>(1 << 20, 2));
}

#[test]
fn combinations_are_collected_in_lexicographic_order() {
    let all = ParallelCombinationArray::new::<3, false>((0..8usize).collect()).collect_vec();
    assert_eq!(all.len(), 56);
    for pair in all.windows(2) {
        assert!(pair[0] < pair[1]);
    }
    let all = ParallelCombinationArray::new::<3, true>((0..6usize).collect()).collect_vec();
    assert_eq!(all.len(), 56);
    for pair in all.windows(2) {
        assert!(pair[0] < pair[1]);
    }
}

#[test]
fn permutations_are_collected_in_lexicographic_order() {
    let all = ParallelPermutationArray::new::<3, false>((0..6usize).collect()).collect_vec();
    assert_eq!(all.len(), 120);
    for pair in all.windows(2) {
        assert!(pair[0] < pair[1]);
    }
    let all = ParallelPermutationArray::new::<2, true>((0..6usize).collect()).collect_vec();
    assert_eq!(all.len(), 36);
    for pair in all.windows(2) {
        assert!(pair[0] < pair[1]);
    }
}

#[test]
fn advancing_a_combination_cursor_matches_creating_it_at_the_next_index() {
    for i in 0..9 {
        let mut s = ParallelCombinationArrayState::<3, false>::with_index(5, i);
        let t = ParallelCombinationArrayState::<3, false>::with_index(5, i + 1);
        s.advance();
        assert_eq!(s.state(), t.state());
        assert_eq!(s.index(), t.index());
        s.go_back();
        assert_eq!(s.state(), ParallelCombinationArrayState::<3, false>::with_index(5, i).state());
    }
    for i in 0..34 {
        let mut s = ParallelCombinationArrayState::<3, true>::with_index(5, i);
        let t = ParallelCombinationArrayState::<3, true>::with_index(5, i + 1);
        s.advance();
        assert_eq!(s.state(), t.state());
        s.go_back();
        assert_eq!(s.state(), ParallelCombinationArrayState::<3, true>::with_index(5, i).state());
    }
}

#[test]
fn advancing_past_the_last_combination() {
    let mut s = ParallelCombinationArrayState::<3, false>::with_index(5, 9);
    s.advance();
    assert_eq!(s.state(), [3, 4, 5]);
    assert_eq!(s.index(), 10);
    let mut s = ParallelCombinationArrayState::<3, true>::with_index(5, 34);
    s.advance();
    assert_eq!(s.state(), [5, 5, 5]);
    assert_eq!(s.index(), 35);
    let s = ParallelCombinationArrayState::<3, false>::with_index(5, 10);
    assert_eq!(s.state(), [3, 4, 5]);
}

#[test]
fn stepping_back_from_past_the_last_combination() {
    let mut s = ParallelCombinationArrayState::<3, false>::with_index(5, 10);
    s.go_back();
    assert_eq!(s.state(), [2, 3, 4]);
    assert_eq!(s.index(), 9);
    let mut s = ParallelCombinationArrayState::<3, false>::with_index(5, 9);
    s.advance();
    s.go_back();
    assert_eq!(s.state(), [2, 3, 4]);
    assert_eq!(s.index(), 9);
    let mut s = ParallelCombinationArrayState::<3, true>::with_index(5, 35);
    assert_eq!(s.state(), [5, 5, 5]);
    s.go_back();
    assert_eq!(s.state(), [4, 4, 4]);
    assert_eq!(s.index(), 34);
}

#[test]
fn advancing_a_permutation_cursor_matches_creating_it_at_the_next_index() {
    for i in 0..59 {
        let mut s = ParallelPermutationArrayState::<3, false>::with_index(5, i);
        let t = ParallelPermutationArrayState::<3, false>::with_index(5, i + 1);
        s.advance();
        assert_eq!(s.state(), t.state());
        s.go_back();
        assert_eq!(s.state(), ParallelPermutationArrayState::<3, false>::with_index(5, i).state());
    }
    for i in 0..124 {
        let mut s = ParallelPermutationArrayState::<3, true>::with_index(5, i);
        let t = ParallelPermutationArrayState::<3, true>::with_index(5, i + 1);
        s.advance();
        assert_eq!(s.state(), t.state());
        s.go_back();
        assert_eq!(s.state(), ParallelPermutationArrayState::<3, true>::with_index(5, i).state());
    }
}

#[test]
fn permutation_cursors_wrap_around() {
    let mut s = ParallelPermutationArrayState::<3, false>::with_index(5, 59);
    assert_eq!(s.state(), [4, 3, 2]);
    s.advance();
    assert_eq!(s.state(), [0, 1, 2]);
    assert_eq!(s.index(), 60);
    s.go_back();
    assert_eq!(s.state(), [4, 3, 2]);
    assert_eq!(s.index(), 59);

    let mut s = ParallelPermutationArrayState::<3, true>::with_index(5, 125);
    assert_eq!(s.state(), [0, 0, 0]);
    s.go_back();
    assert_eq!(s.state(), [4, 4, 4]);
    assert_eq!(s.index(), 124);

    let mut s = ParallelPermutationArrayState::<3, false>::with_index(5, 60);
    assert_eq!(s.state(), [0, 1, 2]);
    s.go_back();
    assert_eq!(s.state(), [4, 3, 2]);
    assert_eq!(s.index(), 59);
}

#[test]
fn cursors_pick_elements() {
    let elements = ['a', 'b', 'c', 'd', 'e'];
    let s = ParallelCombinationArrayState::<3, false>::with_index(5, 3);
    assert_eq!(s.get_comb(&elements), ['a', 'c', 'd']);
    let s = ParallelPermutationArrayState::<3, false>::with_index(5, 3);
    assert_eq!(s.get_perm(&elements), ['a', 'c', 'b']);
}

#[test]
fn split_combination_ranges_cover_the_enumeration() {
    let elements: Vec<usize> = (0..6).collect();
    let whole = ParallelCombinationArray::new::<3, false>(elements.clone()).collect_vec();
    let producer = ParallelCombinationArrayProducer::<usize, 3, false>::new(&elements);
    assert_eq!(producer.len(), 20);
    let (left, right) = producer.split_at(7);
    assert_eq!(left.len(), 7);
    assert_eq!(right.len(), 13);
    let mut it = left.into_iter();
    let mut out = Vec::new();
    while let Some(v) = it.next() {
        out.push(v);
    }
    let mut it = right.into_iter();
    assert!(it.can_step_back());
    while let Some(v) = it.next() {
        out.push(v);
    }
    assert_eq!(out, whole);
}

#[test]
fn combination_iterator_runs_backwards_within_the_enumeration() {
    let elements: Vec<usize> = (0..5).collect();
    let producer = ParallelCombinationArrayProducer::<usize, 3, false>::new(&elements);
    let (left, _) = producer.split_at(9);
    let (_, middle) = left.split_at(4);
    let mut it = middle.into_iter();
    assert!(it.can_step_back());
    let mut backwards = Vec::new();
    while let Some(v) = it.next_back() {
        backwards.push(v);
    }
    assert_eq!(
        backwards,
        vec![[1, 3, 4], [1, 2, 4], [1, 2, 3], [0, 3, 4], [0, 2, 4]]
    );
}

#[test]
fn permutation_iterator_runs_backwards() {
    let elements: Vec<usize> = (0..3).collect();
    let producer = ParallelPermutationArrayProducer::<usize, 2, true>::new(&elements);
    let mut it = producer.into_iter();
    assert!(it.can_step_back());
    let mut backwards = Vec::new();
    while it.can_step_back() {
        match it.next_back() {
            Some(v) => backwards.push(v),
            None => break,
        }
    }
    assert_eq!(backwards.len(), 9);
    assert_eq!(backwards[0], [2, 2]);
    assert_eq!(backwards[8], [0, 0]);

    let producer = ParallelPermutationArrayProducer::<usize, 2, false>::new(&elements);
    let (left, _) = producer.split_at(5);
    let mut it = left.into_iter();
    assert!(it.can_step_back());
    assert_eq!(it.next_back(), Some([2, 0]));
    assert_eq!(it.next(), Some([0, 1]));
}

#[test]
fn the_last_item_comes_first_from_the_back() {
    let mut it = ParallelCombinationArrayIter::<i32, 3, false>::new(&[1, 2, 3, 4, 5], 9, 10);
    assert!(it.can_step_back());
    assert_eq!(it.next_back(), Some([3, 4, 5]));
    assert_eq!(it.len(), 0);
    assert_eq!(it.next(), None);

    let mut it = ParallelPermutationArrayIter::<i32, 2, false>::new(&[0, 1, 2], 5, 6);
    assert!(it.can_step_back());
    assert_eq!(it.next_back(), Some([2, 1]));
    assert_eq!(it.len(), 0);

    let elements: Vec<usize> = (0..5).collect();
    let mut it = ParallelCombinationArrayProducer::<usize, 3, false>::new(&elements).into_iter();
    let mut backwards = Vec::new();
    while it.can_step_back() {
        match it.next_back() {
            Some(v) => backwards.push(v),
            None => break,
        }
    }
    assert_eq!(backwards.len(), 10);
    assert_eq!(backwards[0], [2, 3, 4]);
    assert_eq!(backwards[9], [0, 1, 2]);
}

#[test]
fn iterator_length_counts_what_is_left() {
    let elements: Vec<usize> = (0..5).collect();
    let mut it = ParallelCombinationArrayProducer::<usize, 3, false>::new(&elements).into_iter();
    assert_eq!(it.len(), 10);
    it.next();
    assert_eq!(it.len(), 9);
    it.next_back();
    assert_eq!(it.len(), 8);

    let mut it = ParallelPermutationArrayProducer::<usize, 2, true>::new(&elements).into_iter();
    assert_eq!(it.len(), 25);
    it.next();
    it.next();
    assert_eq!(it.len(), 23);
    it.next_back();
    assert_eq!(it.len(), 22);
}

#[test]
fn collecting_what_is_left_of_an_iterator() {
    let elements: Vec<usize> = (0..4).collect();
    let mut it = ParallelCombinationArrayIter::<usize, 2, false>::new(&elements, 2, 5);
    assert_eq!(it.collect_remaining(), vec![[0, 3], [1, 2], [1, 3]]);
    assert_eq!(it.len(), 0);
    assert_eq!(it.next(), None);

    let mut it = ParallelPermutationArrayIter::<usize, 2, false>::new(&elements, 10, 12);
    it.next_back();
    assert_eq!(it.collect_remaining(), vec![[3, 1]]);
}

#[test]
fn arrangements_of_length_zero() {
    let empty: [i32; 0] = [];
    let mut it = ParallelPermutationArrayIter::<i32, 0, false>::new(&empty, 0, 1);
    assert_eq!(it.next(), Some([]));
    assert_eq!(it.next(), None);
    assert_eq!(perm_len::<false>(0, 0), 1);
}
