use par_itertools::combinations_array::{
    comb_len, ParallelCombinationArray, ParallelCombinationArrayState,
};

const START: usize = 0;
const END: usize = 25;

fn states_forward<const W: bool>(start: usize, count: usize) -> Vec<(Vec<usize>, usize)> {
    let mut s = ParallelCombinationArrayState::<3, W>::with_index(5, start);
    let mut out = vec![(s.state().to_vec(), s.index())];
    for _ in 0..count {
        s.advance();
        out.push((s.state().to_vec(), s.index()));
    }
    out
}

#[test]
fn combinations_array_combination_lengths() {
    assert_eq!(comb_len::<false>(5, 3), 10);
    assert_eq!(comb_len::<false>(10, 4), 210);
    assert_eq!(comb_len::<true>(5, 3), 35);
    assert_eq!(comb_len::<true>(10, 3), 220);
}

#[test]
fn combinations_array_state_creation_with_index() {
    let s = ParallelCombinationArrayState::<3, false>::with_index(5, 1);
    assert_eq!(s.state(), [0, 1, 3]);
    let s = ParallelCombinationArrayState::<3, false>::with_index(5, 3);
    assert_eq!(s.state(), [0, 2, 3]);
    let s = ParallelCombinationArrayState::<3, false>::with_index(5, 5);
    assert_eq!(s.state(), [0, 3, 4]);
    let s = ParallelCombinationArrayState::<3, false>::with_index(5, 9);
    assert_eq!(s.state(), [2, 3, 4]);

    let s = ParallelCombinationArrayState::<3, true>::with_index(5, 1);
    assert_eq!(s.state(), [0, 0, 1]);
    let s = ParallelCombinationArrayState::<3, true>::with_index(5, 3);
    assert_eq!(s.state(), [0, 0, 3]);
    let s = ParallelCombinationArrayState::<3, true>::with_index(5, 30);
    assert_eq!(s.state(), [2, 4, 4]);
    let s = ParallelCombinationArrayState::<3, true>::with_index(5, 31);
    assert_eq!(s.state(), [3, 3, 3]);
}

#[test]
fn combinations_array_state_advance() {
    let mut s = ParallelCombinationArrayState::<3, false>::with_index(5, 0);
    let expected: [[usize; 3]; 10] = [
        [0, 1, 2],
        [0, 1, 3],
        [0, 1, 4],
        [0, 2, 3],
        [0, 2, 4],
        [0, 3, 4],
        [1, 2, 3],
        [1, 2, 4],
        [1, 3, 4],
        [2, 3, 4],
    ];
    for (i, e) in expected.iter().enumerate() {
        if i > 0 {
            s.advance();
        }
        assert_eq!(&s.state(), e);
        assert_eq!(s.index(), i);
    }

    let mut s = ParallelCombinationArrayState::<3, true>::with_index(5, 0);
    let expected: [[usize; 3]; 14] = [
        [0, 0, 0],
        [0, 0, 1],
        [0, 0, 2],
        [0, 0, 3],
        [0, 0, 4],
        [0, 1, 1],
        [0, 1, 2],
        [0, 1, 3],
        [0, 1, 4],
        [0, 2, 2],
        [0, 2, 3],
        [0, 2, 4],
        [0, 3, 3],
        [0, 3, 4],
    ];
    for (i, e) in expected.iter().enumerate() {
        if i > 0 {
            s.advance();
        }
        assert_eq!(&s.state(), e);
        assert_eq!(s.index(), i);
    }
}

#[test]
fn combinations_array_state_go_back() {
    let mut s = ParallelCombinationArrayState::<3, false>::with_index(5, 9);
    let expected: [[usize; 3]; 10] = [
        [2, 3, 4],
        [1, 3, 4],
        [1, 2, 4],
        [1, 2, 3],
        [0, 3, 4],
        [0, 2, 4],
        [0, 2, 3],
        [0, 1, 4],
        [0, 1, 3],
        [0, 1, 2],
    ];
    for (i, e) in expected.iter().enumerate() {
        if i > 0 {
            s.go_back();
        }
        assert_eq!(&s.state(), e);
        assert_eq!(s.index(), 9 - i);
    }

    let mut s = ParallelCombinationArrayState::<3, true>::with_index(5, 34);
    let expected: [[usize; 3]; 14] = [
        [4, 4, 4],
        [3, 4, 4],
        [3, 3, 4],
        [3, 3, 3],
        [2, 4, 4],
        [2, 3, 4],
        [2, 3, 3],
        [2, 2, 4],
        [2, 2, 3],
        [2, 2, 2],
        [1, 4, 4],
        [1, 3, 4],
        [1, 3, 3],
        [1, 2, 4],
    ];
    for (i, e) in expected.iter().enumerate() {
        if i > 0 {
            s.go_back();
        }
        assert_eq!(&s.state(), e);
        assert_eq!(s.index(), 34 - i);
    }
}

#[test]
fn combinations_array_simple_combination() {
    let simple_combination = ParallelCombinationArray::new::<3, false>(vec![1, 2, 3, 4]);
    let mut actual = simple_combination.collect_vec();
    actual.sort();
    assert_eq!(
        actual,
        vec![[1, 2, 3], [1, 2, 4], [1, 3, 4], [2, 3, 4]]
    );

    let simple_combination = ParallelCombinationArray::new::<3, true>(vec![1, 2, 3]);
    let mut actual = simple_combination.collect_vec();
    actual.sort();
    assert_eq!(
        actual,
        vec![
            [1, 1, 1],
            [1, 1, 2],
            [1, 1, 3],
            [1, 2, 2],
            [1, 2, 3],
            [1, 3, 3],
            [2, 2, 2],
            [2, 2, 3],
            [2, 3, 3],
            [3, 3, 3]
        ]
    );
}

#[test]
fn combinations_array_long_combination() {
    let long_combination =
        ParallelCombinationArray::new::<3, false>((START..END).collect::<Vec<_>>());
    let mut actual = long_combination.collect_vec();
    actual.sort();
    let mut expected = Vec::new();
    for i in START..END {
        for j in (i + 1)..END {
            for k in (j + 1)..END {
                expected.push([i, j, k]);
            }
        }
    }
    expected.sort();
    assert_eq!(actual, expected);

    let long_combination =
        ParallelCombinationArray::new::<3, true>((START..END).collect::<Vec<_>>());
    let mut actual = long_combination.collect_vec();
    actual.sort();
    let mut expected = Vec::new();
    for i in START..END {
        for j in i..END {
            for k in j..END {
                expected.push([i, j, k]);
            }
        }
    }
    expected.sort();
    assert_eq!(actual, expected);
}

#[test]
fn rayon_combinations_without_repetitions_on_array() {
    let array = [0, 1, 2];
    let mut expected_combinations = [[0, 1], [1, 2], [0, 2]];
    expected_combinations.sort();

    let mut actual_combinations =
        ParallelCombinationArray::new::<2, false>(array.to_vec()).collect_vec();
    actual_combinations.sort();

    assert_eq!(expected_combinations.as_ref(), actual_combinations.as_slice());
}

#[test]
fn combinations_follow_each_other_in_order() {
    let forward = states_forward::<false>(0, 9);
    for w in forward.windows(2) {
        assert!(w[0].0 < w[1].0);
        assert_eq!(w[0].1 + 1, w[1].1);
    }
    let forward = states_forward::<true>(0, 34);
    for w in forward.windows(2) {
        assert!(w[0].0 < w[1].0);
    }
}
