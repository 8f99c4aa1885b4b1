use par_itertools::permutations_array::{
    perm_len, ParallelPermutationArray, ParallelPermutationArrayState,
};

const START: usize = 0;
const END: usize = 25;

#[test]
fn permutations_array_permutation_lengths() {
    assert_eq!(perm_len::<false>(5, 3), 60);
    assert_eq!(perm_len::<false>(10, 3), 720);
    assert_eq!(perm_len::<true>(5, 3), 125);
    assert_eq!(perm_len::<true>(10, 3), 1000);
}

#[test]
fn permutations_array_state_creation_with_index() {
    let s = ParallelPermutationArrayState::<3, false>::with_index(5, 1);
    assert_eq!(s.state(), [0, 1, 3]);
    let s = ParallelPermutationArrayState::<3, false>::with_index(5, 3);
    assert_eq!(s.state(), [0, 2, 1]);
    let s = ParallelPermutationArrayState::<3, false>::with_index(5, 42);
    assert_eq!(s.state(), [3, 2, 0]);
    let s = ParallelPermutationArrayState::<3, false>::with_index(5, 43);
    assert_eq!(s.state(), [3, 2, 1]);

    let s = ParallelPermutationArrayState::<3, true>::with_index(5, 1);
    assert_eq!(s.state(), [0, 0, 1]);
    let s = ParallelPermutationArrayState::<3, true>::with_index(5, 3);
    assert_eq!(s.state(), [0, 0, 3]);
    let s = ParallelPermutationArrayState::<3, true>::with_index(5, 42);
    assert_eq!(s.state(), [1, 3, 2]);
    let s = ParallelPermutationArrayState::<3, true>::with_index(5, 43);
    assert_eq!(s.state(), [1, 3, 3]);
}

#[test]
fn permutations_array_state_advance() {
    let mut s = ParallelPermutationArrayState::<3, false>::with_index(5, 0);
    let expected: [[usize; 3]; 14] = [
        [0, 1, 2],
        [0, 1, 3],
        [0, 1, 4],
        [0, 2, 1],
        [0, 2, 3],
        [0, 2, 4],
        [0, 3, 1],
        [0, 3, 2],
        [0, 3, 4],
        [0, 4, 1],
        [0, 4, 2],
        [0, 4, 3],
        [1, 0, 2],
        [1, 0, 3],
    ];
    for (i, e) in expected.iter().enumerate() {
        if i > 0 {
            s.advance();
        }
        assert_eq!(&s.state(), e);
        assert_eq!(s.index(), i);
    }

    let mut s = ParallelPermutationArrayState::<3, true>::with_index(5, 0);
    let expected: [[usize; 3]; 14] = [
        [0, 0, 0],
        [0, 0, 1],
        [0, 0, 2],
        [0, 0, 3],
        [0, 0, 4],
        [0, 1, 0],
        [0, 1, 1],
        [0, 1, 2],
        [0, 1, 3],
        [0, 1, 4],
        [0, 2, 0],
        [0, 2, 1],
        [0, 2, 2],
        [0, 2, 3],
    ];
    for (i, e) in expected.iter().enumerate() {
        if i > 0 {
            s.advance();
        }
        assert_eq!(&s.state(), e);
        assert_eq!(s.index(), i);
    }
}

#[test]
fn permutations_array_state_go_back() {
    let mut s = ParallelPermutationArrayState::<3, false>::with_index(5, 12);
    let expected: [[usize; 3]; 13] = [
        [1, 0, 2],
        [0, 4, 3],
        [0, 4, 2],
        [0, 4, 1],
        [0, 3, 4],
        [0, 3, 2],
        [0, 3, 1],
        [0, 2, 4],
        [0, 2, 3],
        [0, 2, 1],
        [0, 1, 4],
        [0, 1, 3],
        [0, 1, 2],
    ];
    for (i, e) in expected.iter().enumerate() {
        if i > 0 {
            s.go_back();
        }
        assert_eq!(&s.state(), e);
        assert_eq!(s.index(), 12 - i);
    }

    let mut s = ParallelPermutationArrayState::<3, true>::with_index(5, 12);
    let expected: [[usize; 3]; 13] = [
        [0, 2, 2],
        [0, 2, 1],
        [0, 2, 0],
        [0, 1, 4],
        [0, 1, 3],
        [0, 1, 2],
        [0, 1, 1],
        [0, 1, 0],
        [0, 0, 4],
        [0, 0, 3],
        [0, 0, 2],
        [0, 0, 1],
        [0, 0, 0],
    ];
    for (i, e) in expected.iter().enumerate() {
        if i > 0 {
            s.go_back();
        }
        assert_eq!(&s.state(), e);
        assert_eq!(s.index(), 12 - i);
    }
}

#[test]
fn simple_permutation() {
    let simple_permutation = ParallelPermutationArray::new::<3, false>(vec![1, 2, 3, 4]);
    let mut actual = simple_permutation.collect_vec();
    actual.sort();
    assert_eq!(
        actual,
        vec![
            [1, 2, 3],
            [1, 2, 4],
            [1, 3, 2],
            [1, 3, 4],
            [1, 4, 2],
            [1, 4, 3],
            [2, 1, 3],
            [2, 1, 4],
            [2, 3, 1],
            [2, 3, 4],
            [2, 4, 1],
            [2, 4, 3],
            [3, 1, 2],
            [3, 1, 4],
            [3, 2, 1],
            [3, 2, 4],
            [3, 4, 1],
            [3, 4, 2],
            [4, 1, 2],
            [4, 1, 3],
            [4, 2, 1],
            [4, 2, 3],
            [4, 3, 1],
            [4, 3, 2]
        ]
    );
}

#[test]
fn simple_perm() {
    let simple_perm = ParallelPermutationArray::new::<3, true>(vec![0, 1, 2]);
    let mut v = simple_perm.collect_vec();
    v.sort();
    assert_eq!(
        v,
        vec![
            [0, 0, 0],
            [0, 0, 1],
            [0, 0, 2],
            [0, 1, 0],
            [0, 1, 1],
            [0, 1, 2],
            [0, 2, 0],
            [0, 2, 1],
            [0, 2, 2],
            [1, 0, 0],
            [1, 0, 1],
            [1, 0, 2],
            [1, 1, 0],
            [1, 1, 1],
            [1, 1, 2],
            [1, 2, 0],
            [1, 2, 1],
            [1, 2, 2],
            [2, 0, 0],
            [2, 0, 1],
            [2, 0, 2],
            [2, 1, 0],
            [2, 1, 1],
            [2, 1, 2],
            [2, 2, 0],
            [2, 2, 1],
            [2, 2, 2]
        ]
    );
}

#[test]
fn permutations_array_long_permutation() {
    let long_permutation =
        ParallelPermutationArray::new::<3, false>((START..END).collect::<Vec<_>>());
    let mut actual = long_permutation.collect_vec();
    actual.sort();
    let mut expected = Vec::new();
    for i in START..END {
        for j in START..END {
            for k in START..END {
                if i != j && i != k && j != k {
                    expected.push([i, j, k]);
                }
            }
        }
    }
    expected.sort();
    assert_eq!(actual, expected);

    let long_permutation =
        ParallelPermutationArray::new::<3, true>((START..END).collect::<Vec<_>>());
    let mut actual = long_permutation.collect_vec();
    actual.sort();
    let mut expected = Vec::new();
    for i in START..END {
        for j in START..END {
            for k in START..END {
                expected.push([i, j, k]);
            }
        }
    }
    expected.sort();
    assert_eq!(actual, expected);
}
