use cctc::cipher::is_valid_key;
use cctc::indexer::{
    checked_factorial, factorial, index_to_lehmer, lehmer_to_permutation, permutation_from_index,
};

#[test]
fn factorial_of_zero_and_five() {
    assert_eq!(factorial(0), 1);
    assert_eq!(factorial(5), 120);
}

#[test]
fn factorial_values() {
    assert_eq!(factorial(1), 1);
    assert_eq!(factorial(2), 2);
    assert_eq!(factorial(3), 6);
    assert_eq!(factorial(10), 3628800);
    assert_eq!(factorial(12), 479001600);
}

#[test]
fn checked_factorial_tells_overflow() {
    assert_eq!(checked_factorial(0), Some(1));
    assert_eq!(checked_factorial(5), Some(120));
    assert_eq!(checked_factorial(12), Some(479001600));
    let mut expected: u128 = 1;
    for n in 1..40usize {
        expected = expected * (n as u128);
        let fits = expected <= usize::MAX as u128;
        assert_eq!(checked_factorial(n), if fits { Some(expected as usize) } else { None });
    }
    assert_eq!(checked_factorial(usize::MAX), None);
}

#[test]
fn lehmer_code_of_an_index() {
    assert_eq!(index_to_lehmer(0, 0), vec![0]);
    assert_eq!(index_to_lehmer(0, 1), vec![0]);
    assert_eq!(index_to_lehmer(0, 3), vec![0, 0, 0]);
    assert_eq!(index_to_lehmer(3, 3), vec![1, 1, 0]);
    assert_eq!(index_to_lehmer(5, 3), vec![2, 1, 0]);
    assert_eq!(index_to_lehmer(23, 4), vec![3, 2, 1, 0]);
    assert_eq!(index_to_lehmer(11, 4), vec![1, 2, 1, 0]);
}

#[test]
fn lehmer_code_of_an_index_beyond_the_factorial() {
    assert_eq!(index_to_lehmer(7, 3), vec![3, 1, 0]);
    assert_eq!(index_to_lehmer(9, 1), vec![0]);
}

#[test]
fn lehmer_code_picks_elements() {
    let list = vec!['a', 'b', 'c'];
    assert_eq!(lehmer_to_permutation(&list, &vec![0, 0, 0]), vec!['a', 'b', 'c']);
    assert_eq!(lehmer_to_permutation(&list, &vec![2, 1, 0]), vec!['c', 'b', 'a']);
    assert_eq!(lehmer_to_permutation(&list, &vec![1, 1, 0]), vec!['b', 'c', 'a']);
    assert_eq!(lehmer_to_permutation(&list, &vec![1]), vec!['b']);
    assert_eq!(lehmer_to_permutation(&list, &vec![]), Vec::<char>::new());
    assert_eq!(lehmer_to_permutation(&vec![7u8, 7, 9], &vec![2, 0, 0]), vec![9u8, 7, 7]);
}

#[test]
fn permutations_of_three_in_order() {
    let expected: Vec<Vec<usize>> = vec![
        vec![0, 1, 2],
        vec![0, 2, 1],
        vec![1, 0, 2],
        vec![1, 2, 0],
        vec![2, 0, 1],
        vec![2, 1, 0],
    ];
    for index in 0..6 {
        assert_eq!(permutation_from_index(3, index), expected[index]);
    }
    assert_eq!(permutation_from_index(1, 0), vec![0]);
    assert_eq!(permutation_from_index(0, 0), Vec::<usize>::new());
}

#[test]
fn index_to_permutation_is_a_bijection() {
    for size in 1..7usize {
        let count = factorial(size);
        let mut seen: Vec<Vec<usize>> = Vec::new();
        for index in 0..count {
            let key = permutation_from_index(size, index);
            assert_eq!(key.len(), size);
            assert!(is_valid_key(&key));
            assert!(!seen.contains(&key));
            seen.push(key);
        }
        assert_eq!(seen.len(), count);
    }
}
