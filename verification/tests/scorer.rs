use cctc::scorer::{rank, ranking, run_attack, score};

fn texts(list: &[&str]) -> Vec<String> {
    list.iter().map(|s| String::from(*s)).collect()
}

fn result(candidate: &str, count: usize, words: &[&str]) -> (String, usize, Vec<String>) {
    (String::from(candidate), count, texts(words))
}

#[test]
fn score_counts_the_entries_that_occur() {
    let list = texts(&["the cat", "xx", "cat the dog", "thecat"]);
    let dictionary = texts(&[" cat ", " the ", " dog "]);
    assert_eq!(
        score(&list, &dictionary),
        vec![
            result(" the cat ", 2, &[" cat ", " the "]),
            result(" xx ", 0, &[]),
            result(" cat the dog ", 3, &[" cat ", " the ", " dog "]),
            result(" thecat ", 0, &[]),
        ]
    );
}

#[test]
fn score_counts_an_entry_twice_in_the_dictionary_twice() {
    let list = texts(&["a b"]);
    let dictionary = texts(&[" a ", " b ", " a ", "", "a b"]);
    assert_eq!(
        score(&list, &dictionary),
        vec![result(" a b ", 5, &[" a ", " b ", " a ", "", "a b"])]
    );
}

#[test]
fn score_of_nothing() {
    assert_eq!(score(&texts(&[]), &texts(&[" a "])), vec![]);
    assert_eq!(score(&texts(&["a"]), &texts(&[])), vec![result(" a ", 0, &[])]);
}

#[test]
fn ranking_three_one_two() {
    let results = vec![result("three", 3, &[]), result("one", 1, &[]), result("two", 2, &[])];
    assert_eq!(
        rank(results),
        vec![result("three", 3, &[]), result("two", 2, &[]), result("one", 1, &[])]
    );
    assert_eq!(ranking(&vec![3, 1, 2]), vec![0, 2, 1]);
}

#[test]
fn ranking_keeps_the_order_of_equal_hits() {
    assert_eq!(ranking(&vec![1, 2, 1, 2]), vec![1, 3, 0, 2]);
    assert_eq!(ranking(&vec![0, 0, 0]), vec![0, 1, 2]);
    assert_eq!(ranking(&vec![]), Vec::<usize>::new());
    assert_eq!(ranking(&vec![7]), vec![0]);
    assert_eq!(ranking(&vec![1, 2, 3, 4, 5]), vec![4, 3, 2, 1, 0]);
    let results = vec![
        result("a", 1, &["x"]),
        result("b", 2, &["x", "y"]),
        result("c", 1, &["z"]),
        result("d", 2, &["y", "z"]),
    ];
    assert_eq!(
        rank(results),
        vec![
            result("b", 2, &["x", "y"]),
            result("d", 2, &["y", "z"]),
            result("a", 1, &["x"]),
            result("c", 1, &["z"]),
        ]
    );
}

#[test]
fn ranking_agrees_with_a_stable_sort() {
    let mut counts: Vec<usize> = Vec::new();
    let mut state: u64 = 12345;
    for _ in 0..1000 {
        state = state.wrapping_mul(6364136223846793005).wrapping_add(1442695040888963407);
        counts.push(((state >> 33) % 17) as usize);
    }
    let mut expected: Vec<usize> = (0..counts.len()).collect();
    expected.sort_by(|a, b| counts[*b].cmp(&counts[*a]));
    assert_eq!(ranking(&counts), expected);
}

#[test]
fn rank_of_nothing() {
    assert_eq!(rank(vec![]), vec![]);
}

#[test]
fn attack_ranks_the_candidates() {
    let list = texts(&["eht tac", "the tac", "the cat", "cat eht"]);
    let dictionary = texts(&[" the ", " cat ", " dog "]);
    assert_eq!(
        run_attack(list, dictionary),
        vec![
            result(" the cat ", 2, &[" the ", " cat "]),
            result(" the tac ", 1, &[" the "]),
            result(" cat eht ", 1, &[" cat "]),
            result(" eht tac ", 0, &[]),
        ]
    );
}
