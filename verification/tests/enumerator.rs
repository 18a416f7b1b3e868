use cctc::cipher::decrypt;
use cctc::enumerator::{
    checked_permutations_length, checked_stage_count, create_list, generate_permutations,
    permutations_length, ValidationError,
};
use cctc::indexer::{factorial, index_to_lehmer, lehmer_to_permutation};

fn text(s: &str) -> String {
    String::from(s)
}

fn fill_by_recursion(
    cipher: &String,
    out: &mut Vec<String>,
    permutations: Vec<Vec<usize>>,
    n: &Vec<usize>,
    index: usize,
) {
    if n.len() == 0 {
        let combinations = factorial(permutations.len());
        let list = (0..combinations).collect::<Vec<usize>>();
        for i in 0..combinations {
            let mut string = cipher.clone();
            let code = index_to_lehmer(i, permutations.len());
            let result = lehmer_to_permutation(&list, &code);
            for j in 0..permutations.len() {
                string = decrypt(&string, &permutations[result[j]]);
            }
            out[index * combinations + i] = string;
        }
        return;
    }
    let last = *n.last().unwrap();
    let list = (0..last).collect::<Vec<usize>>();
    let mut new_n = n.clone();
    new_n.pop();
    let length: usize = new_n.iter().map(|e| factorial(*e)).product();
    for i in 0..factorial(last) {
        let code = index_to_lehmer(i, last);
        let result = lehmer_to_permutation(&list, &code);
        let mut permutations = permutations.clone();
        permutations.push(result);
        fill_by_recursion(cipher, out, permutations, &new_n, index + i * length);
    }
}

fn expected_list(cipher: &str, sizes: &Vec<usize>) -> Vec<String> {
    let total = permutations_length(sizes);
    let mut out = vec![String::new(); total];
    fill_by_recursion(&text(cipher), &mut out, Vec::new(), sizes, 0);
    out
}

#[test]
fn permutations_length_of_two_and_three() {
    assert_eq!(permutations_length(&vec![2, 3]), 24);
    assert_eq!(
        permutations_length(&vec![2, 3]),
        factorial(2) * factorial(2) * factorial(3)
    );
}

#[test]
fn permutations_length_values() {
    assert_eq!(permutations_length(&vec![]), 1);
    assert_eq!(permutations_length(&vec![1]), 1);
    assert_eq!(permutations_length(&vec![4]), 24);
    assert_eq!(permutations_length(&vec![3, 2, 2]), 6 * 6 * 2 * 2);
    assert_eq!(permutations_length(&vec![0]), 1);
}

#[test]
fn checked_lengths_tell_overflow() {
    assert_eq!(checked_permutations_length(&vec![2, 3]), Some(24));
    assert_eq!(checked_permutations_length(&vec![]), Some(1));
    assert_eq!(checked_permutations_length(&vec![30]), None);
    assert_eq!(checked_permutations_length(&vec![15, 15, 15]), None);
    assert_eq!(checked_stage_count(&vec![3, 4]), Some(144));
    assert_eq!(checked_stage_count(&vec![]), Some(1));
    assert_eq!(checked_stage_count(&vec![25]), None);
    assert_eq!(checked_stage_count(&vec![15, 15, 15]), None);
}

#[test]
fn one_stage_of_two_columns() {
    let list = create_list(&text("abcd"), &vec![2]).unwrap();
    assert_eq!(list, vec![text("cadb"), text("acbd")]);
}

#[test]
fn no_stage_leaves_the_cipher() {
    let list = create_list(&text("abcd"), &vec![]).unwrap();
    assert_eq!(list, vec![text("abcd")]);
}

#[test]
fn one_stage_lists_the_keys_in_order() {
    let cipher = text("abcdef");
    let list = create_list(&cipher, &vec![3]).unwrap();
    let keys: Vec<Vec<usize>> = vec![
        vec![0, 1, 2],
        vec![0, 2, 1],
        vec![1, 0, 2],
        vec![1, 2, 0],
        vec![2, 0, 1],
        vec![2, 1, 0],
    ];
    assert_eq!(list.len(), 6);
    for i in 0..6 {
        assert_eq!(list[i], decrypt(&cipher, &keys[i]));
    }
}

#[test]
fn two_stages_in_both_orders() {
    let cipher = text("abcdefghijkl");
    let list = create_list(&cipher, &vec![2, 3]).unwrap();
    assert_eq!(list.len(), 24);
    let twos: Vec<Vec<usize>> = vec![vec![0, 1], vec![1, 0]];
    let threes: Vec<Vec<usize>> = vec![
        vec![0, 1, 2],
        vec![0, 2, 1],
        vec![1, 0, 2],
        vec![1, 2, 0],
        vec![2, 0, 1],
        vec![2, 1, 0],
    ];
    for three in 0..6 {
        for two in 0..2 {
            let block = three * 2 + two;
            let first = decrypt(&decrypt(&cipher, &threes[three]), &twos[two]);
            let second = decrypt(&decrypt(&cipher, &twos[two]), &threes[three]);
            assert_eq!(list[block * 2], first);
            assert_eq!(list[block * 2 + 1], second);
        }
    }
}

#[test]
fn list_agrees_with_the_recursion_over_a_shared_buffer() {
    let cases: Vec<(&str, Vec<usize>)> = vec![
        ("abcdef", vec![2, 3]),
        ("abcdefghijkl", vec![3, 2, 2]),
        ("abcdefghijkl", vec![4]),
        ("helloworld", vec![3, 2]),
        ("abcdefg", vec![1, 2]),
        ("", vec![2, 2]),
    ];
    for (cipher, sizes) in cases.iter() {
        let list = create_list(&text(cipher), sizes).unwrap();
        assert_eq!(list.len(), permutations_length(sizes));
        assert_eq!(list, expected_list(cipher, sizes));
    }
}

#[test]
fn every_candidate_rearranges_the_cipher() {
    let cipher = "the cipher text!";
    let list = create_list(&text(cipher), &vec![4, 2]).unwrap();
    let mut letters: Vec<char> = cipher.chars().collect();
    letters.sort();
    for candidate in list.iter() {
        let mut found: Vec<char> = candidate.chars().collect();
        found.sort();
        assert_eq!(found, letters);
    }
}

#[test]
fn empty_stage_is_refused() {
    assert_eq!(create_list(&text("abcd"), &vec![0]), Err(ValidationError::EmptyStage));
    assert_eq!(create_list(&text("abcd"), &vec![2, 0, 3]), Err(ValidationError::EmptyStage));
    assert_eq!(create_list(&text("abcd"), &vec![0, 30]), Err(ValidationError::EmptyStage));
}

#[test]
fn too_many_candidates_are_refused() {
    assert_eq!(create_list(&text("abcd"), &vec![30]), Err(ValidationError::TooManyCandidates));
    assert_eq!(
        create_list(&text("abcd"), &vec![15, 15, 15]),
        Err(ValidationError::TooManyCandidates)
    );
}

#[test]
fn generate_permutations_fills_its_blocks_only() {
    let cipher = text("abcdef");
    let sizes = vec![3];
    let mut out = vec![text("?"); 10];
    generate_permutations(&cipher, &mut out, Vec::new(), &sizes, 2);
    let list = create_list(&cipher, &sizes).unwrap();
    assert_eq!(out[0], "?");
    assert_eq!(out[1], "?");
    for i in 0..6 {
        assert_eq!(out[2 + i], list[i]);
    }
    assert_eq!(out[8], "?");
    assert_eq!(out[9], "?");
}

#[test]
fn generate_permutations_with_a_chosen_key() {
    let cipher = text("abcdefghijkl");
    let mut out = vec![text("?"); 9];
    generate_permutations(&cipher, &mut out, vec![vec![2, 0, 1]], &vec![2], 1);
    let three = vec![2, 0, 1];
    let twos: Vec<Vec<usize>> = vec![vec![0, 1], vec![1, 0]];
    assert_eq!(out[0], "?");
    assert_eq!(out[1], "?");
    for two in 0..2 {
        let block = 1 + two;
        assert_eq!(out[block * 2], decrypt(&decrypt(&cipher, &three), &twos[two]));
        assert_eq!(out[block * 2 + 1], decrypt(&decrypt(&cipher, &twos[two]), &three));
    }
    assert_eq!(out[6], "?");
    assert_eq!(out[8], "?");
}
