use cctc::cipher::{decrypt, encrypt, is_valid_key};

fn text(s: &str) -> String {
    String::from(s)
}

#[test]
fn encrypt_moves_columns_by_the_key() {
    assert_eq!(encrypt(&text("abcdef"), &vec![2, 0, 1]), "beadcf");
    assert_eq!(encrypt(&text("abcd"), &vec![0, 1]), "bdac");
    assert_eq!(encrypt(&text("abcd"), &vec![1, 0]), "acbd");
    assert_eq!(encrypt(&text("abc"), &vec![0, 2, 1]), "bca");
}

#[test]
fn decrypt_moves_columns_by_the_key() {
    assert_eq!(decrypt(&text("beadcf"), &vec![2, 0, 1]), "abcdef");
    assert_eq!(decrypt(&text("abcd"), &vec![0, 1]), "cadb");
    assert_eq!(decrypt(&text("abcd"), &vec![1, 0]), "acbd");
}

#[test]
fn helloworld_round_trip() {
    let key = vec![2, 0, 1];
    let coded = encrypt(&text("helloworld"), &key);
    assert_eq!(coded, "eorhlolwld");
    assert_eq!(decrypt(&coded, &key), "helloworld");
}

#[test]
fn round_trip_under_self_inverse_keys() {
    let keys: Vec<Vec<usize>> = vec![
        vec![0],
        vec![0, 1],
        vec![1, 0],
        vec![0, 1, 2],
        vec![1, 2, 0],
        vec![2, 0, 1],
        vec![2, 1, 0],
        vec![3, 2, 1, 0],
        vec![2, 3, 0, 1],
    ];
    let plain = text("the quick brown fox jumps over the lazy dog!");
    for key in keys.iter() {
        let coded = encrypt(&plain, key);
        assert_eq!(coded.chars().count(), plain.chars().count());
        assert_eq!(decrypt(&coded, key), plain);
    }
}

#[test]
fn round_trip_fails_where_the_reversed_key_is_not_its_own_inverse() {
    let key = vec![0, 2, 1];
    let coded = encrypt(&text("abc"), &key);
    assert_eq!(coded, "bca");
    assert_eq!(decrypt(&coded, &key), "cab");
}

#[test]
fn incomplete_row_stays_in_place() {
    assert_eq!(encrypt(&text("abcdefgh"), &vec![2, 0, 1]), "beadcfgh");
    assert_eq!(decrypt(&text("beadcfgh"), &vec![2, 0, 1]), "abcdefgh");
    assert_eq!(encrypt(&text("ab"), &vec![2, 0, 1]), "ab");
    assert_eq!(decrypt(&text("ab"), &vec![2, 0, 1]), "ab");
    assert_eq!(encrypt(&text(""), &vec![1, 0]), "");
    assert_eq!(decrypt(&text(""), &vec![1, 0]), "");
}

#[test]
fn cipher_length_counts_characters() {
    assert_eq!(encrypt(&text("äbcdéf"), &vec![2, 0, 1]), "béädcf");
    assert_eq!(decrypt(&text("béädcf"), &vec![2, 0, 1]), "äbcdéf");
}

#[test]
fn single_column_changes_nothing() {
    assert_eq!(encrypt(&text("plain"), &vec![0]), "plain");
    assert_eq!(decrypt(&text("plain"), &vec![0]), "plain");
}

#[test]
fn valid_keys_are_permutations() {
    assert!(is_valid_key(&vec![0]));
    assert!(is_valid_key(&vec![1, 0]));
    assert!(is_valid_key(&vec![2, 0, 1]));
    assert!(is_valid_key(&vec![3, 1, 0, 2]));
    assert!(!is_valid_key(&vec![]));
    assert!(!is_valid_key(&vec![1]));
    assert!(!is_valid_key(&vec![0, 0]));
    assert!(!is_valid_key(&vec![0, 2]));
    assert!(!is_valid_key(&vec![1, 2, 3]));
    assert!(!is_valid_key(&vec![2, 0, 2]));
}

fn scatter(text: &str, key: &Vec<usize>, decode: bool) -> String {
    let letters: Vec<char> = text.chars().collect();
    let size_x = key.len();
    let size_y = letters.len() / size_x;
    let mut lookup = vec![0; size_x];
    let mut turned = key.clone();
    turned.reverse();
    for (i, index) in turned.iter().enumerate() {
        lookup[*index] = i;
    }
    let mut out: Vec<char> = vec![' '; letters.len()];
    for (i, character) in letters.iter().enumerate() {
        if decode {
            let x = lookup[i / size_y];
            let y = i % size_y;
            out[y * size_x + x] = *character;
        } else {
            let x = lookup[i % size_x];
            let y = i / size_x;
            out[x * size_y + y] = *character;
        }
    }
    out.iter().collect()
}

#[test]
fn complete_rows_go_through_the_lookup_table() {
    let alphabet = "abcdefghijklmnopqrstuvwxyz0123456789";
    for size in 1..6usize {
        for index in 0..cctc::indexer::factorial(size) {
            let key = cctc::indexer::permutation_from_index(size, index);
            for rows in 1..4usize {
                let plain: String = alphabet.chars().take(size * rows).collect();
                assert_eq!(encrypt(&plain, &key), scatter(&plain, &key, false));
                assert_eq!(decrypt(&plain, &key), scatter(&plain, &key, true));
            }
        }
    }
}
