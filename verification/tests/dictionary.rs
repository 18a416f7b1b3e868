use cctc::dictionary::{
    filter_dictonary, filter_words_characters, filter_words_length, has_letters, letter_counts,
};

fn texts(list: &[&str]) -> Vec<String> {
    list.iter().map(|s| String::from(*s)).collect()
}

fn letters(s: &str) -> Vec<char> {
    s.chars().collect()
}

#[test]
fn words_longer_than_the_cipher_are_dropped() {
    let words = texts(&["a", "abcd", "abcde", "", "xyzw", "abcdef"]);
    assert_eq!(
        filter_words_length(words, &String::from("wxyz")),
        texts(&["a", "abcd", "", "xyzw"])
    );
}

#[test]
fn word_length_counts_characters() {
    let words = texts(&["éé", "ééé", "abc"]);
    assert_eq!(filter_words_length(words, &String::from("xy")), texts(&["éé"]));
}

#[test]
fn word_with_a_letter_twice_needs_it_twice() {
    let words = texts(&["heel", "hell"]);
    assert_eq!(filter_words_characters(words, &String::from("hello")), texts(&["hell"]));
    let words = texts(&["aa", "a"]);
    assert_eq!(filter_words_characters(words, &String::from("abc")), texts(&["a"]));
    let words = texts(&["aa", "a"]);
    assert_eq!(filter_words_characters(words, &String::from("bcd")), texts(&[]));
    let words = texts(&["aa", "a"]);
    assert_eq!(filter_words_characters(words, &String::from("aba")), texts(&["aa", "a"]));
}

#[test]
fn words_keep_their_order() {
    let words = texts(&["hell", "lol", "hello", "heel", "ole", "xyz", "", "olleh", "helloo"]);
    assert_eq!(
        filter_words_characters(words, &String::from("hello")),
        texts(&["hell", "lol", "hello", "ole", "", "olleh"])
    );
}

#[test]
fn no_word_fits_an_empty_cipher_but_the_empty_one() {
    let words = texts(&["a", "", "b"]);
    assert_eq!(filter_words_characters(words, &String::from("")), texts(&[""]));
}

#[test]
fn letters_beyond_ascii_are_counted() {
    let words = texts(&["né", "néé", "née", "en"]);
    assert_eq!(filter_words_characters(words, &String::from("één")), texts(&["né", "néé"]));
}

#[test]
fn letter_counts_count_each_letter() {
    let table = letter_counts(&letters("hello world"));
    assert_eq!(table.get(&('l' as u32)), Some(&3));
    assert_eq!(table.get(&('o' as u32)), Some(&2));
    assert_eq!(table.get(&(' ' as u32)), Some(&1));
    assert_eq!(table.get(&('h' as u32)), Some(&1));
    assert_eq!(table.get(&('x' as u32)), None);
    assert_eq!(table.len(), 8);
    assert_eq!(letter_counts(&letters("")).len(), 0);
}

#[test]
fn has_letters_compares_the_counts() {
    let table = letter_counts(&letters("hello"));
    assert!(has_letters(&letters("hell"), &table));
    assert!(has_letters(&letters("olleh"), &table));
    assert!(has_letters(&letters(""), &table));
    assert!(!has_letters(&letters("heel"), &table));
    assert!(!has_letters(&letters("lll"), &table));
    assert!(!has_letters(&letters("x"), &table));
}

#[test]
fn dictionary_is_pruned_and_wrapped() {
    let words = texts(&["hell", "heel", "hello", "hellos", "he", "ohellh", "", "help", "hellooo"]);
    assert_eq!(
        filter_dictonary(words, &String::from("hello")),
        texts(&[" hell ", " hello ", " he ", "  "])
    );
}
