use cctc::filter::{
    discard_flagged, filter_begins_with_space, filter_double_space, filter_list,
    filter_must_contain, filter_no_vowels, FilterOptions,
};

fn texts(list: &[&str]) -> Vec<String> {
    list.iter().map(|s| String::from(*s)).collect()
}

fn options(
    begins_with_space: bool,
    double_space: bool,
    no_vowels: bool,
    must_contain: Option<&str>,
) -> FilterOptions {
    FilterOptions {
        begins_with_space,
        double_space,
        no_vowels,
        must_contain: must_contain.map(String::from),
    }
}

#[test]
fn discard_flagged_keeps_the_rest_in_order() {
    let items = texts(&["a", "b", "c", "d"]);
    assert_eq!(discard_flagged(&items, &vec![false, true, false, true]), texts(&["a", "c"]));
    assert_eq!(discard_flagged(&items, &vec![true, true, true, true]), texts(&[]));
    assert_eq!(discard_flagged(&items, &vec![false, false, false, false]), items);
    assert_eq!(discard_flagged(&texts(&[]), &vec![]), texts(&[]));
}

#[test]
fn begins_with_space_drops_a_leading_space() {
    let list = texts(&[" a", "b", "c ", " ", "d e", "\ta"]);
    assert_eq!(filter_begins_with_space(list), texts(&["b", "c ", "d e", "\ta"]));
}

#[test]
fn begins_with_space_keeps_an_empty_candidate() {
    assert_eq!(filter_begins_with_space(texts(&["", " x", "y"])), texts(&["", "y"]));
}

#[test]
fn double_space_drops_two_spaces_before_a_letter() {
    let list = texts(&["a  b", "a b", "a  ", "  x", "ab", "a \tb", "a\n\nb c", ""]);
    assert_eq!(filter_double_space(list), texts(&["a b", "a  ", "ab", ""]));
}

#[test]
fn no_vowels_drops_a_word_without_e_and_i() {
    let list = texts(&["the cat", "the hide", "e", "a", "", "kit eel", "sky", "tie  lie"]);
    assert_eq!(filter_no_vowels(list), texts(&["the hide", "e", "", "kit eel", "tie  lie"]));
}

#[test]
fn must_contain_cat() {
    let list = texts(&["the cat sat", "concatenate"]);
    assert_eq!(filter_must_contain(&list, &String::from("cat")), texts(&["the cat sat"]));
}

#[test]
fn must_contain_takes_the_ends_as_spaces() {
    let list = texts(&["cat", "cat sat", "the cat", "cats", "a catb", "the  cat  sat", ""]);
    assert_eq!(
        filter_must_contain(&list, &String::from("cat")),
        texts(&["cat", "cat sat", "the cat", "the  cat  sat"])
    );
}

#[test]
fn must_contain_gives_the_candidates_as_they_came() {
    let list = texts(&["a cat", "dog"]);
    let kept = filter_must_contain(&list, &String::from("cat"));
    assert_eq!(kept, texts(&["a cat"]));
    assert_eq!(list, texts(&["a cat", "dog"]));
}

#[test]
fn must_contain_of_several_words() {
    let list = texts(&["see the cat sit", "the catsit", "seethe cat"]);
    assert_eq!(
        filter_must_contain(&list, &String::from("the cat")),
        texts(&["see the cat sit"])
    );
}

#[test]
fn filter_list_without_filters_keeps_all() {
    let list = texts(&[" a", "b  c", "xyz", ""]);
    assert_eq!(filter_list(list.clone(), &options(false, false, false, None)), list);
}

#[test]
fn filter_list_applies_what_is_switched_on() {
    let list = texts(&[" the cat", "the  cat", "the cat", "the tie", "tie the cat", "the cat tie"]);
    assert_eq!(
        filter_list(list.clone(), &options(true, false, false, None)),
        texts(&["the  cat", "the cat", "the tie", "tie the cat", "the cat tie"])
    );
    assert_eq!(
        filter_list(list.clone(), &options(false, true, false, None)),
        texts(&[" the cat", "the cat", "the tie", "tie the cat", "the cat tie"])
    );
    assert_eq!(filter_list(list.clone(), &options(false, false, true, None)), texts(&["the tie"]));
    assert_eq!(
        filter_list(list.clone(), &options(false, false, false, Some("tie"))),
        texts(&["the tie", "tie the cat", "the cat tie"])
    );
    assert_eq!(
        filter_list(list.clone(), &options(true, true, false, Some("cat"))),
        texts(&["the cat", "tie the cat", "the cat tie"])
    );
    assert_eq!(filter_list(list, &options(true, true, true, Some("cat"))), texts(&[]));
}

#[test]
fn filters_in_any_order_keep_the_same() {
    let list = texts(&[" e i", "e  i", "e i", "a e", "tie", "e tie i", " tie", "tie  e"]);
    let word = String::from("tie");
    let all = filter_list(list.clone(), &options(true, true, true, Some("tie")));
    let forward = filter_must_contain(
        &filter_no_vowels(filter_double_space(filter_begins_with_space(list.clone()))),
        &word,
    );
    let backward = filter_begins_with_space(filter_double_space(filter_no_vowels(
        filter_must_contain(&list, &word),
    )));
    assert_eq!(all, texts(&["tie", "e tie i"]));
    assert_eq!(forward, all);
    assert_eq!(backward, all);
}

fn white_space(c: char) -> bool {
    matches!(
        c,
        '\u{9}'..='\u{d}'
            | '\u{20}'
            | '\u{85}'
            | '\u{a0}'
            | '\u{1680}'
            | '\u{2000}'..='\u{200a}'
            | '\u{2028}'
            | '\u{2029}'
            | '\u{202f}'
            | '\u{205f}'
            | '\u{3000}'
    )
}

fn every_character() -> Vec<char> {
    (0..=0x10FFFFu32).filter_map(char::from_u32).collect()
}

#[test]
fn double_space_counts_white_space_of_every_kind() {
    let list = texts(&[
        "a\u{a0}\u{2003}b",
        "a\u{200b}\u{200b}b",
        "a\u{3000}\tb",
        "a\u{180e}\u{180e}b",
        "a\r\nb",
        "a \u{85}",
    ]);
    assert_eq!(
        filter_double_space(list),
        texts(&["a\u{200b}\u{200b}b", "a\u{180e}\u{180e}b", "a \u{85}"])
    );
}

#[test]
fn double_space_on_every_character() {
    let characters = every_character();
    let before: Vec<String> = characters.iter().map(|c| format!("{}{}x", c, c)).collect();
    let expected: Vec<String> = characters
        .iter()
        .filter(|c| !white_space(**c))
        .map(|c| format!("{}{}x", c, c))
        .collect();
    assert_eq!(filter_double_space(before), expected);
    let behind: Vec<String> = characters.iter().map(|c| format!("  {}", c)).collect();
    let expected: Vec<String> = characters
        .iter()
        .filter(|c| white_space(**c))
        .map(|c| format!("  {}", c))
        .collect();
    assert_eq!(filter_double_space(behind), expected);
}

#[test]
fn no_vowels_counts_white_space_of_every_kind() {
    let list = texts(&[
        "the\u{a0}cat",
        "tie\u{200b}cat",
        "THE",
        "the\ttie",
        "the\u{2003}\u{2003}tie",
        "\u{3000}",
        "été",
    ]);
    assert_eq!(
        filter_no_vowels(list),
        texts(&["tie\u{200b}cat", "the\ttie", "the\u{2003}\u{2003}tie", "\u{3000}"])
    );
}

#[test]
fn no_vowels_on_every_character() {
    let characters = every_character();
    let alone: Vec<String> = characters.iter().map(|c| c.to_string()).collect();
    let expected: Vec<String> = characters
        .iter()
        .filter(|c| white_space(**c) || **c == 'e' || **c == 'i')
        .map(|c| c.to_string())
        .collect();
    assert_eq!(filter_no_vowels(alone), expected);
    let between: Vec<String> = characters.iter().map(|c| format!("e{}x", c)).collect();
    let expected: Vec<String> = characters
        .iter()
        .filter(|c| !white_space(**c))
        .map(|c| format!("e{}x", c))
        .collect();
    assert_eq!(filter_no_vowels(between), expected);
}
