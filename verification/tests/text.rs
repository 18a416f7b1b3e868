use cctc::text::{chars_of, contains, pad, split, split_lines, stands_at, string_of, LineEnding};

fn letters(s: &str) -> Vec<char> {
    s.chars().collect()
}

#[test]
fn chars_and_back() {
    assert_eq!(chars_of("héllo"), vec!['h', 'é', 'l', 'l', 'o']);
    assert_eq!(chars_of(""), Vec::<char>::new());
    assert_eq!(string_of(&vec!['h', 'é', 'y']), "héy");
    assert_eq!(string_of(&vec![]), "");
}

#[test]
fn pad_puts_a_space_on_each_side() {
    assert_eq!(pad(&String::from("cat")), " cat ");
    assert_eq!(pad(&String::from("")), "  ");
    assert_eq!(pad(&String::from(" a ")), "  a  ");
}

#[test]
fn contains_finds_a_substring() {
    assert!(contains(&letters("concatenate"), &letters("cat")));
    assert!(contains(&letters("concatenate"), &letters("con")));
    assert!(contains(&letters("concatenate"), &letters("nate")));
    assert!(contains(&letters("concatenate"), &letters("concatenate")));
    assert!(contains(&letters("concatenate"), &letters("")));
    assert!(contains(&letters(""), &letters("")));
    assert!(contains(&letters("aab"), &letters("ab")));
    assert!(contains(&letters("aaab"), &letters("aab")));
}

#[test]
fn contains_misses_what_is_not_there() {
    assert!(!contains(&letters("concatenate"), &letters(" cat ")));
    assert!(!contains(&letters("concatenate"), &letters("cab")));
    assert!(!contains(&letters("concatenate"), &letters("concatenated")));
    assert!(!contains(&letters(""), &letters("a")));
    assert!(!contains(&letters("abab"), &letters("abb")));
    assert!(!contains(&letters("ab"), &letters("ba")));
}

fn split_as_std(text: &str, separator: &str) -> Vec<Vec<char>> {
    text.split(separator).map(|piece| piece.chars().collect()).collect()
}

#[test]
fn parts_between_dashes() {
    assert_eq!(split(&letters("2-0-1"), &letters("-")), vec![
        letters("2"),
        letters("0"),
        letters("1")
    ]);
    assert_eq!(split(&letters(""), &letters("-")), vec![letters("")]);
    assert_eq!(split(&letters("-"), &letters("-")), vec![letters(""), letters("")]);
    assert_eq!(split(&letters("a--b-"), &letters("-")), vec![
        letters("a"),
        letters(""),
        letters("b"),
        letters("")
    ]);
}

#[test]
fn split_as_the_standard_library_splits() {
    let texts = [
        "",
        "a",
        "\r\n",
        "a\r\nb",
        "a\r\nb\r\n",
        "\r\r\n",
        "\r\n\r\n",
        "a\nb\r\nc\rd",
        "\n\r\n\r",
        "aaa",
        "aaaa",
        "abaab",
        "é\r\nü",
    ];
    let separators = ["\r\n", "\n", "a", "aa", "ab", "é", "abc"];
    for text in texts.iter() {
        for separator in separators.iter() {
            assert_eq!(
                split(&letters(text), &letters(separator)),
                split_as_std(text, separator)
            );
        }
    }
}

#[test]
fn stands_at_compares_in_place() {
    assert!(stands_at(&letters("concat"), 3, &letters("cat")));
    assert!(stands_at(&letters("concat"), 0, &letters("con")));
    assert!(stands_at(&letters("concat"), 6, &letters("")));
    assert!(!stands_at(&letters("concat"), 2, &letters("cat")));
    assert!(!stands_at(&letters("concat"), 0, &letters("cat")));
}

#[test]
fn lines_end_with_their_ending() {
    let content = String::from("one\ntwo\n\nfour\n");
    assert_eq!(split_lines(&content, LineEnding::Lf), vec!["one", "two", "", "four"]);
    let content = String::from("one\r\ntwo\r\n");
    assert_eq!(split_lines(&content, LineEnding::CrLf), vec!["one", "two"]);
    assert_eq!(split_lines(&content, LineEnding::Lf), vec!["one\r", "two\r"]);
}

#[test]
fn what_follows_the_last_ending_is_no_line() {
    let content = String::from("one\ntwo");
    assert_eq!(split_lines(&content, LineEnding::Lf), vec!["one"]);
    assert_eq!(split_lines(&content, LineEnding::CrLf), Vec::<String>::new());
    assert_eq!(split_lines(&String::from(""), LineEnding::Lf), Vec::<String>::new());
    assert_eq!(split_lines(&String::from("\n"), LineEnding::Lf), vec![""]);
    assert_eq!(split_lines(&String::from("a\nb\r\nc"), LineEnding::CrLf), vec!["a\nb"]);
}
