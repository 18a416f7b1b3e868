//! Regular expressions, which the `regex` crate compiles and matches.
//!
//! The library uses two patterns. What they match is written down here as the
//! crate's documentation gives it: `\s` stands for a character with the
//! Unicode property White_Space, `\S` for any other character, `[^ei\s]` for
//! a character that is neither `e` nor `i` nor white space, `+` for one or
//! more, and a pattern matches a text where it matches some part of it.

use vstd::prelude::*;

verus! {

/// The compiled regular expression of the `regex` crate. Nothing of what it
/// holds is visible here.
#[verifier::external_type_specification]
#[verifier::external_body]
pub struct ExRegex(regex::Regex);

/// Whether `regex::Regex::new` accepts the pattern `source`.
pub uninterp spec fn regex_compiles(source: Seq<char>) -> bool;

/// Whether the regular expression compiled from the pattern `source` matches
/// somewhere in `text`.
pub uninterp spec fn regex_is_match(source: Seq<char>, text: Seq<char>) -> bool;

/// Whether the character has the Unicode property White_Space, which `\s`
/// stands for.
pub open spec fn is_white_space(c: char) -> bool {
    let n = c as u32;
    ||| 0x09 <= n <= 0x0D
    ||| n == 0x20
    ||| n == 0x85
    ||| n == 0xA0
    ||| n == 0x1680
    ||| 0x2000 <= n <= 0x200A
    ||| n == 0x2028
    ||| n == 0x2029
    ||| n == 0x202F
    ||| n == 0x205F
    ||| n == 0x3000
}

/// The pattern of two white-space characters before one that is none.
pub open spec fn double_space_pattern() -> Seq<char> {
    r"\s\s\S"@
}

/// The pattern of a word, between white space, without the letters `e` and
/// `i`.
pub open spec fn no_vowels_pattern() -> Seq<char> {
    r"\s[^ei\s]+\s"@
}

/// Whether two white-space characters stand somewhere in the text before a
/// character that is none.
pub open spec fn has_double_space(text: Seq<char>) -> bool {
    exists|i: int|
        0 <= i && i + 2 < text.len() && is_white_space(#[trigger] text[i]) && is_white_space(
            text[i + 1],
        ) && !is_white_space(text[i + 2])
}

/// Whether one or more characters that are neither white space nor `e` nor
/// `i` stand somewhere in the text between two white-space characters.
pub open spec fn has_vowelless_word(text: Seq<char>) -> bool {
    exists|i: int, j: int|
        #![trigger text[i], text[j]]
        0 <= i && i + 1 < j < text.len() && is_white_space(text[i]) && is_white_space(text[j])
            && forall|k: int|
            i < k < j ==> !is_white_space(#[trigger] text[k]) && text[k] != 'e' && text[k] != 'i'
}

/// A compiled regular expression together with the pattern it was compiled
/// from. Only `compile` makes one, so the two always belong together.
pub(crate) struct Pattern {
    source: String,
    compiled: regex::Regex,
}

impl View for Pattern {
    type V = Seq<char>;

    closed spec fn view(&self) -> Seq<char> {
        self.source@
    }
}

impl Pattern {
    /// Calls `regex::Regex::new`. The result is `Some` exactly where the crate
    /// accepts the pattern, and then stands for that pattern. Nothing is said
    /// of which patterns the crate accepts.
    #[verifier::external_body]
    pub(crate) fn compile(source: &str) -> (pattern: Option<Pattern>)
        ensures
            pattern is Some <==> regex_compiles(source@),
            pattern matches Some(p) ==> p@ == source@,
    {
        match regex::Regex::new(source) {
            Ok(compiled) => Some(Pattern { source: source.to_string(), compiled }),
            Err(_) => None,
        }
    }

    /// Calls `regex::Regex::is_match`, which says whether the expression
    /// matches anywhere in `text`. The result depends on the pattern and on
    /// the text alone. For the two patterns of this library it is what the
    /// crate's documentation of the syntax gives; of other patterns nothing
    /// more is said.
    #[verifier::external_body]
    pub(crate) fn is_match(&self, text: &str) -> (matched: bool)
        ensures
            matched == regex_is_match(self@, text@),
            self@ == double_space_pattern() ==> matched == has_double_space(text@),
            self@ == no_vowels_pattern() ==> matched == has_vowelless_word(text@),
    {
        self.compiled.is_match(text)
    }
}

} // verus!
