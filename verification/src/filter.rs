//! Filters that drop implausible candidates.
//!
//! Each filter is a predicate on one candidate, and keeps the candidates that
//! meet it, in their order. Several filters together keep what meets all of
//! them.

use crate::pattern::{
    double_space_pattern, has_double_space, has_vowelless_word, no_vowels_pattern, regex_compiles,
    regex_is_match, Pattern,
};
use crate::text::{chars_of, contains, is_substring, pad, padded};
use vstd::prelude::*;

verus! {

/// Which filters to apply.
#[derive(Clone, Debug)]
pub struct FilterOptions {
    /// Drop a candidate that begins with a space.
    pub begins_with_space: bool,
    /// Drop a candidate with two white-space characters before a character
    /// that is none.
    pub double_space: bool,
    /// Drop a candidate with a word that holds neither `e` nor `i`.
    pub no_vowels: bool,
    /// Keep only a candidate that holds this word as a word of its own.
    pub must_contain: Option<String>,
}

/// Whether the first character is a space. An empty text has none.
pub open spec fn begins_with_space(text: Seq<char>) -> bool {
    text.len() > 0 && text[0] == ' '
}

/// Keeps a candidate that does not begin with a space.
pub open spec fn lacks_leading_space() -> spec_fn(String) -> bool {
    |s: String| !begins_with_space(s@)
}

/// Keeps a candidate without two white-space characters before a character
/// that is none.
pub open spec fn lacks_double_space() -> spec_fn(String) -> bool {
    |s: String| !has_double_space(s@)
}

/// Keeps a candidate of which every word holds an `e` or an `i`, where a
/// word is what stands between two white-space characters and holds none,
/// and the candidate's two ends count as spaces.
pub open spec fn lacks_vowelless_word() -> spec_fn(String) -> bool {
    |s: String| !has_vowelless_word(padded(s@))
}

/// Keeps a candidate in which `word` stands between two spaces, where the
/// candidate's two ends count as spaces.
pub open spec fn holds_word(word: Seq<char>) -> spec_fn(String) -> bool {
    |s: String| is_substring(padded(s@), padded(word))
}

/// Keeps what both `p` and `q` keep.
pub open spec fn both<T>(p: spec_fn(T) -> bool, q: spec_fn(T) -> bool) -> spec_fn(T) -> bool {
    |x: T| p(x) && q(x)
}

/// Keeps a candidate that meets every filter that `options` switches on. A
/// filter whose pattern the `regex` crate does not accept keeps everything.
pub open spec fn passes(options: FilterOptions) -> spec_fn(String) -> bool {
    |s: String|
        {
            &&& options.begins_with_space ==> !begins_with_space(s@)
            &&& options.double_space && regex_compiles(double_space_pattern())
                ==> !has_double_space(s@)
            &&& options.no_vowels && regex_compiles(no_vowels_pattern()) ==> !has_vowelless_word(
                padded(s@),
            )
            &&& options.must_contain matches Some(word) ==> is_substring(
                padded(s@),
                padded(word@),
            )
        }
}

/// The items whose flag is not set, in their order.
pub open spec fn unflagged<T>(items: Seq<T>, flags: Seq<bool>) -> Seq<T>
    decreases items.len(),
{
    if items.len() == 0 {
        items
    } else {
        let front = unflagged(items.drop_last(), flags.drop_last());
        if flags.last() {
            front
        } else {
            front.push(items.last())
        }
    }
}

/// Dropping the flagged items is filtering, where the flags say which items
/// the predicate refuses.
pub proof fn lemma_unflagged_is_filter<T>(
    items: Seq<T>,
    flags: Seq<bool>,
    keep: spec_fn(T) -> bool,
)
    requires
        flags.len() == items.len(),
        forall|i: int| 0 <= i < items.len() ==> flags[i] == !keep(#[trigger] items[i]),
    ensures
        unflagged(items, flags) == items.filter(keep),
    decreases items.len(),
{
    reveal(Seq::filter);
    if items.len() > 0 {
        let front = items.drop_last();
        assert forall|i: int| 0 <= i < front.len() implies flags.drop_last()[i] == !keep(
            #[trigger] front[i],
        ) by {
            assert(front[i] == items[i]);
        }
        lemma_unflagged_is_filter(front, flags.drop_last(), keep);
        assert(flags.last() == !keep(items[items.len() - 1]));
    }
}

/// A filter that refuses nothing of a list keeps the list.
pub proof fn lemma_filter_all<T>(items: Seq<T>, keep: spec_fn(T) -> bool)
    requires
        forall|i: int| 0 <= i < items.len() ==> keep(#[trigger] items[i]),
    ensures
        items.filter(keep) == items,
    decreases items.len(),
{
    reveal(Seq::filter);
    if items.len() > 0 {
        let front = items.drop_last();
        assert forall|i: int| 0 <= i < front.len() implies keep(#[trigger] front[i]) by {
            assert(front[i] == items[i]);
        }
        lemma_filter_all(front, keep);
        assert(keep(items[items.len() - 1]));
        assert(front.push(items.last()) =~= items);
    }
}

/// Two filters, one after the other, keep what meets both. So the order in
/// which filters are applied does not change what is kept.
pub proof fn lemma_filter_twice<T>(items: Seq<T>, p: spec_fn(T) -> bool, q: spec_fn(T) -> bool)
    ensures
        items.filter(p).filter(q) == items.filter(both(p, q)),
        items.filter(p).filter(q) == items.filter(q).filter(p),
    decreases items.len(),
{
    reveal(Seq::filter);
    if items.len() > 0 {
        let front = items.drop_last();
        lemma_filter_twice(front, p, q);
        front.filter(p).lemma_filter_push(items.last(), q);
        front.filter(q).lemma_filter_push(items.last(), p);
    }
}

/// The items whose flag is not set, in their order.
pub fn discard_flagged(items: &Vec<String>, flags: &Vec<bool>) -> (kept: Vec<String>)
    requires
        flags@.len() == items@.len(),
    ensures
        kept@ == unflagged(items@, flags@),
{
    let mut kept: Vec<String> = Vec::new();
    let mut i: usize = 0;
    assert(items@.take(0) =~= Seq::<String>::empty());
    while i < items.len()
        invariant
            i <= items@.len(),
            flags@.len() == items@.len(),
            kept@ == unflagged(items@.take(i as int), flags@.take(i as int)),
        decreases items.len() - i,
    {
        proof {
            assert(items@.take(i + 1).drop_last() =~= items@.take(i as int));
            assert(flags@.take(i + 1).drop_last() =~= flags@.take(i as int));
        }
        if !flags[i] {
            kept.push(items[i].clone());
        }
        i = i + 1;
    }
    assert(items@.take(i as int) =~= items@);
    assert(flags@.take(i as int) =~= flags@);
    kept
}

/// What a pattern is matched against: the candidate as it stands, or between
/// two spaces where `wrap` is set.
spec fn subject(candidate: Seq<char>, wrap: bool) -> Seq<char> {
    if wrap {
        padded(candidate)
    } else {
        candidate
    }
}

/// For each candidate, whether `pattern` matches it: as it stands, or between
/// two spaces where `wrap` is set.
fn match_flags(vector: &Vec<String>, pattern: &Pattern, wrap: bool) -> (flags: Vec<bool>)
    ensures
        flags@.len() == vector@.len(),
        forall|t: int|
            0 <= t < vector@.len() ==> #[trigger] flags@[t] == regex_is_match(
                pattern@,
                subject(vector@[t]@, wrap),
            ),
        pattern@ == double_space_pattern() ==> forall|t: int|
            0 <= t < vector@.len() ==> #[trigger] flags@[t] == has_double_space(
                subject(vector@[t]@, wrap),
            ),
        pattern@ == no_vowels_pattern() ==> forall|t: int|
            0 <= t < vector@.len() ==> #[trigger] flags@[t] == has_vowelless_word(
                subject(vector@[t]@, wrap),
            ),
{
    let mut flags: Vec<bool> = Vec::new();
    let mut i: usize = 0;
    while i < vector.len()
        invariant
            i <= vector@.len(),
            flags@.len() == i,
            forall|t: int|
                0 <= t < i ==> #[trigger] flags@[t] == regex_is_match(
                    pattern@,
                    subject(vector@[t]@, wrap),
                ),
            pattern@ == double_space_pattern() ==> forall|t: int|
                0 <= t < i ==> #[trigger] flags@[t] == has_double_space(
                    subject(vector@[t]@, wrap),
                ),
            pattern@ == no_vowels_pattern() ==> forall|t: int|
                0 <= t < i ==> #[trigger] flags@[t] == has_vowelless_word(
                    subject(vector@[t]@, wrap),
                ),
        decreases vector.len() - i,
    {
        let matched = if wrap {
            let wrapped = pad(&vector[i]);
            pattern.is_match(wrapped.as_str())
        } else {
            pattern.is_match(vector[i].as_str())
        };
        flags.push(matched);
        i = i + 1;
    }
    flags
}

/// The candidates that do not begin with a space.
pub fn filter_begins_with_space(vector: Vec<String>) -> (kept: Vec<String>)
    ensures
        kept@ == vector@.filter(lacks_leading_space()),
{
    let mut flags: Vec<bool> = Vec::new();
    let mut i: usize = 0;
    while i < vector.len()
        invariant
            i <= vector@.len(),
            flags@.len() == i,
            forall|t: int| 0 <= t < i ==> #[trigger] flags@[t] == begins_with_space(vector@[t]@),
        decreases vector.len() - i,
    {
        let text = vector[i].as_str();
        let flag = !text.is_empty() && text.get_char(0) == ' ';
        flags.push(flag);
        i = i + 1;
    }
    proof {
        lemma_unflagged_is_filter(vector@, flags@, lacks_leading_space());
    }
    discard_flagged(&vector, &flags)
}

/// The candidates without two white-space characters before a character that
/// is none. Where the `regex` crate does not accept the pattern, all of them.
pub fn filter_double_space(vector: Vec<String>) -> (kept: Vec<String>)
    ensures
        regex_compiles(double_space_pattern()) ==> kept@ == vector@.filter(lacks_double_space()),
        !regex_compiles(double_space_pattern()) ==> kept@ == vector@,
{
    let pattern = match Pattern::compile(r"\s\s\S") {
        Some(pattern) => pattern,
        None => {
            return vector;
        },
    };
    let flags = match_flags(&vector, &pattern, false);
    proof {
        lemma_unflagged_is_filter(vector@, flags@, lacks_double_space());
    }
    discard_flagged(&vector, &flags)
}

/// The candidates of which every word holds an `e` or an `i`. Where the
/// `regex` crate does not accept the pattern, all of them.
pub fn filter_no_vowels(vector: Vec<String>) -> (kept: Vec<String>)
    ensures
        regex_compiles(no_vowels_pattern()) ==> kept@ == vector@.filter(lacks_vowelless_word()),
        !regex_compiles(no_vowels_pattern()) ==> kept@ == vector@,
{
    let pattern = match Pattern::compile(r"\s[^ei\s]+\s") {
        Some(pattern) => pattern,
        None => {
            return vector;
        },
    };
    let flags = match_flags(&vector, &pattern, true);
    proof {
        lemma_unflagged_is_filter(vector@, flags@, lacks_vowelless_word());
    }
    discard_flagged(&vector, &flags)
}

/// The candidates in which `string` stands as a word of its own.
pub fn filter_must_contain(vector: &Vec<String>, string: &String) -> (kept: Vec<String>)
    ensures
        kept@ == vector@.filter(holds_word(string@)),
{
    let word = pad(string);
    let needle = chars_of(word.as_str());
    let mut flags: Vec<bool> = Vec::new();
    let mut i: usize = 0;
    while i < vector.len()
        invariant
            i <= vector@.len(),
            flags@.len() == i,
            needle@ == padded(string@),
            forall|t: int|
                0 <= t < i ==> #[trigger] flags@[t] == !is_substring(
                    padded(vector@[t]@),
                    padded(string@),
                ),
        decreases vector.len() - i,
    {
        let wrapped = pad(&vector[i]);
        let hay = chars_of(wrapped.as_str());
        flags.push(!contains(&hay, &needle));
        i = i + 1;
    }
    proof {
        lemma_unflagged_is_filter(vector@, flags@, holds_word(string@));
    }
    discard_flagged(vector, &flags)
}

/// What the first filter keeps, where `options` switches it on.
spec fn first_stage(options: FilterOptions) -> spec_fn(String) -> bool {
    |s: String| options.begins_with_space ==> !begins_with_space(s@)
}

/// What the second filter keeps, where `options` switches it on.
spec fn second_stage(options: FilterOptions) -> spec_fn(String) -> bool {
    |s: String|
        options.double_space && regex_compiles(double_space_pattern()) ==> !has_double_space(s@)
}

/// What the third filter keeps, where `options` switches it on.
spec fn third_stage(options: FilterOptions) -> spec_fn(String) -> bool {
    |s: String|
        options.no_vowels && regex_compiles(no_vowels_pattern()) ==> !has_vowelless_word(
            padded(s@),
        )
}

/// What the fourth filter keeps, where `options` switches it on.
spec fn fourth_stage(options: FilterOptions) -> spec_fn(String) -> bool {
    |s: String|
        options.must_contain matches Some(word) ==> is_substring(padded(s@), padded(word@))
}

/// The candidates that meet every filter that `options` switches on.
pub fn filter_list(list: Vec<String>, options: &FilterOptions) -> (kept: Vec<String>)
    ensures
        kept@ == list@.filter(passes(*options)),
{
    let ghost start = list@;
    let ghost first = first_stage(*options);
    let ghost second = second_stage(*options);
    let ghost third = third_stage(*options);
    let ghost fourth = fourth_stage(*options);
    let mut list = list;
    if options.begins_with_space {
        list = filter_begins_with_space(list);
        assert(lacks_leading_space() =~= first);
    } else {
        proof {
            lemma_filter_all(start, first);
        }
    }
    let ghost one = list@;
    assert(one == start.filter(first));
    if options.double_space {
        list = filter_double_space(list);
        proof {
            if regex_compiles(double_space_pattern()) {
                assert(lacks_double_space() =~= second);
            } else {
                lemma_filter_all(one, second);
            }
        }
    } else {
        proof {
            lemma_filter_all(one, second);
        }
    }
    let ghost two = list@;
    assert(two == one.filter(second));
    if options.no_vowels {
        list = filter_no_vowels(list);
        proof {
            if regex_compiles(no_vowels_pattern()) {
                assert(lacks_vowelless_word() =~= third);
            } else {
                lemma_filter_all(two, third);
            }
        }
    } else {
        proof {
            lemma_filter_all(two, third);
        }
    }
    let ghost three = list@;
    assert(three == two.filter(third));
    match &options.must_contain {
        Some(word) => {
            list = filter_must_contain(&list, word);
            assert(holds_word(word@) =~= fourth);
        },
        None => {
            proof {
                lemma_filter_all(three, fourth);
            }
        },
    }
    proof {
        assert(list@ == three.filter(fourth));
        lemma_filter_twice(start, first, second);
        lemma_filter_twice(start, both(first, second), third);
        lemma_filter_twice(start, both(both(first, second), third), fourth);
        assert(both(both(both(first, second), third), fourth) =~= passes(*options));
    }
    list
}

} // verus!
