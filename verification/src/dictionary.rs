//! Pruning a word list against a cipher.
//!
//! Decoding only rearranges the characters of the cipher. So a word can only
//! stand in a decoded text if the cipher holds each of its letters at least as
//! often as the word does: the word's letters are a sub-multiset of the
//! cipher's.

use crate::enumerator::{candidate, lemma_candidate_keeps_letters, no_empty_stage, permutation_count};
use crate::filter::{both, discard_flagged, lemma_filter_twice, lemma_unflagged_is_filter};
use crate::text::{chars_of, is_substring, occurs_at, pad, padded, views};
use std::collections::HashMap;
use vstd::multiset::group_multiset_axioms;
use vstd::prelude::*;
use vstd::seq_lib::{lemma_multiset_commutative, to_multiset_build, to_multiset_contains};
use vstd::std_specs::hash::group_hash_axioms;

verus! {

/// Keeps a word that is no longer than the cipher.
pub open spec fn fits_length(cipher: Seq<char>) -> spec_fn(String) -> bool {
    |word: String| word@.len() <= cipher.len()
}

/// Keeps a word that holds no letter more often than the cipher does.
pub open spec fn fits_letters(cipher: Seq<char>) -> spec_fn(String) -> bool {
    |word: String| word@.to_multiset().subset_of(cipher.to_multiset())
}

/// The words between two spaces each.
pub open spec fn wrapped(words: Seq<String>) -> Seq<Seq<char>> {
    words.map_values(|word: String| padded(word@))
}

/// How often a table of letter counts holds a letter.
pub open spec fn counted(table: Map<u32, usize>, letter: char) -> nat {
    if table.contains_key(letter as u32) {
        table[letter as u32] as nat
    } else {
        0
    }
}

/// The table holds, for every letter, how often it occurs in the text.
pub open spec fn counts_letters(table: Map<u32, usize>, text: Seq<char>) -> bool {
    forall|letter: char| #[trigger] counted(table, letter) == text.to_multiset().count(letter)
}

/// A word that holds a letter more often than the cipher does is not among
/// the words that are kept: so a word with a letter twice is dropped where the
/// cipher has that letter once or not at all.
pub proof fn lemma_repeated_letter_is_pruned(
    words: Seq<String>,
    cipher: Seq<char>,
    word: String,
    letter: char,
)
    requires
        word@.to_multiset().count(letter) > cipher.to_multiset().count(letter),
    ensures
        !fits_letters(cipher)(word),
        !words.filter(fits_letters(cipher)).contains(word),
{
    let kept = words.filter(fits_letters(cipher));
    if kept.contains(word) {
        let i = choose|i: int| 0 <= i < kept.len() && kept[i] == word;
        words.lemma_filter_pred(fits_letters(cipher), i);
    }
}

/// A text that stands in another is no longer than the other, and holds no
/// letter more often.
pub proof fn lemma_substring_letters(hay: Seq<char>, needle: Seq<char>)
    requires
        is_substring(hay, needle),
    ensures
        needle.len() <= hay.len(),
        needle.to_multiset().subset_of(hay.to_multiset()),
{
    broadcast use group_multiset_axioms;

    let at = choose|at: int| occurs_at(hay, needle, at);
    let before = hay.take(at);
    let after = hay.skip(at + needle.len());
    assert(hay =~= (before + hay.subrange(at, at + needle.len())) + after);
    lemma_multiset_commutative(before + needle, after);
    lemma_multiset_commutative(before, needle);
}

/// The pruning loses no hit: a word that stands in a candidate, both taken
/// between two spaces, is a word that the pruning keeps.
pub proof fn lemma_hit_survives_pruning(
    cipher: Seq<char>,
    sizes: Seq<usize>,
    slot: int,
    word: String,
)
    requires
        no_empty_stage(sizes),
        sizes.len() <= usize::MAX,
        0 <= slot < permutation_count(sizes),
        is_substring(padded(candidate(cipher, sizes, slot)), padded(word@)),
    ensures
        fits_length(cipher)(word),
        fits_letters(cipher)(word),
{
    let text = candidate(cipher, sizes, slot);
    let hay = padded(text);
    let needle = padded(word@);
    let at = choose|at: int| occurs_at(hay, needle, at);
    assert(text.subrange(at, at + word@.len()) =~= word@) by {
        assert forall|i: int| 0 <= i < word@.len() implies text[at + i] == word@[i] by {
            assert(hay.subrange(at, at + needle.len())[i + 1] == needle[i + 1]);
        }
    }
    assert(occurs_at(text, word@, at));
    lemma_substring_letters(text, word@);
    lemma_candidate_keeps_letters(cipher, sizes, slot);
}

/// Two letters with one number are one letter.
proof fn lemma_letter_number(a: char, b: char)
    ensures
        a as u32 == b as u32 ==> a == b,
{
    assert(0 <= a as int <= 0x10FFFF);
    assert(0 <= b as int <= 0x10FFFF);
    assert(a as u32 == a as int);
    assert(b as u32 == b as int);
}

/// For every letter of `text`, how often it occurs.
pub fn letter_counts(text: &Vec<char>) -> (table: HashMap<u32, usize>)
    ensures
        counts_letters(table@, text@),
{
    broadcast use {group_hash_axioms, group_multiset_axioms};

    let mut table: HashMap<u32, usize> = HashMap::new();
    let mut i: usize = 0;
    proof {
        assert forall|letter: char| text@.take(0).to_multiset().count(letter) == 0 by {
            to_multiset_contains(text@.take(0), letter);
        }
    }
    while i < text.len()
        invariant
            i <= text.len(),
            forall|letter: char| #[trigger]
                counted(table@, letter) == text@.take(i as int).to_multiset().count(letter),
            forall|letter: char| #[trigger] counted(table@, letter) <= i,
        decreases text.len() - i,
    {
        let letter = text[i];
        let key = letter as u32;
        let seen: usize = match table.get(&key) {
            Some(count) => *count,
            None => 0,
        };
        assert(seen == counted(table@, letter));
        let ghost before = table@;
        table.insert(key, seen + 1);
        proof {
            assert(text@.take(i + 1) =~= text@.take(i as int).push(letter));
            to_multiset_build(text@.take(i as int), letter);
            assert forall|other: char| #[trigger]
                counted(table@, other) == text@.take(i + 1).to_multiset().count(other)
                && counted(table@, other) <= i + 1 by {
                assert(counted(before, other) <= i);
                if other == letter {
                } else {
                    lemma_letter_number(other, letter);
                }
            }
        }
        i = i + 1;
    }
    assert(text@.take(i as int) =~= text@);
    table
}

/// Whether `table` holds every letter of `word` at least as often as `word`
/// does.
pub fn has_letters(word: &Vec<char>, table: &HashMap<u32, usize>) -> (fits: bool)
    ensures
        fits == (forall|letter: char|
            word@.to_multiset().count(letter) <= #[trigger] counted(table@, letter)),
{
    broadcast use group_hash_axioms;

    let needed = letter_counts(word);
    let mut j: usize = 0;
    while j < word.len()
        invariant
            j <= word.len(),
            counts_letters(needed@, word@),
            forall|t: int|
                0 <= t < j ==> word@.to_multiset().count(#[trigger] word@[t]) <= counted(
                    table@,
                    word@[t],
                ),
        decreases word.len() - j,
    {
        let letter = word[j];
        let key = letter as u32;
        let used: usize = match needed.get(&key) {
            Some(count) => *count,
            None => 0,
        };
        let available: usize = match table.get(&key) {
            Some(count) => *count,
            None => 0,
        };
        assert(used == counted(needed@, letter));
        assert(available == counted(table@, letter));
        if used > available {
            return false;
        }
        j = j + 1;
    }
    proof {
        assert forall|letter: char|
            word@.to_multiset().count(letter) <= #[trigger] counted(table@, letter) by {
            to_multiset_contains(word@, letter);
            if word@.contains(letter) {
                let t = choose|t: int| 0 <= t < word@.len() && word@[t] == letter;
                assert(word@.to_multiset().count(word@[t]) <= counted(table@, word@[t]));
            }
        }
    }
    true
}

/// The words that are no longer than the cipher.
pub fn filter_words_length(words: Vec<String>, cipher: &String) -> (kept: Vec<String>)
    ensures
        kept@ == words@.filter(fits_length(cipher@)),
{
    let n = cipher.as_str().unicode_len();
    let mut flags: Vec<bool> = Vec::new();
    let mut i: usize = 0;
    while i < words.len()
        invariant
            i <= words@.len(),
            n == cipher@.len(),
            flags@.len() == i,
            forall|t: int| 0 <= t < i ==> #[trigger] flags@[t] == !(words@[t]@.len() <= n),
        decreases words.len() - i,
    {
        flags.push(words[i].as_str().unicode_len() > n);
        i = i + 1;
    }
    proof {
        lemma_unflagged_is_filter(words@, flags@, fits_length(cipher@));
    }
    discard_flagged(&words, &flags)
}

/// The words that hold no letter more often than the cipher does.
pub fn filter_words_characters(words: Vec<String>, cipher: &String) -> (kept: Vec<String>)
    ensures
        kept@ == words@.filter(fits_letters(cipher@)),
{
    let letters = chars_of(cipher.as_str());
    let table = letter_counts(&letters);
    let mut flags: Vec<bool> = Vec::new();
    let mut i: usize = 0;
    while i < words.len()
        invariant
            i <= words@.len(),
            letters@ == cipher@,
            counts_letters(table@, letters@),
            flags@.len() == i,
            forall|t: int|
                0 <= t < i ==> #[trigger] flags@[t] == !words@[t]@.to_multiset().subset_of(
                    cipher@.to_multiset(),
                ),
        decreases words.len() - i,
    {
        let word = chars_of(words[i].as_str());
        let fits = has_letters(&word, &table);
        proof {
            let needed = word@.to_multiset();
            let held = cipher@.to_multiset();
            if fits {
                assert forall|letter: char| needed.count(letter) <= held.count(letter) by {
                    assert(needed.count(letter) <= counted(table@, letter));
                }
            } else {
                let letter = choose|letter: char|
                    !(word@.to_multiset().count(letter) <= #[trigger] counted(table@, letter));
                assert(counted(table@, letter) == held.count(letter));
                assert(!(needed.count(letter) <= held.count(letter)));
            }
        }
        flags.push(!fits);
        i = i + 1;
    }
    proof {
        lemma_unflagged_is_filter(words@, flags@, fits_letters(cipher@));
    }
    discard_flagged(&words, &flags)
}

/// The words that can stand in a text decoded from the cipher, each between
/// two spaces.
pub fn filter_dictonary(dictonary: Vec<String>, cipher: &String) -> (kept: Vec<String>)
    ensures
        views(kept@) == wrapped(
            dictonary@.filter(both(fits_length(cipher@), fits_letters(cipher@))),
        ),
{
    let ghost all = dictonary@;
    let short = filter_words_length(dictonary, cipher);
    let words = filter_words_characters(short, cipher);
    proof {
        lemma_filter_twice(all, fits_length(cipher@), fits_letters(cipher@));
    }
    let mut kept: Vec<String> = Vec::new();
    let mut i: usize = 0;
    while i < words.len()
        invariant
            i <= words@.len(),
            kept@.len() == i,
            forall|t: int| 0 <= t < i ==> (#[trigger] kept@[t])@ == padded(words@[t]@),
        decreases words.len() - i,
    {
        kept.push(pad(&words[i]));
        i = i + 1;
    }
    assert(views(kept@) =~= wrapped(words@));
    kept
}

} // verus!
