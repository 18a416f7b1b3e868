//! Strings as sequences of characters.

use vstd::prelude::*;

verus! {

/// `String::push` appends one character to the end of the string.
pub assume_specification[ String::push ](s: &mut String, ch: char)
    ensures
        final(s)@ == old(s)@.push(ch),
;

/// The text between two spaces, which mark where it begins and ends.
pub open spec fn padded(text: Seq<char>) -> Seq<char> {
    seq![' '] + text + seq![' ']
}

/// Whether `needle` stands in `hay` from position `at` on.
pub open spec fn occurs_at(hay: Seq<char>, needle: Seq<char>, at: int) -> bool {
    &&& 0 <= at
    &&& at + needle.len() <= hay.len()
    &&& hay.subrange(at, at + needle.len()) == needle
}

/// Whether `needle` stands somewhere in `hay`.
pub open spec fn is_substring(hay: Seq<char>, needle: Seq<char>) -> bool {
    exists|at: int| occurs_at(hay, needle, at)
}

/// The characters of the strings of a list.
pub open spec fn views(list: Seq<String>) -> Seq<Seq<char>> {
    list.map_values(|s: String| s@)
}

/// The characters of each piece.
pub open spec fn piece_views(pieces: Seq<Vec<char>>) -> Seq<Seq<char>> {
    pieces.map_values(|piece: Vec<char>| piece@)
}

/// The pieces of a text that is read from the left, after the characters
/// `open` of a piece that has begun: a piece ends where the separator
/// stands, and the next begins behind the separator.
pub open spec fn pieces_after(text: Seq<char>, separator: Seq<char>, open: Seq<char>) -> Seq<
    Seq<char>,
>
    decreases text.len(),
{
    if separator.len() == 0 || text.len() < separator.len() {
        seq![open + text]
    } else if text.take(separator.len() as int) == separator {
        seq![open] + pieces_after(text.skip(separator.len() as int), separator, Seq::empty())
    } else {
        pieces_after(text.skip(1), separator, open.push(text[0]))
    }
}

/// The pieces of a text between its separators. A text without a separator
/// is one piece, and so is the empty text.
pub open spec fn pieces(text: Seq<char>, separator: Seq<char>) -> Seq<Seq<char>> {
    pieces_after(text, separator, Seq::empty())
}

/// How the lines of a text end.
#[derive(Clone, Copy, Debug, PartialEq, Eq, Structural)]
pub enum LineEnding {
    /// With a line feed.
    Lf,
    /// With a carriage return and a line feed.
    CrLf,
}

/// The characters that end a line.
pub open spec fn ending_text(ending: LineEnding) -> Seq<char> {
    match ending {
        LineEnding::Lf => seq!['\n'],
        LineEnding::CrLf => seq!['\r', '\n'],
    }
}

/// The lines of a text: what stands before each line ending. What follows
/// the last line ending is no line.
pub open spec fn lines(text: Seq<char>, ending: LineEnding) -> Seq<Seq<char>> {
    pieces(text, ending_text(ending)).drop_last()
}

/// A text has at least one piece.
pub proof fn lemma_pieces_not_empty(text: Seq<char>, separator: Seq<char>, open: Seq<char>)
    ensures
        pieces_after(text, separator, open).len() >= 1,
    decreases text.len(),
{
    if separator.len() == 0 || text.len() < separator.len() {
    } else if text.take(separator.len() as int) == separator {
    } else {
        lemma_pieces_not_empty(text.skip(1), separator, open.push(text[0]));
    }
}

/// The characters of `s`, in order.
pub fn chars_of(s: &str) -> (v: Vec<char>)
    ensures
        v@ == s@,
{
    let mut v: Vec<char> = Vec::new();
    for c in it: s.chars()
        invariant
            it.seq() == s@,
            v@ == s@.take(it.index() as int),
    {
        v.push(c);
    }
    v
}

/// The string made of the characters of `v`, in order.
pub fn string_of(v: &Vec<char>) -> (s: String)
    ensures
        s@ == v@,
{
    let mut s = String::new();
    let mut i: usize = 0;
    while i < v.len()
        invariant
            i <= v.len(),
            s@ == v@.take(i as int),
        decreases v.len() - i,
    {
        s.push(v[i]);
        i += 1;
    }
    s
}

/// `text` between two spaces.
pub fn pad(text: &String) -> (out: String)
    ensures
        out@ == padded(text@),
{
    let mut out = String::new();
    out.push(' ');
    out.append(text.as_str());
    out.push(' ');
    assert(out@ =~= padded(text@));
    out
}

/// Whether `word` stands in `text` from position `at` on.
pub fn stands_at(text: &Vec<char>, at: usize, word: &Vec<char>) -> (found: bool)
    requires
        at + word@.len() <= text@.len(),
    ensures
        found == (text@.subrange(at as int, at + word@.len()) == word@),
{
    let mut k: usize = 0;
    while k < word.len() && text[at + k] == word[k]
        invariant
            at + word.len() <= text.len(),
            k <= word.len(),
            forall|t: int| 0 <= t < k ==> text@[at + t] == word@[t],
        decreases word.len() - k,
    {
        k = k + 1;
    }
    if k == word.len() {
        assert(text@.subrange(at as int, at + word@.len()) =~= word@);
        true
    } else {
        assert(text@.subrange(at as int, at + word@.len())[k as int] != word@[k as int]);
        false
    }
}

/// The pieces of `text` between its separators.
pub fn split(text: &Vec<char>, separator: &Vec<char>) -> (parts: Vec<Vec<char>>)
    requires
        separator@.len() > 0,
    ensures
        piece_views(parts@) == pieces(text@, separator@),
{
    let mut parts: Vec<Vec<char>> = Vec::new();
    let mut current: Vec<char> = Vec::new();
    let mut i: usize = 0;
    proof {
        assert(text@.skip(0) =~= text@);
        assert(piece_views(parts@) + pieces(text@, separator@) =~= pieces(text@, separator@));
    }
    while i < text.len() && text.len() - i >= separator.len()
        invariant
            i <= text.len(),
            0 < separator.len(),
            pieces(text@, separator@) == piece_views(parts@) + pieces_after(
                text@.skip(i as int),
                separator@,
                current@,
            ),
        decreases text.len() - i,
    {
        let ghost rest = text@.skip(i as int);
        let ghost done = piece_views(parts@);
        let ghost open = current@;
        proof {
            assert(rest.take(separator@.len() as int) =~= text@.subrange(
                i as int,
                i + separator@.len(),
            ));
        }
        if stands_at(text, i, separator) {
            parts.push(current);
            current = Vec::new();
            proof {
                assert(rest.skip(separator@.len() as int) =~= text@.skip(i + separator@.len()));
                assert(piece_views(parts@) =~= done.push(open));
                assert(done + (seq![open] + pieces_after(
                    text@.skip(i + separator@.len()),
                    separator@,
                    Seq::empty(),
                )) =~= done.push(open) + pieces_after(
                    text@.skip(i + separator@.len()),
                    separator@,
                    Seq::empty(),
                ));
            }
            i = i + separator.len();
        } else {
            current.push(text[i]);
            proof {
                assert(rest.skip(1) =~= text@.skip(i + 1));
            }
            i = i + 1;
        }
    }
    let ghost done = piece_views(parts@);
    let ghost open = current@;
    let ghost tail = text@.skip(i as int);
    while i < text.len()
        invariant
            i <= text.len(),
            current@ + text@.skip(i as int) == open + tail,
        decreases text.len() - i,
    {
        current.push(text[i]);
        assert(current@ + text@.skip(i + 1) =~= open + tail);
        i = i + 1;
    }
    assert(current@ =~= open + tail);
    parts.push(current);
    assert(piece_views(parts@) =~= done + seq![open + tail]);
    parts
}

/// The lines of `content`.
pub fn split_lines(content: &String, ending: LineEnding) -> (out: Vec<String>)
    ensures
        views(out@) == lines(content@, ending),
{
    let letters = chars_of(content.as_str());
    let separator: Vec<char> = match ending {
        LineEnding::Lf => vec!['\n'],
        LineEnding::CrLf => vec!['\r', '\n'],
    };
    assert(separator@ =~= ending_text(ending));
    let parts = split(&letters, &separator);
    let count = parts.len();
    let keep = if count == 0 {
        0
    } else {
        count - 1
    };
    proof {
        lemma_pieces_not_empty(content@, ending_text(ending), Seq::empty());
    }
    let mut out: Vec<String> = Vec::new();
    let mut i: usize = 0;
    while i < keep
        invariant
            i <= keep,
            keep + 1 == parts@.len(),
            out@.len() == i,
            forall|t: int| 0 <= t < i ==> (#[trigger] out@[t])@ == parts@[t]@,
        decreases keep - i,
    {
        out.push(string_of(&parts[i]));
        i = i + 1;
    }
    assert(views(out@) =~= piece_views(parts@).drop_last());
    out
}

/// Whether `needle` stands somewhere in `hay`.
pub fn contains(hay: &Vec<char>, needle: &Vec<char>) -> (found: bool)
    ensures
        found == is_substring(hay@, needle@),
{
    if needle.len() > hay.len() {
        return false;
    }
    let last = hay.len() - needle.len();
    let mut at: usize = 0;
    while at <= last
        invariant
            needle.len() <= hay.len(),
            last == hay.len() - needle.len(),
            at <= last + 1,
            forall|a: int| 0 <= a < at ==> !occurs_at(hay@, needle@, a),
        decreases last + 1 - at,
    {
        if stands_at(hay, at, needle) {
            assert(occurs_at(hay@, needle@, at as int));
            return true;
        }
        if at == last {
            return false;
        }
        at = at + 1;
    }
    false
}

} // verus!
