//! One stage of columnar transposition.
//!
//! The text is written row by row into a grid with one column per key entry.
//! The key, read from its end, says which grid column goes to which place: the
//! output is the grid read column by column, and output column `x` is grid
//! column `reversed(key)[x]`. Decoding cuts the cipher into columns of equal
//! length and applies the same table the other way round: grid column `x` is
//! cipher column `reversed(key)[x]`.
//!
//! Only complete rows take part. Where the length is not a multiple of the key
//! length, the characters after the last complete row stay where they are, in
//! both directions.

use crate::indexer::is_permutation;
use crate::text::{chars_of, string_of};
use vstd::arithmetic::div_mod::{lemma_fundamental_div_mod, lemma_fundamental_div_mod_converse};
use vstd::multiset::group_multiset_axioms;
use vstd::prelude::*;
use vstd::seq_lib::{seq_to_set_is_finite, to_multiset_build, to_multiset_contains, to_multiset_remove};
use vstd::set_lib::{lemma_int_range, lemma_subset_equality, set_int_range};

verus! {

/// A key that the cipher accepts: a permutation of at least one column.
pub open spec fn valid_key(key: Seq<usize>) -> bool {
    key.len() >= 1 && is_permutation(key)
}

/// The key read from its end.
pub open spec fn reversed(key: Seq<usize>) -> Seq<int> {
    Seq::new(key.len(), |c: int| key[key.len() - 1 - c] as int)
}

/// The inverse of the reversed key: `lookup(key)[v]` is the place of `v` in
/// `reversed(key)`.
pub open spec fn lookup(key: Seq<usize>) -> Seq<int> {
    Seq::new(key.len(), |v: int| reversed(key).index_of(v))
}

/// A key whose reversal is its own inverse.
pub open spec fn is_self_inverse(key: Seq<usize>) -> bool {
    forall|c: int| 0 <= c < key.len() ==> #[trigger] reversed(key)[reversed(key)[c]] == c
}

/// The text after one stage of the cipher: output column `x` is column
/// `reversed(key)[x]` of the text written in rows of `key.len()` characters.
/// What follows the last complete row stays in place.
pub open spec fn encode(text: Seq<char>, key: Seq<usize>) -> Seq<char> {
    let m = key.len() as int;
    let rows = text.len() as int / m;
    Seq::new(
        text.len(),
        |p: int|
            if p < m * rows {
                text[(p % rows) * m + reversed(key)[p / rows]]
            } else {
                text[p]
            },
    )
}

/// The cipher after one stage of decoding: column `x` of the rows that come
/// out is column `reversed(key)[x]` of the cipher cut into `key.len()`
/// columns. What follows the last complete column stays in place.
pub open spec fn decode(cipher: Seq<char>, key: Seq<usize>) -> Seq<char> {
    let m = key.len() as int;
    let rows = cipher.len() as int / m;
    Seq::new(
        cipher.len(),
        |q: int|
            if q < m * rows {
                cipher[reversed(key)[q % m] * rows + q / m]
            } else {
                cipher[q]
            },
    )
}

/// What encoding and then decoding under one key gives: each complete row
/// with its columns moved by the reversed key applied twice.
pub open spec fn round_trip(text: Seq<char>, key: Seq<usize>) -> Seq<char> {
    let m = key.len() as int;
    let rows = text.len() as int / m;
    Seq::new(
        text.len(),
        |q: int|
            if q < m * rows {
                text[(q / m) * m + reversed(key)[reversed(key)[q % m]]]
            } else {
                text[q]
            },
    )
}

/// Cell `b` of stripe `a`, in a layout of `count` stripes of `width` cells.
pub proof fn lemma_cell(a: int, b: int, width: int, count: int)
    requires
        0 <= a < count,
        0 <= b < width,
    ensures
        0 <= a * width,
        a * width + b < count * width,
        (a * width + b) / width == a,
        (a * width + b) % width == b,
{
    lemma_fundamental_div_mod_converse(a * width + b, width, a, b);
    assert(0 <= a * width && a * width + b < count * width) by (nonlinear_arith)
        requires
            0 <= a < count,
            0 <= b < width,
    ;
}

/// The stripe and the cell of position `p`, in a layout of `count` stripes of
/// `width` cells.
proof fn lemma_split(p: int, width: int, count: int)
    requires
        0 <= p < count * width,
        0 < width,
    ensures
        0 <= p / width < count,
        0 <= p % width < width,
        p == (p / width) * width + p % width,
{
    lemma_fundamental_div_mod(p, width);
    let q = p / width;
    let r = p % width;
    assert(0 <= r < width && 0 <= q < count && p == q * width + r) by (nonlinear_arith)
        requires
            0 <= p < count * width,
            0 < width,
            p == width * q + r,
            r == p % width,
    ;
}

/// A full row count leaves room for no more than the text.
proof fn lemma_complete_rows(len: int, m: int)
    requires
        0 <= len,
        0 < m,
    ensures
        0 <= len / m,
        0 <= m * (len / m) <= len,
{
    lemma_fundamental_div_mod(len, m);
    let q = len / m;
    let r = len % m;
    assert(0 <= q && 0 <= m * q <= len) by (nonlinear_arith)
        requires
            0 <= len,
            0 < m,
            len == m * q + r,
            0 <= r < m,
    ;
}

/// Every column number occurs in a key.
proof fn lemma_key_is_onto(key: Seq<usize>, v: int)
    requires
        is_permutation(key),
        0 <= v < key.len(),
    ensures
        exists|i: int| 0 <= i < key.len() && key[i] == v,
{
    let ints = key.map_values(|x: usize| x as int);
    let m = key.len() as int;
    assert(ints.no_duplicates()) by {
        assert forall|i: int, j: int|
            0 <= i < ints.len() && 0 <= j < ints.len() && i != j implies ints[i] != ints[j] by {
            assert(key[i] != key[j]);
        }
    }
    ints.unique_seq_to_set();
    seq_to_set_is_finite(ints);
    lemma_int_range(0, m);
    assert(ints.to_set().subset_of(set_int_range(0, m))) by {
        assert forall|x: int| ints.to_set().contains(x) implies set_int_range(0, m).contains(
            x,
        ) by {
            let i = choose|i: int| 0 <= i < ints.len() && ints[i] == x;
            assert(key[i] < key.len());
        }
    }
    lemma_subset_equality(ints.to_set(), set_int_range(0, m));
    assert(set_int_range(0, m).contains(v));
    assert(ints.to_set().contains(v));
    let i = choose|i: int| 0 <= i < ints.len() && ints[i] == v;
    assert(key[i] == v);
}

/// The lookup table of a key is the inverse of the reversed key, on both
/// sides.
pub proof fn lemma_lookup_inverts(key: Seq<usize>)
    requires
        valid_key(key),
    ensures
        forall|c: int| 0 <= c < key.len() ==> 0 <= #[trigger] reversed(key)[c] < key.len(),
        forall|v: int| 0 <= v < key.len() ==> 0 <= #[trigger] lookup(key)[v] < key.len(),
        forall|c: int| 0 <= c < key.len() ==> lookup(key)[#[trigger] reversed(key)[c]] == c,
        forall|v: int| 0 <= v < key.len() ==> reversed(key)[#[trigger] lookup(key)[v]] == v,
{
    let m = key.len() as int;
    let r = reversed(key);
    assert forall|c: int| 0 <= c < m implies 0 <= #[trigger] r[c] < m by {
        assert(key[m - 1 - c] < key.len());
    }
    assert forall|v: int| 0 <= v < m implies 0 <= #[trigger] lookup(key)[v] < m && r[lookup(
        key,
    )[v]] == v by {
        lemma_key_is_onto(key, v);
        let i = choose|i: int| 0 <= i < key.len() && key[i] == v;
        assert(r[m - 1 - i] == v);
    }
    assert forall|c: int| 0 <= c < m implies lookup(key)[#[trigger] r[c]] == c by {
        let v = r[c];
        let found = lookup(key)[v];
        assert(r[found] == v);
        assert(key[m - 1 - found] == key[m - 1 - c]);
        if found != c {
            assert(key[m - 1 - found] != key[m - 1 - c]);
        }
    }
}

/// Encoding sends the character at position `i` of a complete row to column
/// `lookup(key)[i % m]` of the output, at row `i / m`.
pub proof fn lemma_encode_places(text: Seq<char>, key: Seq<usize>, i: int)
    requires
        valid_key(key),
        0 <= i < key.len() * (text.len() / key.len()),
    ensures
        ({
            let m = key.len() as int;
            let rows = text.len() as int / m;
            let p = lookup(key)[i % m] * rows + i / m;
            0 <= p < m * rows && encode(text, key)[p] == text[i]
        }),
{
    let m = key.len() as int;
    let rows = text.len() as int / m;
    lemma_complete_rows(text.len() as int, m);
    lemma_lookup_inverts(key);
    assert(m * rows == rows * m) by (nonlinear_arith);
    lemma_split(i, m, rows);
    let col = lookup(key)[i % m];
    lemma_cell(col, i / m, rows, m);
}

/// Decoding sends the character at position `i` of a complete column to row
/// `i % rows` of the output, at column `lookup(key)[i / rows]`.
pub proof fn lemma_decode_places(cipher: Seq<char>, key: Seq<usize>, i: int)
    requires
        valid_key(key),
        0 <= i < key.len() * (cipher.len() / key.len()),
    ensures
        ({
            let m = key.len() as int;
            let rows = cipher.len() as int / m;
            let q = (i % rows) * m + lookup(key)[i / rows];
            0 <= q < m * rows && decode(cipher, key)[q] == cipher[i]
        }),
{
    let m = key.len() as int;
    let rows = cipher.len() as int / m;
    lemma_complete_rows(cipher.len() as int, m);
    lemma_lookup_inverts(key);
    assert(rows > 0) by (nonlinear_arith)
        requires
            0 <= i < m * rows,
            0 < m,
    ;
    lemma_split(i, rows, m);
    let col = lookup(key)[i / rows];
    lemma_cell(i % rows, col, m, rows);
    assert(m * rows == rows * m) by (nonlinear_arith);
}

/// Encoding and then decoding under one key keeps every character in its
/// row, and moves column `reversed(key)[reversed(key)[x]]` to column `x`.
pub proof fn lemma_decode_encode(text: Seq<char>, key: Seq<usize>)
    requires
        valid_key(key),
    ensures
        decode(encode(text, key), key) == round_trip(text, key),
{
    let m = key.len() as int;
    let rows = text.len() as int / m;
    let coded = encode(text, key);
    let back = decode(coded, key);
    lemma_complete_rows(text.len() as int, m);
    lemma_lookup_inverts(key);
    assert forall|q: int| 0 <= q < text.len() implies back[q] == round_trip(text, key)[q] by {
        if q < m * rows {
            assert(m * rows == rows * m) by (nonlinear_arith);
            lemma_split(q, m, rows);
            let col = reversed(key)[q % m];
            lemma_cell(col, q / m, rows, m);
        }
    }
    assert(back =~= round_trip(text, key));
}

/// Under a key whose reversal is its own inverse, decoding what was encoded
/// gives the text back. So it does, under any key, for a text shorter than
/// the key, which has no complete row.
pub proof fn lemma_round_trip(text: Seq<char>, key: Seq<usize>)
    requires
        valid_key(key),
        is_self_inverse(key) || text.len() < key.len(),
    ensures
        decode(encode(text, key), key) == text,
{
    let m = key.len() as int;
    let rows = text.len() as int / m;
    lemma_decode_encode(text, key);
    lemma_complete_rows(text.len() as int, m);
    assert forall|q: int| 0 <= q < text.len() implies round_trip(text, key)[q] == text[q] by {
        if q < m * rows {
            assert(m * rows == rows * m) by (nonlinear_arith);
            lemma_split(q, m, rows);
            if text.len() < key.len() {
                assert(rows == 0) by (nonlinear_arith)
                    requires
                        0 <= m * rows < m,
                        0 <= rows,
                ;
            }
        }
    }
    assert(round_trip(text, key) =~= text);
}

/// Where the reversed key applied twice brings another character to some
/// position, decoding what was encoded does not give the text back: under the
/// key `0, 2, 1`, `abc` comes back as `cab`.
pub proof fn lemma_round_trip_fails(text: Seq<char>, key: Seq<usize>, q: int)
    requires
        valid_key(key),
        0 <= q < text.len(),
        round_trip(text, key)[q] != text[q],
    ensures
        decode(encode(text, key), key) != text,
{
    lemma_decode_encode(text, key);
}

/// A sequence read through a table of positions that names no position
/// twice holds each element as often as the sequence does.
pub proof fn lemma_rearranged<T>(s: Seq<T>, t: Seq<T>, from: Seq<int>)
    requires
        t.len() == s.len(),
        from.len() == s.len(),
        forall|q: int| 0 <= q < from.len() ==> 0 <= #[trigger] from[q] < s.len(),
        from.no_duplicates(),
        forall|q: int| 0 <= q < t.len() ==> #[trigger] t[q] == s[from[q]],
    ensures
        t.to_multiset() == s.to_multiset(),
    decreases s.len(),
{
    broadcast use group_multiset_axioms;

    if s.len() == 0 {
        assert(s =~= t);
    } else {
        let n = s.len() as int;
        let j = from[n - 1];
        let fewer = s.remove(j);
        let front = t.drop_last();
        let table = Seq::new(
            (n - 1) as nat,
            |q: int|
                if from[q] < j {
                    from[q]
                } else {
                    from[q] - 1
                },
        );
        assert forall|q: int| 0 <= q < table.len() implies 0 <= #[trigger] table[q]
            < fewer.len() by {
            assert(from[q] != from[n - 1]);
        }
        assert forall|a: int, b: int|
            0 <= a < table.len() && 0 <= b < table.len() && a != b implies table[a]
            != table[b] by {
            assert(from[a] != from[b]);
            assert(from[a] != from[n - 1]);
            assert(from[b] != from[n - 1]);
        }
        assert forall|q: int| 0 <= q < front.len() implies #[trigger] front[q] == fewer[table[q]] by {
            assert(from[q] != from[n - 1]);
            assert(front[q] == t[q]);
        }
        lemma_rearranged(fewer, front, table);
        to_multiset_remove(s, j);
        assert(t =~= front.push(t[n - 1]));
        to_multiset_build(front, t[n - 1]);
        to_multiset_contains(s, s[j]);
        assert(s.contains(s[j]));
        assert(t.to_multiset() =~= s.to_multiset());
    }
}

/// Encoding rearranges the characters of the text: none is lost, none is
/// new.
pub proof fn lemma_encode_keeps_letters(text: Seq<char>, key: Seq<usize>)
    requires
        valid_key(key),
    ensures
        encode(text, key).len() == text.len(),
        encode(text, key).to_multiset() == text.to_multiset(),
{
    let m = key.len() as int;
    let rows = text.len() as int / m;
    lemma_complete_rows(text.len() as int, m);
    lemma_lookup_inverts(key);
    let from = Seq::new(
        text.len(),
        |p: int|
            if p < m * rows {
                (p % rows) * m + reversed(key)[p / rows]
            } else {
                p
            },
    );
    assert(m * rows == rows * m) by (nonlinear_arith);
    assert forall|p: int| 0 <= p < from.len() implies 0 <= #[trigger] from[p] < text.len() by {
        if p < m * rows {
            lemma_split(p, rows, m);
            lemma_cell(p % rows, reversed(key)[p / rows], m, rows);
        }
    }
    assert forall|a: int, b: int|
        0 <= a < from.len() && 0 <= b < from.len() && a != b implies from[a] != from[b] by {
        if a < m * rows {
            lemma_split(a, rows, m);
            lemma_cell(a % rows, reversed(key)[a / rows], m, rows);
        }
        if b < m * rows {
            lemma_split(b, rows, m);
            lemma_cell(b % rows, reversed(key)[b / rows], m, rows);
        }
        if a < m * rows && b < m * rows && from[a] == from[b] {
            assert(lookup(key)[reversed(key)[a / rows]] == lookup(key)[reversed(key)[b / rows]]);
        }
    }
    lemma_rearranged(text, encode(text, key), from);
}

/// Decoding rearranges the characters of the cipher: none is lost, none is
/// new.
pub proof fn lemma_decode_keeps_letters(cipher: Seq<char>, key: Seq<usize>)
    requires
        valid_key(key),
    ensures
        decode(cipher, key).len() == cipher.len(),
        decode(cipher, key).to_multiset() == cipher.to_multiset(),
{
    let m = key.len() as int;
    let rows = cipher.len() as int / m;
    lemma_complete_rows(cipher.len() as int, m);
    lemma_lookup_inverts(key);
    let from = Seq::new(
        cipher.len(),
        |q: int|
            if q < m * rows {
                reversed(key)[q % m] * rows + q / m
            } else {
                q
            },
    );
    assert(m * rows == rows * m) by (nonlinear_arith);
    assert forall|q: int| 0 <= q < from.len() implies 0 <= #[trigger] from[q] < cipher.len() by {
        if q < m * rows {
            lemma_split(q, m, rows);
            lemma_cell(reversed(key)[q % m], q / m, rows, m);
        }
    }
    assert forall|a: int, b: int|
        0 <= a < from.len() && 0 <= b < from.len() && a != b implies from[a] != from[b] by {
        if a < m * rows {
            lemma_split(a, m, rows);
            lemma_cell(reversed(key)[a % m], a / m, rows, m);
        }
        if b < m * rows {
            lemma_split(b, m, rows);
            lemma_cell(reversed(key)[b % m], b / m, rows, m);
        }
        if a < m * rows && b < m * rows && from[a] == from[b] {
            assert(lookup(key)[reversed(key)[a % m]] == lookup(key)[reversed(key)[b % m]]);
        }
    }
    lemma_rearranged(cipher, decode(cipher, key), from);
}

/// Whether `key` is a key that the cipher accepts.
pub fn is_valid_key(key: &Vec<usize>) -> (valid: bool)
    ensures
        valid == valid_key(key@),
{
    let m = key.len();
    if m == 0 {
        return false;
    }
    let mut seen: Vec<bool> = Vec::new();
    let mut k: usize = 0;
    while k < m
        invariant
            k <= m,
            seen@.len() == k,
            forall|v: int| 0 <= v < k ==> !seen@[v],
        decreases m - k,
    {
        seen.push(false);
        k = k + 1;
    }
    let mut i: usize = 0;
    while i < m
        invariant
            i <= m,
            m == key@.len(),
            seen@.len() == m,
            forall|v: int|
                0 <= v < m ==> (#[trigger] seen@[v] <==> exists|j: int|
                    0 <= j < i && key@[j] == v),
            forall|j: int| 0 <= j < i ==> #[trigger] key@[j] < m,
            forall|a: int, b: int| 0 <= a < i && 0 <= b < i && a != b ==> key@[a] != key@[b],
        decreases m - i,
    {
        let v = key[i];
        if v >= m {
            return false;
        }
        if seen[v] {
            proof {
                let j = choose|j: int| 0 <= j < i && key@[j] == v;
                assert(key@[j] == key@[i as int]);
            }
            return false;
        }
        seen.set(v, true);
        i = i + 1;
        proof {
            assert forall|w: int| 0 <= w < m implies (#[trigger] seen@[w] <==> exists|j: int|
                0 <= j < i && key@[j] == w) by {
                if w == v {
                    assert(key@[i - 1] == w);
                } else if seen@[w] {
                    let j = choose|j: int| 0 <= j < i - 1 && key@[j] == w;
                    assert(0 <= j < i && key@[j] == w);
                }
            }
        }
    }
    true
}

/// One stage of the cipher on `cleartext`. The key is a permutation of its
/// positions; `is_valid_key` tells.
pub fn encrypt(cleartext: &String, key: &Vec<usize>) -> (out: String)
    requires
        valid_key(key@),
    ensures
        out@ == encode(cleartext@, key@),
{
    let text = chars_of(cleartext.as_str());
    let size_x = key.len();
    let size_y = text.len() / size_x;
    proof {
        lemma_complete_rows(text@.len() as int, size_x as int);
    }
    let full = size_x * size_y;
    let mut out: Vec<char> = Vec::new();
    let mut p: usize = 0;
    while p < text.len()
        invariant
            p <= text@.len(),
            text@ == cleartext@,
            valid_key(key@),
            size_x == key@.len(),
            size_y == text@.len() / key@.len(),
            full == size_x * size_y,
            full <= text@.len(),
            out@ == encode(cleartext@, key@).take(p as int),
        decreases text.len() - p,
    {
        let ghost coded = encode(cleartext@, key@);
        let character = if p < full {
            proof {
                assert(size_x * size_y == size_y * size_x) by (nonlinear_arith);
                lemma_split(p as int, size_y as int, size_x as int);
            }
            let x = p / size_y;
            let y = p % size_y;
            let column = key[size_x - 1 - x];
            proof {
                assert(key@[size_x - 1 - x] < key@.len());
                lemma_cell(y as int, column as int, size_x as int, size_y as int);
                assert(size_y * size_x == size_x * size_y) by (nonlinear_arith);
            }
            text[y * size_x + column]
        } else {
            text[p]
        };
        assert(character == coded[p as int]);
        out.push(character);
        assert(coded.take(p as int).push(character) =~= coded.take(p + 1));
        p = p + 1;
    }
    assert(out@ =~= encode(cleartext@, key@));
    string_of(&out)
}

/// One stage of decoding on `cipher`. The key is a permutation of its
/// positions; `is_valid_key` tells.
pub fn decrypt(cipher: &String, key: &Vec<usize>) -> (out: String)
    requires
        valid_key(key@),
    ensures
        out@ == decode(cipher@, key@),
{
    let text = chars_of(cipher.as_str());
    let size_x = key.len();
    let size_y = text.len() / size_x;
    proof {
        lemma_complete_rows(text@.len() as int, size_x as int);
    }
    let full = size_x * size_y;
    let mut out: Vec<char> = Vec::new();
    let mut q: usize = 0;
    while q < text.len()
        invariant
            q <= text@.len(),
            text@ == cipher@,
            valid_key(key@),
            size_x == key@.len(),
            size_y == text@.len() / key@.len(),
            full == size_x * size_y,
            full <= text@.len(),
            out@ == decode(cipher@, key@).take(q as int),
        decreases text.len() - q,
    {
        let ghost plain = decode(cipher@, key@);
        let character = if q < full {
            proof {
                lemma_split(q as int, size_x as int, size_y as int);
                assert(size_x * size_y == size_y * size_x) by (nonlinear_arith);
            }
            let x = q % size_x;
            let y = q / size_x;
            let column = key[size_x - 1 - x];
            proof {
                assert(key@[size_x - 1 - x] < key@.len());
                lemma_cell(column as int, y as int, size_y as int, size_x as int);
            }
            text[column * size_y + y]
        } else {
            text[q]
        };
        assert(character == plain[q as int]);
        out.push(character);
        assert(plain.take(q as int).push(character) =~= plain.take(q + 1));
        q = q + 1;
    }
    assert(out@ =~= decode(cipher@, key@));
    string_of(&out)
}

} // verus!
