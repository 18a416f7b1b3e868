//! Lists of numbers with dashes between them, the way keys and stage sizes
//! are written: `2-0-1`.
//!
//! A number is a run of decimal digits, which a `+` may precede.

use crate::text::{chars_of, piece_views, pieces, split};
use vstd::prelude::*;

verus! {

/// Why a text is no list of numbers.
#[derive(Clone, Copy, Debug, PartialEq, Eq, Structural)]
pub enum InputError {
    /// A part between two dashes is not a number.
    NotANumber,
    /// A number does not fit the machine integer.
    TooLarge,
}

/// Whether the character is one of `0` to `9`.
pub open spec fn is_digit(c: char) -> bool {
    48 <= c as u32 <= 57
}

/// The value of a digit.
pub open spec fn digit_value(c: char) -> nat {
    (c as u32 - 48) as nat
}

/// The value of a run of digits.
pub open spec fn decimal(digits: Seq<char>) -> nat
    decreases digits.len(),
{
    if digits.len() == 0 {
        0
    } else {
        decimal(digits.drop_last()) * 10 + digit_value(digits.last())
    }
}

/// The part of a token after its sign, if it has one.
pub open spec fn digits_of(token: Seq<char>) -> Seq<char> {
    if token.len() > 0 && token[0] == '+' {
        token.skip(1)
    } else {
        token
    }
}

/// Whether a token is a number: at least one digit, and nothing but digits,
/// after the sign.
pub open spec fn is_number(token: Seq<char>) -> bool {
    &&& digits_of(token).len() > 0
    &&& forall|i: int| 0 <= i < digits_of(token).len() ==> is_digit(#[trigger] digits_of(token)[i])
}

/// The number that a token stands for.
pub open spec fn token_value(token: Seq<char>) -> Result<usize, InputError> {
    if !is_number(token) {
        Err(InputError::NotANumber)
    } else if decimal(digits_of(token)) > usize::MAX {
        Err(InputError::TooLarge)
    } else {
        Ok(decimal(digits_of(token)) as usize)
    }
}

/// The parts of a text between its dashes. A text without a dash is one part,
/// and so is the empty text.
pub open spec fn tokens(text: Seq<char>) -> Seq<Seq<char>> {
    pieces(text, seq!['-'])
}

/// The numbers that the tokens stand for, or what is wrong with the first
/// token that stands for none.
pub open spec fn values(tokens: Seq<Seq<char>>) -> Result<Seq<usize>, InputError>
    decreases tokens.len(),
{
    if tokens.len() == 0 {
        Ok(Seq::empty())
    } else {
        match values(tokens.drop_last()) {
            Err(error) => Err(error),
            Ok(front) => match token_value(tokens.last()) {
                Err(error) => Err(error),
                Ok(value) => Ok(front.push(value)),
            },
        }
    }
}

/// The value of the first digits of a run is at most the value of the run.
proof fn lemma_decimal_prefix(digits: Seq<char>, i: int)
    requires
        0 <= i <= digits.len(),
    ensures
        decimal(digits.take(i)) <= decimal(digits),
    decreases digits.len() - i,
{
    if i == digits.len() {
        assert(digits.take(i) =~= digits);
    } else {
        lemma_decimal_prefix(digits, i + 1);
        assert(digits.take(i + 1).drop_last() =~= digits.take(i));
    }
}

/// The number that `token` stands for.
pub fn parse_number(token: &Vec<char>) -> (number: Result<usize, InputError>)
    ensures
        number == token_value(token@),
{
    let start: usize = if token.len() > 0 && token[0] == '+' {
        1
    } else {
        0
    };
    let ghost digits = digits_of(token@);
    assert(digits =~= token@.skip(start as int));
    if start == token.len() {
        return Err(InputError::NotANumber);
    }
    let mut k: usize = start;
    while k < token.len()
        invariant
            start <= k <= token@.len(),
            digits == token@.skip(start as int),
            digits == digits_of(token@),
            forall|t: int| 0 <= t < k - start ==> is_digit(#[trigger] digits[t]),
        decreases token.len() - k,
    {
        let code = token[k] as u32;
        if code < 48 || code > 57 {
            assert(!is_digit(digits[k - start]));
            return Err(InputError::NotANumber);
        }
        k = k + 1;
    }
    let mut value: usize = 0;
    let mut i: usize = start;
    assert(digits.take(0) =~= Seq::<char>::empty());
    while i < token.len()
        invariant
            start <= i <= token@.len(),
            digits == token@.skip(start as int),
            is_number(token@),
            digits == digits_of(token@),
            value == decimal(digits.take(i - start)),
        decreases token.len() - i,
    {
        let code = token[i] as u32;
        proof {
            assert(digits.take(i - start + 1).drop_last() =~= digits.take(i - start));
            assert(digits.take(i - start + 1).last() == token@[i as int]);
            assert(is_digit(digits[i - start]));
            lemma_decimal_prefix(digits, i - start + 1);
        }
        let digit = (code - 48) as usize;
        let tenfold = match value.checked_mul(10) {
            Some(tenfold) => tenfold,
            None => {
                return Err(InputError::TooLarge);
            },
        };
        value = match tenfold.checked_add(digit) {
            Some(next) => next,
            None => {
                return Err(InputError::TooLarge);
            },
        };
        i = i + 1;
    }
    assert(digits.take(i - start) =~= digits);
    Ok(value)
}

/// The numbers of a list written with dashes, or what is wrong with the
/// first part that is no number.
pub fn parse_list(text: &String) -> (list: Result<Vec<usize>, InputError>)
    ensures
        list matches Ok(numbers) ==> values(tokens(text@)) == Ok::<Seq<usize>, InputError>(
            numbers@,
        ),
        list matches Err(error) ==> values(tokens(text@)) == Err::<Seq<usize>, InputError>(error),
{
    let letters = chars_of(text.as_str());
    let dash: Vec<char> = vec!['-'];
    assert(dash@ =~= seq!['-']);
    let pieces = split(&letters, &dash);
    let ghost parts = tokens(text@);
    let mut numbers: Vec<usize> = Vec::new();
    let mut i: usize = 0;
    assert(parts.take(0) =~= Seq::<Seq<char>>::empty());
    while i < pieces.len()
        invariant
            i <= pieces@.len(),
            parts == tokens(text@),
            parts == piece_views(pieces@),
            values(parts.take(i as int)) == Ok::<Seq<usize>, InputError>(numbers@),
        decreases pieces.len() - i,
    {
        proof {
            assert(parts.take(i + 1).drop_last() =~= parts.take(i as int));
            assert(parts.take(i + 1).last() == pieces@[i as int]@);
        }
        match parse_number(&pieces[i]) {
            Ok(number) => {
                numbers.push(number);
            },
            Err(error) => {
                proof {
                    lemma_first_error_stays(parts, i + 1, error);
                }
                return Err(error);
            },
        }
        i = i + 1;
    }
    assert(parts.take(i as int) =~= parts);
    Ok(numbers)
}

/// Once the first tokens of a list stand for no numbers, the list stands for
/// none, for the same reason.
proof fn lemma_first_error_stays(parts: Seq<Seq<char>>, i: int, error: InputError)
    requires
        0 <= i <= parts.len(),
        values(parts.take(i)) == Err::<Seq<usize>, InputError>(error),
    ensures
        values(parts) == Err::<Seq<usize>, InputError>(error),
    decreases parts.len() - i,
{
    if i == parts.len() {
        assert(parts.take(i) =~= parts);
    } else {
        assert(parts.take(i + 1).drop_last() =~= parts.take(i));
        lemma_first_error_stays(parts, i + 1, error);
    }
}

} // verus!
