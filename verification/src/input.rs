//! Reading numbers from a line of text.
//!
//! A line is taken as bytes. Blanks separate its words, and a word spells a
//! number if it is made of decimal digits, with or without a plus sign in
//! front, and the number fits the machine's word.

use vstd::prelude::*;
use vstd::string::StringSliceAdditionalSpecFns;
use crate::error::ColonyError;

verus! {

/// A space, a tab, a line feed, a vertical tab, a form feed or a carriage
/// return.
pub open spec fn is_blank(byte: u8) -> bool {
    byte == 32 || (9 <= byte && byte <= 13)
}

/// One of the digits `0` to `9`.
pub open spec fn is_digit(byte: u8) -> bool {
    48 <= byte && byte <= 57
}

/// The value of a digit; zero for any other byte.
pub open spec fn digit_value(byte: u8) -> nat {
    if is_digit(byte) {
        (byte - 48) as nat
    } else {
        0
    }
}

/// The number that the digits spell, read as a decimal numeral.
pub open spec fn decimal(digits: Seq<u8>) -> nat
    decreases digits.len(),
{
    if digits.len() == 0 {
        0
    } else {
        decimal(digits.drop_last()) * 10 + digit_value(digits.last())
    }
}

/// The word without the plus sign in front, if it has one.
pub open spec fn unsigned(word: Seq<u8>) -> Seq<u8> {
    if word.len() > 0 && word[0] == 43 {
        word.skip(1)
    } else {
        word
    }
}

/// The word is a decimal numeral of at least one digit, with or without a
/// plus sign in front, and its value fits a `usize`.
pub open spec fn spells_number(word: Seq<u8>) -> bool {
    &&& unsigned(word).len() > 0
    &&& forall|i: int| 0 <= i < unsigned(word).len() ==> is_digit(#[trigger] unsigned(word)[i])
    &&& decimal(unsigned(word)) <= usize::MAX
}

/// The number that a word spells.
pub open spec fn number_of(word: Seq<u8>) -> nat {
    decimal(unsigned(word))
}

/// How many bytes there are before the first blank of `text`.
pub open spec fn word_len(text: Seq<u8>) -> nat
    decreases text.len(),
{
    if text.len() == 0 || is_blank(text[0]) {
        0
    } else {
        1 + word_len(text.skip(1))
    }
}

/// The words of `text`: its longest runs of bytes that are not blank, from
/// left to right.
pub open spec fn words(text: Seq<u8>) -> Seq<Seq<u8>>
    decreases text.len(),
    via words_decreases
{
    if text.len() == 0 {
        Seq::empty()
    } else if is_blank(text[0]) {
        words(text.skip(1))
    } else {
        seq![text.take(word_len(text) as int)] + words(text.skip(word_len(text) as int))
    }
}

#[via_fn]
proof fn words_decreases(text: Seq<u8>) {
    lemma_word_len_bounds(text);
}

/// Every word of `text` spells a number.
pub open spec fn all_numbers(text: Seq<u8>) -> bool {
    forall|k: int| 0 <= k < words(text).len() ==> spells_number(#[trigger] words(text)[k])
}

/// The numbers that the words of `text` spell.
pub open spec fn numbers_of(text: Seq<u8>) -> Seq<nat> {
    Seq::new(words(text).len(), |k: int| number_of(words(text)[k]))
}

/// A word is no longer than the text it starts, and has at least one byte
/// where the text starts with a byte that is not blank.
pub proof fn lemma_word_len_bounds(text: Seq<u8>)
    ensures
        word_len(text) <= text.len(),
        text.len() > 0 && !is_blank(text[0]) ==> word_len(text) >= 1,
    decreases text.len(),
{
    if text.len() > 0 && !is_blank(text[0]) {
        lemma_word_len_bounds(text.skip(1));
    }
}

/// The digits read so far never spell more than all the digits do.
pub proof fn lemma_decimal_prefix(digits: Seq<u8>, count: int)
    requires
        0 <= count <= digits.len(),
    ensures
        decimal(digits.take(count)) <= decimal(digits),
    decreases digits.len(),
{
    if count == digits.len() {
        assert(digits.take(count) =~= digits);
    } else {
        assert(digits.drop_last().take(count) =~= digits.take(count));
        lemma_decimal_prefix(digits.drop_last(), count);
        assert(decimal(digits.drop_last()) * 10 >= decimal(digits.drop_last()));
    }
}

/// The number that the bytes `start..end` of `bytes` spell, if they spell one.
fn read_word(bytes: &[u8], start: usize, end: usize) -> (number: Option<usize>)
    requires
        start <= end <= bytes@.len(),
    ensures
        number.is_some() == spells_number(bytes@.subrange(start as int, end as int)),
        number.is_some() ==> number.unwrap() == number_of(
            bytes@.subrange(start as int, end as int),
        ),
{
    let ghost word = bytes@.subrange(start as int, end as int);
    let mut at: usize = start;
    if at < end && bytes[at] == 43 {
        at = at + 1;
    }
    let first: usize = at;
    let ghost digits = bytes@.subrange(first as int, end as int);
    assert(digits =~= unsigned(word));
    if first == end {
        return None;
    }
    let mut value: usize = 0;
    assert(digits.take(0) =~= Seq::empty());
    while at < end
        invariant
            start <= first <= at <= end <= bytes@.len(),
            digits == bytes@.subrange(first as int, end as int),
            digits == unsigned(bytes@.subrange(start as int, end as int)),
            forall|i: int| 0 <= i < at - first ==> is_digit(#[trigger] digits[i]),
            value == decimal(digits.take(at - first)),
        decreases end - at,
    {
        let byte: u8 = bytes[at];
        assert(digits[at - first] == byte);
        if byte < 48 || byte > 57 {
            return None;
        }
        proof {
            let read = digits.take(at - first + 1);
            assert(read.drop_last() =~= digits.take(at - first));
            assert(decimal(read) == value * 10 + (byte - 48));
            lemma_decimal_prefix(digits, at - first + 1);
        }
        let digit: usize = (byte - 48) as usize;
        match value.checked_mul(10) {
            None => {
                return None;
            },
            Some(tens) => match tens.checked_add(digit) {
                None => {
                    return None;
                },
                Some(sum) => {
                    value = sum;
                },
            },
        }
        at = at + 1;
    }
    assert(digits.take(at - first) =~= digits);
    Some(value)
}

/// The numbers that the words of a line spell, or `MalformedInput` if one of
/// the words spells no number.
pub fn read_numbers(line: &str) -> (numbers: Result<Vec<usize>, ColonyError>)
    ensures
        match numbers {
            Ok(found) => {
                &&& all_numbers(line.spec_bytes())
                &&& found@.len() == numbers_of(line.spec_bytes()).len()
                &&& forall|k: int|
                    0 <= k < found@.len() ==> #[trigger] found@[k] == numbers_of(
                        line.spec_bytes(),
                    )[k]
            },
            Err(error) => !all_numbers(line.spec_bytes()) && error == ColonyError::MalformedInput,
        },
{
    let bytes = line.as_bytes();
    let ghost text = bytes@;
    let mut found: Vec<usize> = Vec::new();
    let ghost mut done: Seq<Seq<u8>> = Seq::empty();
    let mut at: usize = 0;
    assert(text.skip(0) =~= text);
    while at < bytes.len()
        invariant
            at <= bytes@.len(),
            text == bytes@,
            text == line.spec_bytes(),
            words(text) == done + words(text.skip(at as int)),
            found@.len() == done.len(),
            forall|k: int| 0 <= k < done.len() ==> spells_number(#[trigger] done[k]),
            forall|k: int| 0 <= k < done.len() ==> #[trigger] found@[k] == number_of(done[k]),
        decreases bytes@.len() - at,
    {
        let ghost rest = text.skip(at as int);
        if is_blank_byte(bytes[at]) {
            assert(rest.skip(1) =~= text.skip(at + 1));
            at = at + 1;
        } else {
            let start: usize = at;
            while at < bytes.len() && !is_blank_byte(bytes[at])
                invariant
                    start <= at <= bytes@.len(),
                    text == bytes@,
                    word_len(text.skip(start as int)) == (at - start) + word_len(
                        text.skip(at as int),
                    ),
                decreases bytes@.len() - at,
            {
                assert(text.skip(at as int).skip(1) =~= text.skip(at + 1));
                at = at + 1;
            }
            let ghost word = text.subrange(start as int, at as int);
            proof {
                assert(word_len(text.skip(at as int)) == 0);
                assert(rest.take(word_len(rest) as int) =~= word);
                assert(rest.skip(word_len(rest) as int) =~= text.skip(at as int));
                assert(words(rest) == seq![word] + words(text.skip(at as int)));
                assert(words(text) =~= done.push(word) + words(text.skip(at as int)));
            }
            match read_word(bytes, start, at) {
                None => {
                    assert(words(text)[done.len() as int] == word);
                    return Err(ColonyError::MalformedInput);
                },
                Some(number) => {
                    found.push(number);
                    proof {
                        done = done.push(word);
                    }
                },
            }
        }
    }
    proof {
        assert(words(text.skip(at as int)) =~= Seq::empty());
        assert(words(text) =~= done);
    }
    Ok(found)
}

/// Whether the byte is a blank.
fn is_blank_byte(byte: u8) -> (blank: bool)
    ensures
        blank == is_blank(byte),
{
    byte == 32 || (9 <= byte && byte <= 13)
}

/// The one number on a line, or `MalformedInput` if the line does not hold
/// exactly one word, or that word spells no number.
pub fn read_number(line: &str) -> (number: Result<usize, ColonyError>)
    ensures
        match number {
            Ok(value) => {
                &&& all_numbers(line.spec_bytes())
                &&& numbers_of(line.spec_bytes()).len() == 1
                &&& value == numbers_of(line.spec_bytes())[0]
            },
            Err(error) => {
                &&& !(all_numbers(line.spec_bytes()) && numbers_of(line.spec_bytes()).len() == 1)
                &&& error == ColonyError::MalformedInput
            },
        },
{
    match read_numbers(line) {
        Ok(found) => {
            if found.len() == 1 {
                Ok(found[0])
            } else {
                Err(ColonyError::MalformedInput)
            }
        },
        Err(error) => Err(error),
    }
}

/// The first two numbers on a line, or `MalformedInput` if the line holds
/// fewer than two words, or one of its words, these two or a later one,
/// spells no number.
pub fn read_tuple(line: &str) -> (pair: Result<(usize, usize), ColonyError>)
    ensures
        match pair {
            Ok((first, second)) => {
                &&& all_numbers(line.spec_bytes())
                &&& numbers_of(line.spec_bytes()).len() >= 2
                &&& first == numbers_of(line.spec_bytes())[0]
                &&& second == numbers_of(line.spec_bytes())[1]
            },
            Err(error) => {
                &&& !(all_numbers(line.spec_bytes()) && numbers_of(line.spec_bytes()).len() >= 2)
                &&& error == ColonyError::MalformedInput
            },
        },
{
    match read_numbers(line) {
        Ok(found) => {
            if found.len() >= 2 {
                Ok((found[0], found[1]))
            } else {
                Err(ColonyError::MalformedInput)
            }
        },
        Err(error) => Err(error),
    }
}

} // verus!
