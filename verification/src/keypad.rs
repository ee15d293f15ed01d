//! The fixed assignment of letters to digits, and what it makes of a string.

use vstd::prelude::*;
use vstd::string::*;

verus! {

/// `c` is one of the ten decimal digit characters.
pub open spec fn is_digit(c: char) -> bool {
    '0' <= c && c <= '9'
}

/// Every character of `s` is a decimal digit.
pub open spec fn is_digit_string(s: Seq<char>) -> bool {
    forall|i: int| 0 <= i < s.len() ==> is_digit(#[trigger] s[i])
}

/// The digit that stands for the letter `c`, in either case; `None` for any
/// other character.
///
/// ```text
/// E | J N Q | R W X | D S Y | F T | A M | C I V | B K U | L O P | G H Z
/// 0 |   1   |   2   |   3   |  4  |  5  |   6   |   7   |   8   |   9
/// ```
pub open spec fn letter_digit(c: char) -> Option<char> {
    match c {
        'e' | 'E' => Some('0'),
        'j' | 'n' | 'q' | 'J' | 'N' | 'Q' => Some('1'),
        'r' | 'w' | 'x' | 'R' | 'W' | 'X' => Some('2'),
        'd' | 's' | 'y' | 'D' | 'S' | 'Y' => Some('3'),
        'f' | 't' | 'F' | 'T' => Some('4'),
        'a' | 'm' | 'A' | 'M' => Some('5'),
        'c' | 'i' | 'v' | 'C' | 'I' | 'V' => Some('6'),
        'b' | 'k' | 'u' | 'B' | 'K' | 'U' => Some('7'),
        'l' | 'o' | 'p' | 'L' | 'O' | 'P' => Some('8'),
        'g' | 'h' | 'z' | 'G' | 'H' | 'Z' => Some('9'),
        _ => None,
    }
}

/// `c` is an ASCII letter, of either case.
pub open spec fn is_letter(c: char) -> bool {
    ('a' <= c && c <= 'z') || ('A' <= c && c <= 'Z')
}

/// The digit signature of `word`: the digit of each of its letters, in order,
/// with every other character left out.
pub open spec fn signature(word: Seq<char>) -> Seq<char>
    decreases word.len(),
{
    if word.len() == 0 {
        Seq::empty()
    } else {
        let front = signature(word.drop_last());
        match letter_digit(word.last()) {
            Some(d) => front.push(d),
            None => front,
        }
    }
}

/// The decimal digits of `s`, in order, with every other character left out.
pub open spec fn digits_of(s: Seq<char>) -> Seq<char> {
    s.filter(|c: char| is_digit(c))
}

/// Looks up the digit of one letter.
pub fn digit_for_letter(c: char) -> (r: Option<char>)
    ensures
        r == letter_digit(c),
{
    match c {
        'e' | 'E' => Some('0'),
        'j' | 'n' | 'q' | 'J' | 'N' | 'Q' => Some('1'),
        'r' | 'w' | 'x' | 'R' | 'W' | 'X' => Some('2'),
        'd' | 's' | 'y' | 'D' | 'S' | 'Y' => Some('3'),
        'f' | 't' | 'F' | 'T' => Some('4'),
        'a' | 'm' | 'A' | 'M' => Some('5'),
        'c' | 'i' | 'v' | 'C' | 'I' | 'V' => Some('6'),
        'b' | 'k' | 'u' | 'B' | 'K' | 'U' => Some('7'),
        'l' | 'o' | 'p' | 'L' | 'O' | 'P' => Some('8'),
        'g' | 'h' | 'z' | 'G' | 'H' | 'Z' => Some('9'),
        _ => None,
    }
}

/// `String::push` of the standard library: the string afterwards is the
/// string before with `c` added at its end.
pub assume_specification[ String::push ](s: &mut String, c: char)
    ensures
        final(s)@ == old(s)@.push(c),
;

/// The digit signature of `word`, e.g. `helloworld` gives `9088828283`.
pub fn word_to_num(word: &str) -> (num: String)
    ensures
        num@ == signature(word@),
{
    let mut num = String::new();
    for c in it: word.chars()
        invariant
            it.seq() == word@,
            num@ == signature(word@.take(it.index() as int)),
    {
        proof {
            assert(word@.take(it.index() + 1).drop_last() == word@.take(it.index() as int));
        }
        match digit_for_letter(c) {
            Some(d) => {
                num.push(d);
            },
            None => {},
        }
    }
    proof {
        assert(word@.take(word@.len() as int) == word@);
    }
    num
}

/// The decimal digits of `word`, e.g. `908-882/8283` gives `9088828283`.
pub fn only_digits(word: &str) -> (digits: String)
    ensures
        digits@ == digits_of(word@),
        is_digit_string(digits@),
{
    let mut digits = String::new();
    for c in it: word.chars()
        invariant
            it.seq() == word@,
            digits@ == digits_of(word@.take(it.index() as int)),
            is_digit_string(digits@),
    {
        proof {
            reveal(Seq::filter);
            assert(word@.take(it.index() + 1).drop_last() == word@.take(it.index() as int));
        }
        if '0' <= c && c <= '9' {
            digits.push(c);
        }
    }
    proof {
        assert(word@.take(word@.len() as int) == word@);
    }
    digits
}

/// A token that is one digit character, standing for itself.
pub open spec fn is_digit_token(token: Seq<char>) -> bool {
    token.len() == 1 && is_digit(token[0])
}

/// A list of tokens is open to a single digit: it is empty, or its last token
/// is not itself a single digit.
pub fn is_empty_or_last_elt_is_not_single_digit(v: &[String]) -> (open: bool)
    ensures
        open == (v@.len() == 0 || !is_digit_token(v@.last()@)),
{
    let n: usize = v.len();
    if n == 0 {
        true
    } else {
        let last = v[n - 1].as_str();
        if last.unicode_len() != 1 {
            true
        } else {
            let c = last.get_char(0);
            !('0' <= c && c <= '9')
        }
    }
}

} // verus!
