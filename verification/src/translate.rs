//! The search: every way to spell a digit string in words and single digits.

use crate::dictionary::{strings_view, Dictionary};
use crate::keypad::{
    digits_of, is_digit_string, is_digit_token, is_empty_or_last_elt_is_not_single_digit,
    only_digits,
};
use crate::laws::{
    is_translation, no_adjacent_digits, spelled, translations_are_exactly_the_valid_ones,
    translations_have_no_adjacent_digits, translations_spell_the_digits,
};
use vstd::prelude::*;
use vstd::string::*;

verus! {

/// Some dictionary word could start at position `start` of `digits`.
pub open spec fn word_starts_at(
    index: Map<Seq<char>, Seq<Seq<char>>>,
    digits: Seq<char>,
    start: int,
) -> bool {
    exists|end: int|
        start < end <= digits.len() && index.contains_key(#[trigger] digits.subrange(start, end))
}

/// The token list `tokens` is open to a single digit: its last token, if it
/// has one, is not itself a single digit.
pub open spec fn takes_digit(tokens: Seq<Seq<char>>) -> bool {
    tokens.len() == 0 || !is_digit_token(tokens.last())
}

/// The translations that begin with `tokens` and go on from position `start`,
/// in the order in which they are found: words first, by the end of the span
/// they cover and then by their place in the dictionary; the single digit
/// only where no word starts and `tokens` is open to one.
pub open spec fn search(
    index: Map<Seq<char>, Seq<Seq<char>>>,
    digits: Seq<char>,
    start: int,
    tokens: Seq<Seq<char>>,
) -> Seq<Seq<Seq<char>>>
    decreases digits.len() - start, 2int, 0int,
{
    if start >= digits.len() {
        seq![tokens]
    } else {
        let by_words = search_ends(index, digits, start, start + 1, tokens);
        if !word_starts_at(index, digits, start) && takes_digit(tokens) {
            by_words + search(
                index,
                digits,
                start + 1,
                tokens.push(digits.subrange(start, start + 1)),
            )
        } else {
            by_words
        }
    }
}

/// The part of `search` that goes through a word covering `start..e`, for
/// every `e` from `end` on.
pub open spec fn search_ends(
    index: Map<Seq<char>, Seq<Seq<char>>>,
    digits: Seq<char>,
    start: int,
    end: int,
    tokens: Seq<Seq<char>>,
) -> Seq<Seq<Seq<char>>>
    decreases digits.len() - start, 1int, digits.len() - end + 1,
{
    if start < end <= digits.len() {
        let here = if index.contains_key(digits.subrange(start, end)) {
            search_words(index, digits, start, end, 0, tokens)
        } else {
            Seq::empty()
        };
        here + search_ends(index, digits, start, end + 1, tokens)
    } else {
        Seq::empty()
    }
}

/// The part of `search` that goes through one of the words under
/// `digits[start..end]`, from the word at place `from` on.
pub open spec fn search_words(
    index: Map<Seq<char>, Seq<Seq<char>>>,
    digits: Seq<char>,
    start: int,
    end: int,
    from: int,
    tokens: Seq<Seq<char>>,
) -> Seq<Seq<Seq<char>>>
    decreases digits.len() - start, 0int, index[digits.subrange(start, end)].len() - from,
{
    let words = index[digits.subrange(start, end)];
    if start < end <= digits.len() && 0 <= from < words.len() {
        search(index, digits, end, tokens.push(words[from])) + search_words(
            index,
            digits,
            start,
            end,
            from + 1,
            tokens,
        )
    } else {
        Seq::empty()
    }
}

/// All translations of the digit string `digits`, in the order of the search.
pub open spec fn translations(
    index: Map<Seq<char>, Seq<Seq<char>>>,
    digits: Seq<char>,
) -> Seq<Seq<Seq<char>>> {
    search(index, digits, 0, Seq::empty())
}

/// The characters of each token of each translation of `found`.
pub open spec fn translations_view(found: Seq<Vec<String>>) -> Seq<Seq<Seq<char>>> {
    found.map_values(|tokens: Vec<String>| strings_view(tokens@))
}

/// A copy of a token list.
fn copy_tokens(tokens: &Vec<String>) -> (copy: Vec<String>)
    ensures
        strings_view(copy@) == strings_view(tokens@),
{
    let mut copy: Vec<String> = Vec::new();
    let mut i: usize = 0;
    while i < tokens.len()
        invariant
            i <= tokens@.len(),
            copy@.len() == i,
            forall|k: int| 0 <= k < i ==> copy@[k]@ == tokens@[k]@,
        decreases tokens@.len() - i,
    {
        copy.push(tokens[i].clone());
        i += 1;
    }
    assert(strings_view(copy@) =~= strings_view(tokens@));
    copy
}

/// Adds to `found` every translation that begins with `word_list` and goes
/// on from position `start`, and leaves `word_list` as it was.
fn extend(
    found: &mut Vec<Vec<String>>,
    word_list: &mut Vec<String>,
    start: usize,
    digits: &str,
    len: usize,
    dict: &Dictionary,
)
    requires
        dict.wf(),
        is_digit_string(digits@),
        len == digits@.len(),
        start <= len,
    ensures
        final(word_list)@ == old(word_list)@,
        translations_view(final(found)@) == translations_view(old(found)@) + search(
            dict@,
            digits@,
            start as int,
            strings_view(old(word_list)@),
        ),
    decreases len - start,
{
    let ghost found_before = translations_view(found@);
    let ghost tokens = strings_view(word_list@);
    let ghost list_before = word_list@;
    if start >= len {
        let copy = copy_tokens(word_list);
        found.push(copy);
        assert(translations_view(found@) =~= found_before + seq![tokens]);
        return ;
    }
    let mut found_word = false;
    let mut end: usize = start;
    while end < len
        invariant
            dict.wf(),
            is_digit_string(digits@),
            len == digits@.len(),
            start <= end <= len,
            word_list@ == list_before,
            tokens == strings_view(list_before),
            found_word <==> exists|e: int|
                start < e <= end && dict@.contains_key(
                    #[trigger] digits@.subrange(start as int, e),
                ),
            translations_view(found@) + search_ends(dict@, digits@, start as int, end + 1, tokens)
                == found_before + search_ends(dict@, digits@, start as int, start + 1, tokens),
        decreases len - end,
    {
        end += 1;
        let ghost found_here = translations_view(found@);
        let ghost rest = search_ends(dict@, digits@, start as int, end + 1, tokens);
        let key = digits.substring_ascii(start, end);
        match dict.get(key) {
            Some(words) => {
                found_word = true;
                let mut j: usize = 0;
                while j < words.len()
                    invariant
                        dict.wf(),
                        is_digit_string(digits@),
                        len == digits@.len(),
                        start < end <= len,
                        j <= words@.len(),
                        word_list@ == list_before,
                        tokens == strings_view(list_before),
                        dict@.contains_key(digits@.subrange(start as int, end as int)),
                        strings_view(words@) == dict@[digits@.subrange(start as int, end as int)],
                        translations_view(found@) + search_words(
                            dict@,
                            digits@,
                            start as int,
                            end as int,
                            j as int,
                            tokens,
                        ) == found_here + search_words(
                            dict@,
                            digits@,
                            start as int,
                            end as int,
                            0,
                            tokens,
                        ),
                    decreases words@.len() - j,
                {
                    let ghost found_now = translations_view(found@);
                    let ghost later = search_words(
                        dict@,
                        digits@,
                        start as int,
                        end as int,
                        j + 1,
                        tokens,
                    );
                    word_list.push(words[j].clone());
                    proof {
                        assert(strings_view(word_list@) =~= tokens.push(
                            strings_view(words@)[j as int],
                        ));
                    }
                    extend(found, word_list, end, digits, len, dict);
                    word_list.pop();
                    proof {
                        assert(word_list@ =~= list_before);
                        let step = search(
                            dict@,
                            digits@,
                            end as int,
                            tokens.push(strings_view(words@)[j as int]),
                        );
                        assert((found_now + step) + later =~= found_now + (step + later));
                    }
                    j += 1;
                }
                proof {
                    let here = search_words(dict@, digits@, start as int, end as int, 0, tokens);
                    assert((found_here + here) + rest =~= found_here + (here + rest));
                }
            },
            None => {
                proof {
                    assert(Seq::<Seq<Seq<char>>>::empty() + rest =~= rest);
                }
            },
        }
    }
    proof {
        assert(found_word <==> word_starts_at(dict@, digits@, start as int));
    }
    if !found_word && is_empty_or_last_elt_is_not_single_digit(word_list.as_slice()) {
        let single_digit = digits.substring_ascii(start, start + 1);
        word_list.push(single_digit.to_owned());
        proof {
            assert(strings_view(word_list@) =~= tokens.push(
                digits@.subrange(start as int, start + 1),
            ));
            assert(takes_digit(tokens)) by {
                if list_before.len() > 0 {
                    assert(tokens.last() == list_before.last()@);
                }
            }
        }
        extend(found, word_list, start + 1, digits, len, dict);
        word_list.pop();
        proof {
            assert(word_list@ =~= list_before);
        }
    } else {
        proof {
            assert(!takes_digit(tokens) || word_starts_at(dict@, digits@, start as int)) by {
                if list_before.len() > 0 {
                    assert(tokens.last() == list_before.last()@);
                }
            }
        }
    }
}

/// All translations of `phone_number`: of its digits, whatever stands between
/// them. They come in the order of the search; each spells the digits, none
/// has two single digits in a row, and no list of tokens that covers the
/// digits by the rules is left out.
pub fn translate(phone_number: &str, dict: &Dictionary) -> (found: Vec<Vec<String>>)
    requires
        dict.wf(),
    ensures
        translations_view(found@) == translations(dict@, digits_of(phone_number@)),
        forall|k: int|
            0 <= k < found@.len() ==> {
                &&& spelled(#[trigger] translations_view(found@)[k]) == digits_of(phone_number@)
                &&& no_adjacent_digits(translations_view(found@)[k])
            },
        forall|tokens: Seq<Seq<char>>| #[trigger]
            translations_view(found@).contains(tokens) <==> is_translation(
                dict@,
                digits_of(phone_number@),
                tokens,
            ),
{
    let digits = only_digits(phone_number);
    let len: usize = digits.as_str().unicode_len();
    let mut found: Vec<Vec<String>> = Vec::new();
    let mut word_list: Vec<String> = Vec::new();
    extend(&mut found, &mut word_list, 0, digits.as_str(), len, dict);
    proof {
        assert(strings_view(Seq::<String>::empty()) =~= Seq::<Seq<char>>::empty());
        assert(Seq::<Seq<Seq<char>>>::empty() + translations(dict@, digits@) =~= translations(
            dict@,
            digits@,
        ));
        dict.lemma_view_wf();
        assert forall|k: int| 0 <= k < found@.len() implies {
            &&& spelled(#[trigger] translations_view(found@)[k]) == digits@
            &&& no_adjacent_digits(translations_view(found@)[k])
        } by {
            translations_spell_the_digits(dict@, digits@, k);
            translations_have_no_adjacent_digits(dict@, digits@, k);
        }
        assert forall|tokens: Seq<Seq<char>>| #[trigger]
            translations_view(found@).contains(tokens) <==> is_translation(
                dict@,
                digits@,
                tokens,
            ) by {
            translations_are_exactly_the_valid_ones(dict@, digits@, tokens);
        }
    }
    found
}

/// The tokens of one translation in a row, a space before each.
pub open spec fn joined(tokens: Seq<Seq<char>>) -> Seq<char>
    decreases tokens.len(),
{
    if tokens.len() == 0 {
        Seq::empty()
    } else {
        joined(tokens.drop_last()).push(' ') + tokens.last()
    }
}

/// The line that reports one translation: the phone number as it was given,
/// a colon, and the tokens, a space before each.
pub open spec fn line_of(phone_number: Seq<char>, tokens: Seq<Seq<char>>) -> Seq<char> {
    phone_number.push(':') + joined(tokens)
}

/// The line that reports the translation `tokens` of `phone_number`, e.g.
/// `908-882-8283: hello world`.
pub fn translation_line(phone_number: &str, tokens: &Vec<String>) -> (line: String)
    ensures
        line@ == line_of(phone_number@, strings_view(tokens@)),
{
    let mut line: String = phone_number.to_owned();
    line.push(':');
    let mut i: usize = 0;
    assert(line@ =~= line_of(phone_number@, strings_view(tokens@.take(0))));
    while i < tokens.len()
        invariant
            i <= tokens@.len(),
            line@ == line_of(phone_number@, strings_view(tokens@.take(i as int))),
        decreases tokens@.len() - i,
    {
        proof {
            let upto = strings_view(tokens@.take(i + 1));
            assert(upto.drop_last() =~= strings_view(tokens@.take(i as int)));
            assert(upto.last() == tokens@[i as int]@);
            let head = phone_number@.push(':');
            let row = joined(upto.drop_last());
            assert((head + row).push(' ') + upto.last() =~= head + (row.push(' ') + upto.last()));
        }
        line.push(' ');
        line.append(tokens[i].as_str());
        i += 1;
    }
    proof {
        assert(tokens@.take(tokens@.len() as int) == tokens@);
    }
    line
}

/// The lines that report the translations of `phone_number`, in the order of
/// the search.
pub fn translation_lines(phone_number: &str, dict: &Dictionary) -> (lines: Vec<String>)
    requires
        dict.wf(),
    ensures
        lines@.len() == translations(dict@, digits_of(phone_number@)).len(),
        forall|k: int|
            0 <= k < lines@.len() ==> (#[trigger] lines@[k])@ == line_of(
                phone_number@,
                translations(dict@, digits_of(phone_number@))[k],
            ),
{
    let found = translate(phone_number, dict);
    let mut lines: Vec<String> = Vec::new();
    let mut i: usize = 0;
    while i < found.len()
        invariant
            i <= found@.len(),
            lines@.len() == i,
            translations_view(found@) == translations(dict@, digits_of(phone_number@)),
            forall|k: int|
                0 <= k < i ==> (#[trigger] lines@[k])@ == line_of(
                    phone_number@,
                    translations(dict@, digits_of(phone_number@))[k],
                ),
        decreases found@.len() - i,
    {
        proof {
            assert(translations_view(found@)[i as int] == strings_view(found@[i as int]@));
        }
        lines.push(translation_line(phone_number, &found[i]));
        i += 1;
    }
    proof {
        assert(translations_view(found@).len() == found@.len());
    }
    lines
}

} // verus!
