//! What holds of every translation, proved of the search as it is defined.

use crate::dictionary::{index_insert, index_of, index_wf};
use crate::keypad::{
    is_digit, is_digit_string, is_digit_token, is_letter, letter_digit, signature,
};
use crate::translate::{
    search, search_ends, search_words, takes_digit, translations, word_starts_at,
};
use vstd::prelude::*;

verus! {

/// The digits that a token stands for: a digit for itself, a word for its
/// signature.
pub open spec fn token_digits(token: Seq<char>) -> Seq<char> {
    if is_digit_token(token) {
        token
    } else {
        signature(token)
    }
}

/// The digits that a list of tokens stands for, one token after the other.
pub open spec fn spelled(tokens: Seq<Seq<char>>) -> Seq<char>
    decreases tokens.len(),
{
    if tokens.len() == 0 {
        Seq::empty()
    } else {
        token_digits(tokens.first()) + spelled(tokens.drop_first())
    }
}

/// No digit token of `tokens` is followed by another.
pub open spec fn no_adjacent_digits(tokens: Seq<Seq<char>>) -> bool {
    forall|i: int|
        0 <= i < tokens.len() - 1 ==> !(is_digit_token(#[trigger] tokens[i]) && is_digit_token(
            tokens[i + 1],
        ))
}

/// `tokens` covers `digits` from position `start` to the end by the rules of
/// the search. Each token covers as many digits as it stands for. A token
/// that is a single digit is the digit at its position, and is taken only
/// where no word starts and the token before is not itself a single digit
/// (`open` says so for the first token). Any other token is a dictionary word
/// under the digits that it covers.
pub open spec fn is_translation_from(
    index: Map<Seq<char>, Seq<Seq<char>>>,
    digits: Seq<char>,
    start: int,
    open: bool,
    tokens: Seq<Seq<char>>,
) -> bool
    decreases tokens.len(),
{
    if tokens.len() == 0 {
        start >= digits.len()
    } else {
        let token = tokens.first();
        let end = start + token_digits(token).len();
        let covered = digits.subrange(start, end);
        &&& start < end <= digits.len()
        &&& if is_digit_token(token) {
            open && !word_starts_at(index, digits, start) && token == covered
        } else {
            index.contains_key(covered) && index[covered].contains(token)
        }
        &&& is_translation_from(index, digits, end, !is_digit_token(token), tokens.drop_first())
    }
}

/// `tokens` is a translation of `digits` by the rules of the search.
pub open spec fn is_translation(
    index: Map<Seq<char>, Seq<Seq<char>>>,
    digits: Seq<char>,
    tokens: Seq<Seq<char>>,
) -> bool {
    is_translation_from(index, digits, 0, true, tokens)
}

/// `found` begins with `tokens` and goes on from `start` as a translation.
spec fn continues(
    index: Map<Seq<char>, Seq<Seq<char>>>,
    digits: Seq<char>,
    start: int,
    tokens: Seq<Seq<char>>,
    found: Seq<Seq<char>>,
) -> bool {
    &&& tokens.len() <= found.len()
    &&& found.subrange(0, tokens.len() as int) == tokens
    &&& is_translation_from(
        index,
        digits,
        start,
        takes_digit(tokens),
        found.subrange(tokens.len() as int, found.len() as int),
    )
}

proof fn lemma_step(
    index: Map<Seq<char>, Seq<Seq<char>>>,
    digits: Seq<char>,
    start: int,
    next: int,
    tokens: Seq<Seq<char>>,
    token: Seq<char>,
    found: Seq<Seq<char>>,
)
    requires
        index_wf(index),
        is_digit_string(digits),
        0 <= start < next <= digits.len(),
        continues(index, digits, next, tokens.push(token), found),
        ({
            ||| index.contains_key(digits.subrange(start, next)) && index[digits.subrange(
                start,
                next,
            )].contains(token)
            ||| next == start + 1 && takes_digit(tokens) && !word_starts_at(index, digits, start)
                && token == digits.subrange(start, start + 1)
        }),
    ensures
        continues(index, digits, start, tokens, found),
{
    let p = tokens.len() as int;
    let longer = tokens.push(token);
    let suffix = found.subrange(p, found.len() as int);
    assert(found.subrange(0, p) =~= tokens) by {
        assert forall|i: int| 0 <= i < p implies found.subrange(0, p)[i] == tokens[i] by {
            assert(found.subrange(0, p + 1)[i] == longer[i]);
        }
    }
    assert(suffix.first() == token) by {
        assert(found.subrange(0, p + 1)[p] == longer[p]);
    }
    assert(suffix.drop_first() =~= found.subrange(p + 1, found.len() as int));
    assert(longer.last() == token);
    lemma_token_covers(index, digits, start, next, token);
}

/// A word under the digits from `start` to `next` stands for these digits and
/// is no digit token; the digit at `start` is a digit token and stands for
/// itself.
proof fn lemma_token_covers(
    index: Map<Seq<char>, Seq<Seq<char>>>,
    digits: Seq<char>,
    start: int,
    next: int,
    token: Seq<char>,
)
    requires
        index_wf(index),
        is_digit_string(digits),
        0 <= start < next <= digits.len(),
    ensures
        index.contains_key(digits.subrange(start, next)) && index[digits.subrange(
            start,
            next,
        )].contains(token) ==> !is_digit_token(token) && token_digits(token) == digits.subrange(
            start,
            next,
        ),
        next == start + 1 && token == digits.subrange(start, next) ==> is_digit_token(token),
{
    let key = digits.subrange(start, next);
    if index.contains_key(key) && index[key].contains(token) {
        let place = choose|i: int| 0 <= i < index[key].len() && index[key][i] == token;
        assert(signature(index[key][place]) == key);
        lemma_word_is_no_digit(token);
    }
    if next == start + 1 && token == key {
        assert(token[0] == digits[start]);
    }
}

proof fn lemma_search_sound(
    index: Map<Seq<char>, Seq<Seq<char>>>,
    digits: Seq<char>,
    start: int,
    tokens: Seq<Seq<char>>,
)
    requires
        index_wf(index),
        is_digit_string(digits),
        0 <= start <= digits.len(),
    ensures
        forall|k: int|
            0 <= k < search(index, digits, start, tokens).len() ==> continues(
                index,
                digits,
                start,
                tokens,
                #[trigger] search(index, digits, start, tokens)[k],
            ),
    decreases digits.len() - start, 2int, 0int,
{
    if start >= digits.len() {
        assert(tokens.subrange(0, tokens.len() as int) =~= tokens);
        assert(tokens.subrange(tokens.len() as int, tokens.len() as int).len() == 0);
    } else {
        let by_words = search_ends(index, digits, start, start + 1, tokens);
        lemma_ends_sound(index, digits, start, start + 1, tokens);
        if !word_starts_at(index, digits, start) && takes_digit(tokens) {
            let digit = digits.subrange(start, start + 1);
            let by_digit = search(index, digits, start + 1, tokens.push(digit));
            lemma_search_sound(index, digits, start + 1, tokens.push(digit));
            assert forall|k: int| 0 <= k < (by_words + by_digit).len() implies continues(
                index,
                digits,
                start,
                tokens,
                #[trigger] (by_words + by_digit)[k],
            ) by {
                if k >= by_words.len() {
                    let found = by_digit[k - by_words.len()];
                    lemma_step(index, digits, start, start + 1, tokens, digit, found);
                }
            }
        }
    }
}

proof fn lemma_ends_sound(
    index: Map<Seq<char>, Seq<Seq<char>>>,
    digits: Seq<char>,
    start: int,
    end: int,
    tokens: Seq<Seq<char>>,
)
    requires
        index_wf(index),
        is_digit_string(digits),
        0 <= start < end,
        start < digits.len(),
    ensures
        forall|k: int|
            0 <= k < search_ends(index, digits, start, end, tokens).len() ==> continues(
                index,
                digits,
                start,
                tokens,
                #[trigger] search_ends(index, digits, start, end, tokens)[k],
            ),
    decreases digits.len() - start, 1int, digits.len() - end + 1,
{
    if end <= digits.len() {
        let here = if index.contains_key(digits.subrange(start, end)) {
            search_words(index, digits, start, end, 0, tokens)
        } else {
            Seq::empty()
        };
        let later = search_ends(index, digits, start, end + 1, tokens);
        if index.contains_key(digits.subrange(start, end)) {
            lemma_words_sound(index, digits, start, end, 0, tokens);
        }
        lemma_ends_sound(index, digits, start, end + 1, tokens);
        assert forall|k: int| 0 <= k < (here + later).len() implies continues(
            index,
            digits,
            start,
            tokens,
            #[trigger] (here + later)[k],
        ) by {
            if k >= here.len() {
                assert((here + later)[k] == later[k - here.len()]);
            } else {
                assert((here + later)[k] == here[k]);
            }
        }
    }
}

proof fn lemma_words_sound(
    index: Map<Seq<char>, Seq<Seq<char>>>,
    digits: Seq<char>,
    start: int,
    end: int,
    from: int,
    tokens: Seq<Seq<char>>,
)
    requires
        index_wf(index),
        is_digit_string(digits),
        0 <= start < end <= digits.len(),
        index.contains_key(digits.subrange(start, end)),
        0 <= from,
    ensures
        forall|k: int|
            0 <= k < search_words(index, digits, start, end, from, tokens).len() ==> continues(
                index,
                digits,
                start,
                tokens,
                #[trigger] search_words(index, digits, start, end, from, tokens)[k],
            ),
    decreases digits.len() - start, 0int, index[digits.subrange(start, end)].len() - from,
{
    let words = index[digits.subrange(start, end)];
    if from < words.len() {
        let word = words[from];
        let here = search(index, digits, end, tokens.push(word));
        let later = search_words(index, digits, start, end, from + 1, tokens);
        lemma_search_sound(index, digits, end, tokens.push(word));
        lemma_words_sound(index, digits, start, end, from + 1, tokens);
        assert(words.contains(word));
        assert forall|k: int| 0 <= k < (here + later).len() implies continues(
            index,
            digits,
            start,
            tokens,
            #[trigger] (here + later)[k],
        ) by {
            if k >= here.len() {
                assert((here + later)[k] == later[k - here.len()]);
            } else {
                lemma_step(index, digits, start, end, tokens, word, here[k]);
            }
        }
    }
}

proof fn lemma_in_left<A>(a: Seq<A>, b: Seq<A>, x: A)
    requires
        a.contains(x),
    ensures
        (a + b).contains(x),
{
    let i = choose|i: int| 0 <= i < a.len() && a[i] == x;
    assert((a + b)[i] == x);
}

proof fn lemma_in_right<A>(a: Seq<A>, b: Seq<A>, x: A)
    requires
        b.contains(x),
    ensures
        (a + b).contains(x),
{
    let i = choose|i: int| 0 <= i < b.len() && b[i] == x;
    assert((a + b)[a.len() + i] == x);
}

proof fn lemma_words_hold(
    index: Map<Seq<char>, Seq<Seq<char>>>,
    digits: Seq<char>,
    start: int,
    end: int,
    from: int,
    place: int,
    tokens: Seq<Seq<char>>,
    found: Seq<Seq<char>>,
)
    requires
        0 <= start < end <= digits.len(),
        0 <= from <= place < index[digits.subrange(start, end)].len(),
        search(
            index,
            digits,
            end,
            tokens.push(index[digits.subrange(start, end)][place]),
        ).contains(found),
    ensures
        search_words(index, digits, start, end, from, tokens).contains(found),
    decreases place - from,
{
    let words = index[digits.subrange(start, end)];
    let here = search(index, digits, end, tokens.push(words[from]));
    let later = search_words(index, digits, start, end, from + 1, tokens);
    if from == place {
        lemma_in_left(here, later, found);
    } else {
        lemma_words_hold(index, digits, start, end, from + 1, place, tokens, found);
        lemma_in_right(here, later, found);
    }
}

proof fn lemma_ends_hold(
    index: Map<Seq<char>, Seq<Seq<char>>>,
    digits: Seq<char>,
    start: int,
    end: int,
    at: int,
    tokens: Seq<Seq<char>>,
    found: Seq<Seq<char>>,
)
    requires
        0 <= start < end <= at <= digits.len(),
        index.contains_key(digits.subrange(start, at)),
        search_words(index, digits, start, at, 0, tokens).contains(found),
    ensures
        search_ends(index, digits, start, end, tokens).contains(found),
    decreases at - end,
{
    let here = if index.contains_key(digits.subrange(start, end)) {
        search_words(index, digits, start, end, 0, tokens)
    } else {
        Seq::empty()
    };
    let later = search_ends(index, digits, start, end + 1, tokens);
    if end == at {
        lemma_in_left(here, later, found);
    } else {
        lemma_ends_hold(index, digits, start, end + 1, at, tokens, found);
        lemma_in_right(here, later, found);
    }
}

proof fn lemma_search_complete(
    index: Map<Seq<char>, Seq<Seq<char>>>,
    digits: Seq<char>,
    start: int,
    tokens: Seq<Seq<char>>,
    suffix: Seq<Seq<char>>,
)
    requires
        0 <= start <= digits.len(),
        is_translation_from(index, digits, start, takes_digit(tokens), suffix),
    ensures
        search(index, digits, start, tokens).contains(tokens + suffix),
    decreases suffix.len(),
{
    if suffix.len() == 0 {
        assert(tokens + suffix =~= tokens);
        assert(search(index, digits, start, tokens)[0] == tokens);
    } else {
        let token = suffix.first();
        let rest = suffix.drop_first();
        let longer = tokens.push(token);
        let found = tokens + suffix;
        let end = start + token_digits(token).len();
        assert(longer + rest =~= found);
        assert(longer.last() == token);
        let by_words = search_ends(index, digits, start, start + 1, tokens);
        lemma_search_complete(index, digits, end, longer, rest);
        if is_digit_token(token) {
            lemma_in_right(by_words, search(index, digits, end, longer), found);
        } else {
            let words = index[digits.subrange(start, end)];
            let place = choose|i: int| 0 <= i < words.len() && words[i] == token;
            lemma_words_hold(index, digits, start, end, 0, place, tokens, found);
            lemma_ends_hold(index, digits, start, start + 1, end, tokens, found);
            if !word_starts_at(index, digits, start) && takes_digit(tokens) {
                lemma_in_left(
                    by_words,
                    search(index, digits, start + 1, tokens.push(digits.subrange(start, start + 1))),
                    found,
                );
            }
        }
    }
}

proof fn lemma_translation_spells(
    index: Map<Seq<char>, Seq<Seq<char>>>,
    digits: Seq<char>,
    start: int,
    open: bool,
    tokens: Seq<Seq<char>>,
)
    requires
        index_wf(index),
        is_digit_string(digits),
        0 <= start <= digits.len(),
        is_translation_from(index, digits, start, open, tokens),
    ensures
        spelled(tokens) == digits.subrange(start, digits.len() as int),
        no_adjacent_digits(tokens),
        !open && tokens.len() > 0 ==> !is_digit_token(tokens.first()),
    decreases tokens.len(),
{
    if tokens.len() == 0 {
        assert(spelled(tokens) =~= digits.subrange(start, digits.len() as int));
    } else {
        let token = tokens.first();
        let rest = tokens.drop_first();
        let end = start + token_digits(token).len();
        lemma_token_covers(index, digits, start, end, token);
        lemma_translation_spells(index, digits, end, !is_digit_token(token), rest);
        assert(digits.subrange(start, end) + digits.subrange(end, digits.len() as int)
            =~= digits.subrange(start, digits.len() as int));
        assert forall|i: int| 0 <= i < tokens.len() - 1 implies !(is_digit_token(
            #[trigger] tokens[i],
        ) && is_digit_token(tokens[i + 1])) by {
            if i == 0 {
                assert(tokens[1] == rest.first());
            } else {
                assert(tokens[i] == rest[i - 1]);
                assert(tokens[i + 1] == rest[i]);
            }
        }
    }
}

proof fn lemma_word_is_no_digit(token: Seq<char>)
    ensures
        is_digit_token(token) ==> signature(token).len() == 0,
{
    if is_digit_token(token) {
        assert(token.drop_last().len() == 0);
        assert(signature(token.drop_last()).len() == 0);
        assert(letter_digit(token.last()) is None);
    }
}

/// Every signature is a string of digits, with one digit for each letter of
/// the word.
pub proof fn signature_counts_letters(word: Seq<char>)
    ensures
        is_digit_string(signature(word)),
        signature(word).len() == word.filter(|c: char| is_letter(c)).len(),
    decreases word.len(),
{
    reveal(Seq::filter);
    if word.len() > 0 {
        signature_counts_letters(word.drop_last());
        let c = word.last();
        assert(letter_digit(c) is Some <==> is_letter(c));
        assert(letter_digit(c) is Some ==> is_digit(letter_digit(c)->0));
    }
}

/// The signature of a word of letters has one digit for each letter: the
/// digit that the keypad gives this letter, whatever its case.
pub proof fn signature_of_letters(word: Seq<char>)
    requires
        forall|i: int| 0 <= i < word.len() ==> is_letter(#[trigger] word[i]),
    ensures
        signature(word).len() == word.len(),
        forall|i: int|
            0 <= i < word.len() ==> is_digit(#[trigger] signature(word)[i]) && letter_digit(
                word[i],
            ) == Some(signature(word)[i]),
    decreases word.len(),
{
    if word.len() > 0 {
        signature_of_letters(word.drop_last());
        let c = word.last();
        assert(is_letter(c));
        assert(letter_digit(c) is Some && is_digit(letter_digit(c)->0));
        assert forall|i: int| 0 <= i < word.len() implies is_digit(#[trigger] signature(word)[i])
            && letter_digit(word[i]) == Some(signature(word)[i]) by {
            if i < word.len() - 1 {
                assert(word[i] == word.drop_last()[i]);
                assert(signature(word)[i] == signature(word.drop_last())[i]);
            }
        }
    }
}

/// The words of `words` that have the signature `key`, in their order.
pub open spec fn words_with(words: Seq<Seq<char>>, key: Seq<char>) -> Seq<Seq<char>> {
    words.filter(|word: Seq<char>| signature(word) == key)
}

/// The index of a word list holds, under each signature that a word of the
/// list has, the words of this signature in the order of the list, and holds
/// no other signature.
pub proof fn index_groups_words_by_signature(words: Seq<Seq<char>>, key: Seq<char>)
    ensures
        index_of(words).contains_key(key) <==> words_with(words, key).len() > 0,
        index_of(words).contains_key(key) ==> index_of(words)[key] == words_with(words, key),
    decreases words.len(),
{
    reveal(Seq::filter);
    if words.len() > 0 {
        let front = words.drop_last();
        index_groups_words_by_signature(front, key);
        index_groups_words_by_signature(front, signature(words.last()));
        assert(index_of(words) == index_insert(index_of(front), words.last()));
        if signature(words.last()) == key && !index_of(front).contains_key(key) {
            assert(words_with(front, key) =~= Seq::empty());
        }
    }
}

/// The tokens of every translation spell the digit string: the signatures of
/// its words and its single digits, put together in order, are `digits`.
pub proof fn translations_spell_the_digits(
    index: Map<Seq<char>, Seq<Seq<char>>>,
    digits: Seq<char>,
    k: int,
)
    requires
        index_wf(index),
        is_digit_string(digits),
        0 <= k < translations(index, digits).len(),
    ensures
        spelled(translations(index, digits)[k]) == digits,
{
    let found = translations(index, digits)[k];
    lemma_search_sound(index, digits, 0, Seq::empty());
    assert(found.subrange(0, found.len() as int) =~= found);
    lemma_translation_spells(index, digits, 0, true, found);
    assert(digits.subrange(0, digits.len() as int) =~= digits);
}

/// In no translation does a single digit follow a single digit.
pub proof fn translations_have_no_adjacent_digits(
    index: Map<Seq<char>, Seq<Seq<char>>>,
    digits: Seq<char>,
    k: int,
)
    requires
        index_wf(index),
        is_digit_string(digits),
        0 <= k < translations(index, digits).len(),
    ensures
        no_adjacent_digits(translations(index, digits)[k]),
{
    let found = translations(index, digits)[k];
    lemma_search_sound(index, digits, 0, Seq::empty());
    assert(found.subrange(0, found.len() as int) =~= found);
    lemma_translation_spells(index, digits, 0, true, found);
}

/// The search finds the translations and nothing else: with an index in which
/// each word stands under its own signature, a list of tokens is among the
/// translations of the digit string `digits` exactly if it covers `digits` by
/// the rules.
pub proof fn translations_are_exactly_the_valid_ones(
    index: Map<Seq<char>, Seq<Seq<char>>>,
    digits: Seq<char>,
    tokens: Seq<Seq<char>>,
)
    requires
        index_wf(index),
        is_digit_string(digits),
    ensures
        translations(index, digits).contains(tokens) <==> is_translation(index, digits, tokens),
{
    if translations(index, digits).contains(tokens) {
        let k = choose|k: int|
            0 <= k < translations(index, digits).len() && translations(index, digits)[k] == tokens;
        lemma_search_sound(index, digits, 0, Seq::empty());
        assert(tokens.subrange(0, tokens.len() as int) =~= tokens);
    }
    if is_translation(index, digits, tokens) {
        lemma_search_complete(index, digits, 0, Seq::empty(), tokens);
        assert(Seq::<Seq<char>>::empty() + tokens =~= tokens);
    }
}

/// `tokens` cuts `digits` from position `start` to the end into dictionary
/// words and single digits, no digit next to another (`after_digit` says
/// whether a digit stands before the first token). Unlike the search, it may
/// take a digit where a word starts.
pub open spec fn is_segmentation_from(
    index: Map<Seq<char>, Seq<Seq<char>>>,
    digits: Seq<char>,
    start: int,
    after_digit: bool,
    tokens: Seq<Seq<char>>,
) -> bool
    decreases tokens.len(),
{
    if tokens.len() == 0 {
        start >= digits.len()
    } else {
        let token = tokens.first();
        let end = start + token_digits(token).len();
        let covered = digits.subrange(start, end);
        &&& start < end <= digits.len()
        &&& if is_digit_token(token) {
            !after_digit && token == covered
        } else {
            index.contains_key(covered) && index[covered].contains(token)
        }
        &&& is_segmentation_from(index, digits, end, is_digit_token(token), tokens.drop_first())
    }
}

/// `tokens` cuts all of `digits` into dictionary words and single digits, no
/// digit next to another.
pub open spec fn is_segmentation(
    index: Map<Seq<char>, Seq<Seq<char>>>,
    digits: Seq<char>,
    tokens: Seq<Seq<char>>,
) -> bool {
    is_segmentation_from(index, digits, 0, false, tokens)
}

proof fn lemma_translation_is_segmentation(
    index: Map<Seq<char>, Seq<Seq<char>>>,
    digits: Seq<char>,
    start: int,
    open: bool,
    after_digit: bool,
    tokens: Seq<Seq<char>>,
)
    requires
        is_translation_from(index, digits, start, open, tokens),
        after_digit ==> !open,
    ensures
        is_segmentation_from(index, digits, start, after_digit, tokens),
    decreases tokens.len(),
{
    if tokens.len() > 0 {
        let token = tokens.first();
        lemma_translation_is_segmentation(
            index,
            digits,
            start + token_digits(token).len(),
            !is_digit_token(token),
            is_digit_token(token),
            tokens.drop_first(),
        );
    }
}

/// Nothing invalid is found: every translation cuts `digits` into dictionary
/// words and single digits, no digit next to another.
pub proof fn translations_are_segmentations(
    index: Map<Seq<char>, Seq<Seq<char>>>,
    digits: Seq<char>,
    tokens: Seq<Seq<char>>,
)
    requires
        index_wf(index),
        is_digit_string(digits),
        translations(index, digits).contains(tokens),
    ensures
        is_segmentation(index, digits, tokens),
{
    translations_are_exactly_the_valid_ones(index, digits, tokens);
    lemma_translation_is_segmentation(index, digits, 0, true, false, tokens);
}

/// Where every segmentation of `digits` is valid by the rules of the search,
/// that is, none takes a digit where a word starts, the translations are all
/// the segmentations.
pub proof fn translations_are_all_segmentations(
    index: Map<Seq<char>, Seq<Seq<char>>>,
    digits: Seq<char>,
    tokens: Seq<Seq<char>>,
)
    requires
        index_wf(index),
        is_digit_string(digits),
        forall|other: Seq<Seq<char>>| #[trigger]
            is_segmentation(index, digits, other) ==> is_translation(index, digits, other),
    ensures
        translations(index, digits).contains(tokens) <==> is_segmentation(index, digits, tokens),
{
    translations_are_exactly_the_valid_ones(index, digits, tokens);
    if is_translation(index, digits, tokens) {
        lemma_translation_is_segmentation(index, digits, 0, true, false, tokens);
    }
}

/// The translations depend on the index and the digits alone: the same index
/// and the same digits give the same translations in the same order.
pub proof fn translations_are_determined(
    index: Map<Seq<char>, Seq<Seq<char>>>,
    digits: Seq<char>,
    other_index: Map<Seq<char>, Seq<Seq<char>>>,
    other_digits: Seq<char>,
)
    requires
        index =~= other_index,
        digits =~= other_digits,
    ensures
        translations(index, digits) == translations(other_index, other_digits),
{
}

} // verus!
