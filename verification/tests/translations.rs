use phone_words::dictionary::Dictionary;
use phone_words::translate::translate;

fn dictionary(words: &[&str]) -> Dictionary {
    let words: Vec<String> = words.iter().map(|w| w.to_string()).collect();
    Dictionary::build(&words)
}

fn lines(found: &Vec<Vec<String>>) -> Vec<String> {
    found.iter().map(|tokens| tokens.join(" ")).collect()
}

#[test]
fn hello_world_translations() {
    let dict = dictionary(&["hell", "hello", "o", "world", "row", "oy"]);
    let found = lines(&translate("908-882-8283", &dict));
    for line in ["hello world", "hello row oy", "hell o world", "hell o row oy"] {
        assert!(found.contains(&line.to_string()));
    }
    assert_eq!(found.len(), 6);
}

#[test]
fn shorter_words_come_first() {
    let dict = dictionary(&["hell", "hello", "o", "world", "row", "oy"]);
    let found = translate("908-882-8283", &dict);
    assert_eq!(
        lines(&found),
        vec![
            "hell o row o 3",
            "hell o row oy",
            "hell o world",
            "hello row o 3",
            "hello row oy",
            "hello world",
        ]
    );
}

#[test]
fn words_of_one_signature_keep_their_order() {
    let dict = dictionary(&["row", "wow", "Rox"]);
    let found = translate("282", &dict);
    assert_eq!(lines(&found), vec!["row", "wow", "Rox"]);
}

#[test]
fn empty_number_has_one_empty_translation() {
    let dict = dictionary(&["hell", "o"]);
    let found = translate("", &dict);
    assert_eq!(found, vec![Vec::<String>::new()]);
    let found = translate("-/ ", &dict);
    assert_eq!(found, vec![Vec::<String>::new()]);
}

#[test]
fn lone_digit_without_dictionary() {
    let dict = dictionary(&[]);
    let found = translate("5", &dict);
    assert_eq!(found, vec![vec!["5".to_string()]]);
}

#[test]
fn two_digits_in_a_row_are_never_emitted() {
    let dict = dictionary(&[]);
    assert!(translate("55", &dict).is_empty());
    assert!(translate("555", &dict).is_empty());
}

#[test]
fn digit_between_words() {
    let dict = dictionary(&["lo", "oy"]);
    let found = translate("88-5-83", &dict);
    assert_eq!(lines(&found), vec!["lo 5 oy"]);
    let dict = dictionary(&["lo", "oy", "Po"]);
    let found = translate("1-88-5-83", &dict);
    assert_eq!(lines(&found), vec!["1 lo 5 oy", "1 Po 5 oy"]);
}

#[test]
fn no_digit_where_a_word_starts() {
    // "8" could stand for itself, but "o" starts there, so the digit is not tried,
    // and after "o" nothing covers the rest "1" but a digit.
    let dict = dictionary(&["lo"]);
    assert_eq!(lines(&translate("88", &dict)), vec!["lo"]);
    assert_eq!(lines(&translate("881", &dict)), vec!["lo 1"]);
    // A word that leads nowhere still rules the digit out.
    let dict = dictionary(&["lo", "loan"]);
    assert_eq!(lines(&translate("88511", &dict)), vec!["loan 1"]);
    let dict = dictionary(&["lo"]);
    assert!(translate("8811", &dict).is_empty());
    assert!(translate("188", &dict).is_empty() == false);
    assert!(translate("1288", &dict).is_empty());
}

#[test]
fn digit_after_a_word_of_one_letter() {
    let dict = dictionary(&["o"]);
    assert_eq!(lines(&translate("83", &dict)), vec!["o 3"]);
    assert_eq!(lines(&translate("18", &dict)), vec!["1 o"]);
    assert_eq!(lines(&translate("181", &dict)), vec!["1 o 1"]);
    assert!(translate("8311", &dict).is_empty());
    let dict = dictionary(&["o", "on"]);
    assert_eq!(lines(&translate("81", &dict)), vec!["o 1", "on"]);
}

#[test]
fn blank_dictionary_lines_are_harmless() {
    let dict = dictionary(&["", "--", "o", "42"]);
    assert_eq!(lines(&translate("8", &dict)), vec!["o"]);
    assert_eq!(lines(&translate("", &dict)), vec![""]);
    assert_eq!(translate("", &dict).len(), 1);
    assert_eq!(dict.get("").map(|w| w.clone()), Some(vec!["".to_string(), "--".to_string(), "42".to_string()]));
}

#[test]
fn translating_twice_gives_the_same() {
    let dict = dictionary(&["hell", "hello", "o", "world", "row", "oy"]);
    assert_eq!(translate("908-882-8283", &dict), translate("908-882-8283", &dict));
    let again = dictionary(&["hell", "hello", "o", "world", "row", "oy"]);
    assert_eq!(translate("9088828283", &again), translate("908-882-8283", &dict));
}

#[test]
fn tokens_spell_the_number() {
    let dict = dictionary(&["hell", "hello", "o", "world", "row", "oy", "Day"]);
    for number in ["908-882-8283", "353", "8/353", "1-908-88"] {
        let digits = phone_words::keypad::only_digits(number);
        for tokens in translate(number, &dict) {
            let mut spelled = String::new();
            let mut last_was_digit = false;
            for token in &tokens {
                let is_digit = token.len() == 1 && token.chars().all(|c| c.is_ascii_digit());
                assert!(!(is_digit && last_was_digit));
                last_was_digit = is_digit;
                if is_digit {
                    spelled.push_str(token);
                } else {
                    spelled.push_str(&phone_words::keypad::word_to_num(token));
                }
            }
            assert_eq!(spelled, digits);
        }
    }
}

#[test]
fn line_of_a_translation() {
    let tokens = vec!["hello".to_string(), "world".to_string()];
    assert_eq!(
        phone_words::translate::translation_line("908-882-8283", &tokens),
        "908-882-8283: hello world"
    );
    assert_eq!(phone_words::translate::translation_line("", &Vec::new()), ":");
    assert_eq!(
        phone_words::translate::translation_line("5", &vec!["5".to_string()]),
        "5: 5"
    );
}

#[test]
fn lines_of_a_phone_number() {
    let dict = dictionary(&["hell", "hello", "o", "world", "row", "oy"]);
    assert_eq!(
        phone_words::translate::translation_lines("908-882-8283", &dict),
        vec![
            "908-882-8283: hell o row o 3",
            "908-882-8283: hell o row oy",
            "908-882-8283: hell o world",
            "908-882-8283: hello row o 3",
            "908-882-8283: hello row oy",
            "908-882-8283: hello world",
        ]
    );
    assert_eq!(phone_words::translate::translation_lines("--", &dict), vec!["--:"]);
    assert!(phone_words::translate::translation_lines("11", &dict).is_empty());
}

// Every way to cut `digits[start..]` into words of `words` and single digits,
// each token with the position at which it starts and whether it is a digit.
fn all_cuts(
    digits: &str,
    start: usize,
    words: &[&str],
    so_far: &mut Vec<(usize, bool, String)>,
    out: &mut Vec<Vec<(usize, bool, String)>>,
) {
    if start == digits.len() {
        out.push(so_far.clone());
        return;
    }
    for word in words {
        let key = phone_words::keypad::word_to_num(word);
        if !key.is_empty() && digits[start..].starts_with(&key) {
            so_far.push((start, false, word.to_string()));
            all_cuts(digits, start + key.len(), words, so_far, out);
            so_far.pop();
        }
    }
    so_far.push((start, true, digits[start..start + 1].to_string()));
    all_cuts(digits, start + 1, words, so_far, out);
    so_far.pop();
}

fn word_starts(digits: &str, start: usize, words: &[&str]) -> bool {
    words.iter().any(|word| {
        let key = phone_words::keypad::word_to_num(word);
        !key.is_empty() && digits[start..].starts_with(&key)
    })
}

#[test]
fn nothing_valid_is_left_out_and_nothing_else_found() {
    let words = ["hell", "hello", "o", "world", "row", "oy", "l", "lo", "e", "Jo"];
    let dict = dictionary(&words);
    for number in ["9088828283", "88", "808", "1808", "18", "8818", "90888", "282831", "0", "00", "1"] {
        let mut cuts = Vec::new();
        all_cuts(number, 0, &words, &mut Vec::new(), &mut cuts);
        let mut expected: Vec<Vec<String>> = cuts
            .iter()
            .filter(|cut| {
                (0..cut.len()).all(|i| {
                    let (start, is_digit, _) = &cut[i];
                    !*is_digit
                        || (!word_starts(number, *start, &words)
                            && (i == 0 || !cut[i - 1].1))
                })
            })
            .map(|cut| cut.iter().map(|(_, _, token)| token.clone()).collect())
            .collect();
        let mut found = translate(number, &dict);
        expected.sort();
        found.sort();
        assert_eq!(found, expected);
    }
}
