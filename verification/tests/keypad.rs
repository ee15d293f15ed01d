use phone_words::keypad::{
    digit_for_letter, is_empty_or_last_elt_is_not_single_digit, only_digits, word_to_num,
};

#[test]
fn every_letter_has_its_digit() {
    let groups = [
        ("e", '0'),
        ("jnq", '1'),
        ("rwx", '2'),
        ("dsy", '3'),
        ("ft", '4'),
        ("am", '5'),
        ("civ", '6'),
        ("bku", '7'),
        ("lop", '8'),
        ("ghz", '9'),
    ];
    let mut seen = 0;
    for (letters, digit) in groups {
        for c in letters.chars() {
            assert_eq!(digit_for_letter(c), Some(digit));
            assert_eq!(digit_for_letter(c.to_ascii_uppercase()), Some(digit));
            seen += 1;
        }
    }
    assert_eq!(seen, 26);
}

#[test]
fn other_characters_have_no_digit() {
    for c in ['0', '9', '-', ' ', '`', '{', '@', '[', '\u{e9}', '"'] {
        assert_eq!(digit_for_letter(c), None);
    }
}

#[test]
fn signature_of_helloworld() {
    assert_eq!(word_to_num("helloworld"), "9088828283");
    assert_eq!(word_to_num("HelloWorld"), "9088828283");
}

#[test]
fn signature_leaves_out_what_is_no_letter() {
    assert_eq!(word_to_num("o'clock"), "868867");
    assert_eq!(word_to_num("caf\u{e9} 24"), "654");
    assert_eq!(word_to_num(""), "");
    assert_eq!(word_to_num("12-34"), "");
}

#[test]
fn signature_is_as_long_as_the_letters() {
    let word = "abcdefghijklmnopqrstuvwxyzABCDEFGHIJKLMNOPQRSTUVWXYZ";
    let num = word_to_num(word);
    assert_eq!(num.len(), word.len());
    assert!(num.chars().all(|c| c.is_ascii_digit()));
    assert_eq!(num, "5763049961785188123476223957630499617851881234762239");
}

#[test]
fn digits_of_a_phone_number() {
    assert_eq!(only_digits("908-882/8283"), "9088828283");
    assert_eq!(only_digits(""), "");
    assert_eq!(only_digits("no digits"), "");
    assert_eq!(only_digits("(0) 1\u{663}2"), "012");
}

#[test]
fn open_to_a_digit() {
    let list = |tokens: &[&str]| -> Vec<String> { tokens.iter().map(|t| t.to_string()).collect() };
    assert!(is_empty_or_last_elt_is_not_single_digit(&list(&[])));
    assert!(is_empty_or_last_elt_is_not_single_digit(&list(&["5", "hello"])));
    assert!(is_empty_or_last_elt_is_not_single_digit(&list(&["5", "o"])));
    assert!(is_empty_or_last_elt_is_not_single_digit(&list(&["o"])));
    assert!(is_empty_or_last_elt_is_not_single_digit(&list(&["55"])));
    assert!(is_empty_or_last_elt_is_not_single_digit(&list(&["5", ""])));
    assert!(is_empty_or_last_elt_is_not_single_digit(&list(&["\u{e9}"])));
    assert!(is_empty_or_last_elt_is_not_single_digit(&list(&["\u{e9}", "z"])));
    assert!(is_empty_or_last_elt_is_not_single_digit(&list(&["\u{663}"])));
    assert!(!is_empty_or_last_elt_is_not_single_digit(&list(&["z", "9"])));
    assert!(!is_empty_or_last_elt_is_not_single_digit(&list(&["5"])));
    assert!(!is_empty_or_last_elt_is_not_single_digit(&list(&["hello", "0"])));
}
