use phone_words::dictionary::Dictionary;

fn owned(words: &[&str]) -> Vec<String> {
    words.iter().map(|w| w.to_string()).collect()
}

#[test]
fn empty_dictionary_has_no_words() {
    let dict = Dictionary::new();
    assert_eq!(dict.get("9088"), None);
    assert_eq!(dict.get(""), None);
}

#[test]
fn words_stand_under_their_signature() {
    let dict = Dictionary::build(&owned(&["hell", "hello", "o", "world", "row", "oy"]));
    assert_eq!(dict.get("9088"), Some(&owned(&["hell"])));
    assert_eq!(dict.get("90888"), Some(&owned(&["hello"])));
    assert_eq!(dict.get("8"), Some(&owned(&["o"])));
    assert_eq!(dict.get("28283"), Some(&owned(&["world"])));
    assert_eq!(dict.get("282"), Some(&owned(&["row"])));
    assert_eq!(dict.get("83"), Some(&owned(&["oy"])));
    assert_eq!(dict.get("908"), None);
    assert_eq!(dict.get("hell"), None);
}

#[test]
fn words_keep_their_order_and_duplicates() {
    let dict = Dictionary::build(&owned(&["wow", "o", "row", "wow", "Row", "r-o-w"]));
    assert_eq!(dict.get("282"), Some(&owned(&["wow", "row", "wow", "Row", "r-o-w"])));
    assert_eq!(dict.get("8"), Some(&owned(&["o"])));
}

#[test]
fn insert_adds_at_the_end() {
    let mut dict = Dictionary::new();
    dict.insert("oy".to_string());
    assert_eq!(dict.get("83"), Some(&owned(&["oy"])));
    dict.insert("Ls".to_string());
    dict.insert("hell".to_string());
    assert_eq!(dict.get("83"), Some(&owned(&["oy", "Ls"])));
    assert_eq!(dict.get("9088"), Some(&owned(&["hell"])));
}

#[test]
fn build_is_insert_word_by_word() {
    let words = owned(&["hell", "hello", "o", "lo", "po", "hello"]);
    let built = Dictionary::build(&words);
    let mut grown = Dictionary::new();
    for word in &words {
        grown.insert(word.clone());
    }
    for key in ["9088", "90888", "8", "88", "", "9"] {
        assert_eq!(built.get(key), grown.get(key));
    }
}
