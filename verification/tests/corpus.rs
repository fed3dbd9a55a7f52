use markovpass::corpus::{clean_text, clean_word, get_ngrams, is_word_char, Corpus, ToNgrams};

#[test]
fn corpus_test_clean_word() {
    assert_eq!(clean_word("Test", 3), Some("Test"));
    assert_eq!(clean_word("123test@314", 3), Some("test"));
    assert_eq!(clean_word("2#@test'in23", 3), Some("test'in"));
    assert_eq!(clean_word("31ld;Test", 3), None);
    assert_eq!(clean_word("a", 2), None);
    assert_eq!(clean_word("Test", 5), None);
}

#[test]
fn markovpass_test_clean_word() {
    assert_eq!(clean_word("Test", 3), Some("Test"));
    assert_eq!(clean_word("123test@314", 3), Some("test"));
    assert_eq!(clean_word("2#@test'in23", 3), Some("test'in"));
    assert_eq!(clean_word("31ld;Test", 3), None);
    assert_eq!(clean_word("a", 2), None);
    assert_eq!(clean_word("Test", 5), None);
}

#[test]
fn test_clean_corpus() {
    assert_eq!(clean_text("this is a test", 3), " this test");
    assert_eq!(clean_text("Some awes0me test", 3), " some test");
    assert_eq!(clean_text("test'in", 3), " test'in");
    assert_eq!(clean_text("this is a test", 5), "");
}

#[test]
fn test_ngrams() {
    let corpus = Corpus::new("this is a test", 3, 3);
    let ngrams = corpus.ngrams();
    assert_eq!(
        ngrams,
        vec![" th", "thi", "his", "is ", "s t", " te", "tes", "est", "st ", "t t"]
    );
    let corpus = Corpus::new("this is a test", 5, 3);
    let ngrams = corpus.ngrams();
    assert_eq!(
        ngrams,
        vec![
            " this", "this ", "his t", "is te", "s tes", " test", "test ", "est t", "st th",
            "t thi",
        ]
    );
    let corpus = Corpus::new("this is a test", 3, 2);
    let ngrams = corpus.ngrams();
    assert_eq!(
        ngrams,
        vec![
            " th", "thi", "his", "is ", "s i", " is", "is ", "s t", " te", "tes", "est", "st ",
            "t t",
        ]
    );
}

#[test]
fn test_get_ngrams() {
    assert_eq!(
        get_ngrams("this is a test".to_string(), 3, 3),
        vec![" th", "thi", "his", "is ", "s t", " te", "tes", "est", "st ", "t t"]
    );
    assert_eq!(
        get_ngrams("this is a test".to_string(), 5, 3),
        vec![
            " this", "this ", "his t", "is te", "s tes", " test", "test ", "est t", "st th",
            "t thi"
        ]
    );
    assert_eq!(
        get_ngrams("this is a test".to_string(), 3, 2),
        vec![
            " th", "thi", "his", "is ", "s i", " is", "is ", "s t", " te", "tes", "est", "st ",
            "t t"
        ]
    );
    assert!(
        get_ngrams("this is a test".to_string(), 3, 5).is_empty(),
        "Ngrams not empty"
    );
    assert_eq!(
        get_ngrams("Some awes0me test".to_string(), 6, 3),
        vec![
            " some ", "some t", "ome te", "me tes", "e test", " test ", "test s", "est so",
            "st som", "t some"
        ]
    );
    assert_eq!(
        get_ngrams("test'in".to_string(), 3, 3),
        vec![" te", "tes", "est", "st'", "t'i", "'in", "in ", "n t"]
    );
}

#[test]
fn word_chars_are_letters_and_apostrophes() {
    assert!(is_word_char('a'));
    assert!(is_word_char('Z'));
    assert!(is_word_char('\''));
    assert!(is_word_char('é'));
    assert!(!is_word_char('3'));
    assert!(!is_word_char(' '));
    assert!(!is_word_char('-'));
}

#[test]
fn clean_word_counts_bytes() {
    // Two characters, three bytes.
    assert_eq!(clean_word("né", 3), Some("né"));
    assert_eq!(clean_word("né", 4), None);
    assert_eq!(clean_word("ne", 3), None);
}

#[test]
fn clean_word_of_nothing_left() {
    assert_eq!(clean_word("1234", 0), Some(""));
    assert_eq!(clean_word("1234", 1), None);
    assert_eq!(clean_word("", 0), Some(""));
}

#[test]
fn clean_text_lowers_and_splits_at_any_whitespace() {
    assert_eq!(clean_text("Hello\tWORLD\nagain  and\u{a0}again", 3), " hello world again and again");
    assert_eq!(clean_text("", 3), "");
    assert_eq!(clean_text("   \n ", 3), "");
    assert_eq!(clean_text("(quoted) \"words\" end.", 3), " quoted words end");
    assert_eq!(clean_text("mid-dle kept's", 3), " kept's");
}

#[test]
fn ngrams_wrap_around_the_end() {
    let ngrams = get_ngrams("abc".to_string(), 4, 1);
    assert_eq!(ngrams, vec![" abc", "abc ", "bc a", "c ab"]);
}

#[test]
fn ngrams_of_a_short_text_are_none() {
    assert!(get_ngrams("abc".to_string(), 5, 1).is_empty());
    assert!(get_ngrams("abc".to_string(), 0, 1).is_empty());
    assert!(Corpus::new("abc", 5, 1).ngrams().is_empty());
}

#[test]
fn corpus_keeps_the_cleaned_text() {
    let corpus = Corpus::new("Tic, toc!", 3, 3);
    assert_eq!(corpus.text(), " tic toc");
    assert_eq!(corpus.ngram_length(), 3);
    assert_eq!(corpus.ngrams().len(), 8);
}

#[test]
fn cursor_hands_out_each_ngram_once() {
    let mut cursor = ToNgrams::new(2, " ab");
    assert_eq!(cursor.next(), Some(" a".to_string()));
    assert_eq!(cursor.next(), Some("ab".to_string()));
    assert_eq!(cursor.next(), Some("b ".to_string()));
    assert_eq!(cursor.next(), None);
    assert_eq!(cursor.next(), None);
}

#[test]
fn cursor_over_a_text_with_wide_characters() {
    let mut cursor = ToNgrams::new(3, " été");
    assert_eq!(cursor.next(), Some(" ét".to_string()));
    assert_eq!(cursor.next(), Some("été".to_string()));
    assert_eq!(cursor.next(), Some("té ".to_string()));
    assert_eq!(cursor.next(), Some("é é".to_string()));
    assert_eq!(cursor.next(), None);
}
