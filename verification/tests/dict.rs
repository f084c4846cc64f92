use wordy::dict::{parse_dictionary, DictError};

#[test]
fn parses_words_and_frequencies() {
    let entries = parse_dictionary("hello 12\nworld 5\n").unwrap();
    assert_eq!(entries.len(), 2);
    assert_eq!(entries[0].word, "hello");
    assert_eq!(entries[0].freq, 12);
    assert_eq!(entries[1].word, "world");
    assert_eq!(entries[1].freq, 5);
}

#[test]
fn accepts_tabs_missing_final_newline_and_extra_tokens() {
    let entries = parse_dictionary("hello\t12 trailing words\nworld 5").unwrap();
    assert_eq!(entries.len(), 2);
    assert_eq!(entries[0].freq, 12);
    assert_eq!(entries[1].freq, 5);
}

#[test]
fn empty_text_gives_no_entries() {
    assert_eq!(parse_dictionary("").unwrap().len(), 0);
}

#[test]
fn blank_line_is_fatal() {
    assert!(matches!(
        parse_dictionary("hello 12\n   \nworld 5\n"),
        Err(DictError::NoWord { line: 1 })
    ));
}

#[test]
fn missing_frequency_is_fatal() {
    assert!(matches!(
        parse_dictionary("hello\n"),
        Err(DictError::NoFrequency { line: 0 })
    ));
}

#[test]
fn word_of_wrong_length_is_fatal() {
    assert!(matches!(
        parse_dictionary("hi 5\n"),
        Err(DictError::BadWord { line: 0 })
    ));
}

#[test]
fn non_numeric_frequency_is_fatal() {
    assert!(matches!(
        parse_dictionary("hello 12a\n"),
        Err(DictError::BadFrequency { line: 0 })
    ));
}

#[test]
fn oversized_frequency_is_fatal() {
    assert!(matches!(
        parse_dictionary("hello 99999999999999999999\n"),
        Err(DictError::BadFrequency { line: 0 })
    ));
}

#[test]
fn frequency_at_the_limit_is_accepted_alone() {
    let entries = parse_dictionary("hello 18446744073709551615\n").unwrap();
    assert_eq!(entries[0].freq, u64::MAX);
}

#[test]
fn total_mass_beyond_the_limit_is_fatal() {
    assert!(matches!(
        parse_dictionary("aaaaa 18446744073709551615\nbbbbb 1\n"),
        Err(DictError::TotalTooLarge)
    ));
}

#[test]
fn carriage_returns_are_stripped() {
    let entries = parse_dictionary("hello 12\r\nworld 5\r\n").unwrap();
    assert_eq!(entries.len(), 2);
    assert_eq!(entries[1].word, "world");
}
