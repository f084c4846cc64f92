use std::io::Write;
use wordy::corpus::{
    aggregate_counts, count_zero_entries, decompress, format_dictionary, max_freq,
    parse_corpus_line, rescale_counts, sort_by_word, split_lines, CorpusError,
};
use wordy::Candidate;

fn cand(word: &str, freq: u64) -> Candidate {
    Candidate {
        word: word.to_string(),
        freq,
    }
}

#[test]
fn decompress_inverts_gzip() {
    let mut encoder = flate2::write::GzEncoder::new(Vec::new(), flate2::Compression::default());
    encoder.write_all(b"hello corpus text").unwrap();
    let packed = encoder.finish().unwrap();
    assert_ne!(packed, b"hello corpus text".to_vec());
    let unpacked = decompress(&packed).unwrap();
    assert_eq!(unpacked, b"hello corpus text".to_vec());
}

#[test]
fn decompress_rejects_garbage() {
    assert!(matches!(
        decompress(b"not a gzip stream"),
        Err(CorpusError::BadArchive)
    ));
}

#[test]
fn corpus_line_counts_are_summed() {
    let r = parse_corpus_line("hello\t1999,5,3\t2000,6,2").unwrap().unwrap();
    assert_eq!(r.0, "hello");
    assert_eq!(r.1, 11);
}

#[test]
fn corpus_line_tag_is_accepted() {
    let r = parse_corpus_line("hello_NOUN\t1999,5,3").unwrap().unwrap();
    assert_eq!(r.0, "hello");
    assert_eq!(r.1, 5);
}

#[test]
fn foreign_lines_are_skipped() {
    assert!(parse_corpus_line("Hello\t1999,5,3").unwrap().is_none());
    assert!(parse_corpus_line("hello 1999,5,3").unwrap().is_none());
    assert!(parse_corpus_line("hello\tabcd,5,3").unwrap().is_none());
    assert!(parse_corpus_line("hi\t1999,5,3").unwrap().is_none());
    assert!(parse_corpus_line("hello_\t1999,5,3").unwrap().is_none());
}

#[test]
fn malformed_year_group_is_fatal() {
    assert!(parse_corpus_line("hello\t1999,5,3\t2000x").is_err());
    assert!(parse_corpus_line("hello\t1999,5,3\t2000,x,1").is_err());
}

#[test]
fn aggregate_adds_to_matching_words_only() {
    let mut entries = vec![cand("hello", 1), cand("world", 0)];
    let text = "hello\t1999,5,3\t2000,6,2\nxxxxx\t1999,9,9\nnotcorpus\nworld\t2001,7,1\n";
    aggregate_counts(&mut entries, text).unwrap();
    assert_eq!(entries[0].freq, 12);
    assert_eq!(entries[1].freq, 7);
}

#[test]
fn aggregate_reports_the_bad_line() {
    let mut entries = vec![cand("hello", 1)];
    let r = aggregate_counts(&mut entries, "world\t1999,1,1\nhello\t1999,x,1\n");
    assert!(matches!(r, Err(CorpusError::BadLine { line: 1 })));
}

#[test]
fn split_lines_matches_line_layout() {
    let v = split_lines("one\ntwo\r\n\nlast");
    assert_eq!(v, vec!["one", "two", "", "last"]);
}

#[test]
fn max_and_zero_counts() {
    let entries = vec![cand("aaaaa", 3), cand("bbbbb", 0), cand("ccccc", 9)];
    assert_eq!(max_freq(&entries), 9);
    assert_eq!(count_zero_entries(&entries), 1);
}

#[test]
fn rescale_leaves_small_counts_alone() {
    let mut entries = vec![cand("aaaaa", 3), cand("bbbbb", 4294967295)];
    rescale_counts(&mut entries);
    assert_eq!(entries[0].freq, 3);
    assert_eq!(entries[1].freq, 4294967295);
}

#[test]
fn rescale_compresses_oversized_counts() {
    // maximum 2^33 is twice the 32-bit range: every count is divided by
    // three and bumped by one
    let mut entries = vec![cand("aaaaa", 8589934592), cand("bbbbb", 6), cand("ccccc", 0)];
    rescale_counts(&mut entries);
    assert_eq!(entries[0].freq, 8589934592 / 3 + 1);
    assert_eq!(entries[1].freq, 3);
    assert_eq!(entries[2].freq, 1);
}

#[test]
fn sort_by_word_is_alphabetical_and_stable() {
    let sorted = sort_by_word(vec![
        cand("mango", 1),
        cand("apple", 2),
        cand("apple", 3),
        cand("berry", 4),
    ]);
    let words: Vec<&str> = sorted.iter().map(|c| c.word.as_str()).collect();
    assert_eq!(words, vec!["apple", "apple", "berry", "mango"]);
    assert_eq!(sorted[0].freq, 2);
    assert_eq!(sorted[1].freq, 3);
}

#[test]
fn format_lays_out_word_count_lines() {
    let out = format_dictionary(&vec![cand("hello", 12), cand("world", 5)]);
    assert_eq!(out, b"hello 12\nworld 5\n".to_vec());
}

#[test]
fn format_of_zero_count() {
    let out = format_dictionary(&vec![cand("aaaaa", 0)]);
    assert_eq!(out, b"aaaaa 0\n".to_vec());
}
