use tfidf_rank::corpus::{get_idf, get_index, get_tf_idf, load_corpus, LoadError};
use tfidf_rank::text::{parse_weight, split_str, trim_str};

#[test]
fn idf_round_trip() {
    let text = "| term | idf |\n|---|---|\n| cat | 0.5 |\n| dog | 1.0 |\n";
    let t = get_idf(text).unwrap();
    assert_eq!(t.scale, 1);
    assert_eq!(t.entries.len(), 2);
    assert_eq!(t.entries[0].term, "cat");
    assert_eq!(t.entries[0].value, 5);
    assert_eq!(t.entries[1].term, "dog");
    assert_eq!(t.entries[1].value, 10);
}

#[test]
fn idf_mixed_scales() {
    let text = "h\ns\n| a | 0.25 |\n| b | 3 |\n";
    let t = get_idf(text).unwrap();
    assert_eq!(t.scale, 2);
    assert_eq!(t.entries[0].value, 25);
    assert_eq!(t.entries[1].value, 300);
}

#[test]
fn idf_duplicate_term_last_wins() {
    let text = "h\ns\n| a | 1 |\n| a | 2 |\n";
    let t = get_idf(text).unwrap();
    assert_eq!(t.entries.len(), 1);
    assert_eq!(t.entries[0].value, 2);
}

#[test]
fn tf_idf_round_trip() {
    let text = "| term | d0 | d1 |\n|---|---|---|\n| cat | 0.5 | 0.0 |\n| dog | 0.0 | 1.0 |\n";
    let t = get_tf_idf(text).unwrap();
    assert_eq!(t.scale, 1);
    assert_eq!(t.entries.len(), 2);
    assert_eq!(t.entries[0].term, "cat");
    assert_eq!(t.entries[0].values, vec![5, 0]);
    assert_eq!(t.entries[1].term, "dog");
    assert_eq!(t.entries[1].values, vec![0, 10]);
}

#[test]
fn tf_idf_skips_empty_padding_fields() {
    // An empty trailing cell is artifact padding, not a zero entry.
    let text = "h\ns\n| cat | 0.5 | 1.5 ||\n";
    let t = get_tf_idf(text).unwrap();
    assert_eq!(t.entries[0].values, vec![5, 15]);
}

#[test]
fn index_one_document_per_line() {
    assert_eq!(get_index("doc_a\ndoc_b\n"), vec!["doc_a", "doc_b"]);
    assert_eq!(get_index("doc_a\r\ndoc_b"), vec!["doc_a", "doc_b"]);
    assert_eq!(get_index(""), Vec::<String>::new());
}

#[test]
fn idf_missing_field_is_fatal() {
    let text = "h\ns\ncat\n";
    assert_eq!(get_idf(text).err(), Some(LoadError::MissingField));
}

#[test]
fn idf_bad_weight_is_fatal() {
    assert_eq!(get_idf("h\ns\n| cat | x |\n").err(), Some(LoadError::BadWeight));
    assert_eq!(get_idf("h\ns\n| cat | 1e5 |\n").err(), Some(LoadError::BadWeight));
    assert_eq!(get_idf("h\ns\n| cat | -1 |\n").err(), Some(LoadError::BadWeight));
    assert_eq!(get_idf("h\ns\n| cat | . |\n").err(), Some(LoadError::BadWeight));
    // A mantissa beyond the machine word is refused too.
    assert_eq!(
        get_idf("h\ns\n| cat | 184467440737095516150 |\n").err(),
        Some(LoadError::BadWeight)
    );
}

#[test]
fn idf_weight_overflow_is_fatal() {
    // 2^64 - 1 fits on its own, but not once rescaled to tenths.
    let text = "h\ns\n| cat | 18446744073709551615 |\n| dog | 0.1 |\n";
    assert_eq!(get_idf(text).err(), Some(LoadError::WeightOverflow));
}

#[test]
fn length_mismatch_is_fatal() {
    let idf = "h\ns\n| cat | 1 |\n";
    let mat = "h\ns\n| cat | 1 |\n";
    let index = "doc_a\ndoc_b\n";
    assert_eq!(
        load_corpus(idf, mat, index).err(),
        Some(LoadError::LengthMismatch)
    );
}

#[test]
fn weight_grammar_edges() {
    assert_eq!(parse_weight("5"), Some((5, 0)));
    assert_eq!(parse_weight("5."), Some((5, 0)));
    assert_eq!(parse_weight(".5"), Some((5, 1)));
    assert_eq!(parse_weight("0.50"), Some((50, 2)));
    assert_eq!(parse_weight(""), None);
    assert_eq!(parse_weight("."), None);
    assert_eq!(parse_weight("1.2.3"), None);
    assert_eq!(parse_weight("18446744073709551615"), Some((u64::MAX, 0)));
    assert_eq!(parse_weight("18446744073709551616"), None);
}

#[test]
fn splitting_and_trimming() {
    assert_eq!(split_str("|a|b|", '|'), vec!["", "a", "b", ""]);
    assert_eq!(split_str("", '|'), vec![""]);
    assert_eq!(trim_str("  cat\t"), "cat");
    assert_eq!(trim_str("   "), "");
}
