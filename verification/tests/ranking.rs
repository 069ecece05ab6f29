use tfidf_rank::corpus::load_corpus;
use tfidf_rank::rank::{count_token, rank_query, vectorize, RankError, RankedDoc};
use tfidf_rank::tokens::{configured_stop_words, filter_tokens, valid_token};

fn strings(words: &[&str]) -> Vec<String> {
    words.iter().map(|w| w.to_string()).collect()
}

/// The score a ranked entry denotes: dot / sqrt(norm_sq * query_norm_sq).
fn score_of(r: &RankedDoc, query_norm_sq: u128) -> f64 {
    if r.dot == 0 {
        0.0
    } else {
        r.dot as f64 / ((r.norm_sq as f64).sqrt() * (query_norm_sq as f64).sqrt())
    }
}

#[test]
fn end_to_end_example() {
    let idf = "| t | w |\n|---|---|\n| cat | 0.5 |\n| dog | 1.0 |\n";
    let mat = "| t | a | b |\n|---|---|---|\n| cat | 0.5 | 0.0 |\n| dog | 0.0 | 1.0 |\n";
    let index = "doc_a\ndoc_b\n";
    let corpus = load_corpus(idf, mat, index).unwrap();
    let tokens = strings(&["cat", "cat"]);
    let (res, qn) = rank_query(&corpus, &tokens, &Vec::new()).unwrap();
    assert_eq!(res.len(), 2);
    assert_eq!(res[0].doc, "doc_a");
    assert_eq!(res[1].doc, "doc_b");
    assert_eq!(score_of(&res[0], qn), 1.0);
    assert_eq!(score_of(&res[1], qn), 0.0);
}

#[test]
fn empty_query_yields_empty_output() {
    let idf = "h\ns\n| cat | 0.5 |\n";
    let mat = "h\ns\n| cat | 0.5 |\n";
    let corpus = load_corpus(idf, mat, "doc_a\n").unwrap();
    // Every raw token is filtered out: lone space, punctuation, stop word.
    let tokens = strings(&[" ", "...", "the"]);
    let stop = strings(&["the"]);
    let (res, _) = rank_query(&corpus, &tokens, &stop).unwrap();
    assert!(res.is_empty());
}

#[test]
fn zero_vector_document_scores_zero() {
    let idf = "h\ns\n| cat | 1 |\n";
    let mat = "h\ns\n| cat | 1 | 0 |\n";
    let corpus = load_corpus(idf, mat, "doc_a\ndoc_b\n").unwrap();
    let (res, qn) = rank_query(&corpus, &strings(&["cat"]), &Vec::new()).unwrap();
    assert_eq!(res[0].doc, "doc_a");
    assert_eq!(res[1].doc, "doc_b");
    assert_eq!(res[1].dot, 0);
    let s = score_of(&res[1], qn);
    assert_eq!(s, 0.0);
    assert!(!s.is_nan());
}

#[test]
fn ordering_is_descending_with_ordinal_tie_break() {
    let idf = "h\ns\n| cat | 1 |\n| dog | 1 |\n";
    // Documents 0 and 2 tie exactly; document 1 scores higher on "cat".
    let mat = "h\ns\n| cat | 1 | 3 | 1 |\n| dog | 2 | 1 | 2 |\n";
    let corpus = load_corpus(idf, mat, "d0\nd1\nd2\n").unwrap();
    let (res, qn) = rank_query(&corpus, &strings(&["cat"]), &Vec::new()).unwrap();
    let scores: Vec<f64> = res.iter().map(|r| score_of(r, qn)).collect();
    assert!(scores[0] >= scores[1] && scores[1] >= scores[2]);
    // With non-negative weights every score lies in [0, 1].
    for s in &scores {
        assert!(0.0 <= *s && *s <= 1.0 + 1e-12);
    }
    assert_eq!(res[0].doc, "d1");
    // The tie is broken by ascending ordinal.
    assert_eq!(res[1].doc, "d0");
    assert_eq!(res[2].doc, "d2");
}

#[test]
fn query_vector_spans_whole_vocabulary() {
    let idf = "h\ns\n| cat | 0.5 |\n| dog | 1.0 |\n";
    let corpus = load_corpus(idf, "h\ns\n| cat | 1 | 1 |\n", "a\nb\n").unwrap();
    // A query entirely outside the vocabulary still yields a full-size,
    // all-zero weight vector.
    let qv = vectorize(&strings(&["bird"]), &corpus.idf);
    assert_eq!(qv, vec![0, 0]);
    // A query with one known term weighs exactly that coordinate.
    let qv = vectorize(&strings(&["cat", "bird", "cat"]), &corpus.idf);
    assert_eq!(qv, vec![10, 0]);
}

#[test]
fn token_filter_rules() {
    let stop = strings(&["the", "and"]);
    assert!(!valid_token(&" ".to_string(), &stop));
    assert!(!valid_token(&"...".to_string(), &stop));
    // The empty token is not a punctuation token: it passes through.
    assert!(valid_token(&"".to_string(), &stop));
    assert!(!valid_token(&"the".to_string(), &stop));
    assert!(valid_token(&"cat".to_string(), &stop));
    let tokens = strings(&["cat", " ", "", "the", "dog", "!?", "and", "cat"]);
    assert_eq!(
        filter_tokens(&tokens, &stop),
        strings(&["cat", "", "dog", "cat"])
    );
}

#[test]
fn configured_stop_words_are_russian() {
    let stop = configured_stop_words();
    assert!(!stop.is_empty());
    assert!(stop.iter().any(|w| w == "\u{0438}")); // "и"
    assert!(!valid_token(&"\u{0438}".to_string(), &stop));
}

#[test]
fn counting_terms() {
    let tokens = strings(&["a", "b", "a", "a"]);
    assert_eq!(count_token(&tokens, &"a".to_string()), 3);
    assert_eq!(count_token(&tokens, &"b".to_string()), 1);
    assert_eq!(count_token(&tokens, &"c".to_string()), 0);
    // Term frequencies over the stream's own distinct terms sum to one.
    let total = count_token(&tokens, &"a".to_string()) + count_token(&tokens, &"b".to_string());
    assert_eq!(total, tokens.len());
    assert_eq!(3.0 / 4.0 + 1.0 / 4.0, 1.0);
}

#[test]
fn oversized_sums_are_reported_not_wrapped() {
    let idf = "h\ns\n| cat | 18446744073709551615 |\n";
    let mat = "h\ns\n| cat | 18446744073709551615 |\n";
    let corpus = load_corpus(idf, mat, "doc_a\n").unwrap();
    assert_eq!(
        rank_query(&corpus, &strings(&["cat"]), &Vec::new()).err(),
        Some(RankError::Overflow)
    );
}
