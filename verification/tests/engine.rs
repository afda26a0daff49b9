use tfidf_index::codec::{decode, encode};
use tfidf_index::extract::{classify_prefix, index_html, FileExtension};
use tfidf_index::freq::FreqMap;
use tfidf_index::index::Index;
use tfidf_index::lexer::{tokenize, Lexer};
use tfidf_index::rank::sort_ranked_desc;

fn chars(s: &str) -> Vec<char> {
    s.chars().collect()
}

fn strings(tokens: &[Vec<char>]) -> Vec<String> {
    tokens.iter().map(|t| t.iter().collect()).collect()
}

/// A total order key for a score: higher scores give higher keys, and an
/// undefined score gets the lowest key, so it ranks last.
fn score_key(score: f64) -> u64 {
    if score.is_nan() {
        return 0;
    }
    let bits = score.to_bits();
    if score >= 0.0 {
        bits | (1u64 << 63)
    } else {
        !bits
    }
}

fn tf(term: &str, map: &FreqMap) -> f64 {
    let k = map.get(&chars(term)) as f64;
    let n = map.total() as f64;
    if n == 0.0 {
        0.0
    } else {
        k / n
    }
}

fn idf(term: &str, ix: &Index) -> f64 {
    let n = ix.len() as f64;
    let m = ix.docs_containing(&chars(term)) as f64;
    ((n + 1.0) / (m + 1.0)).log10()
}

fn score(ix: &Index, doc: usize, query: &str) -> f64 {
    let toks = tokenize(chars(query));
    let parts = ix.doc_score_parts(doc, &toks);
    let mut total = 0.0f64;
    for (k, n, n_docs, m_docs) in parts {
        let tf = if n == 0 { 0.0 } else { k as f64 / n as f64 };
        let idf = ((n_docs as f64 + 1.0) / (m_docs as f64 + 1.0)).log10();
        total += tf * idf;
    }
    total
}

#[test]
fn lexer_splits_alpha_and_numeric_runs() {
    let toks = tokenize(chars("abc123def"));
    assert_eq!(strings(&toks), vec!["abc", "123", "def"]);
}

#[test]
fn lexer_empty_input_has_no_tokens() {
    let toks = tokenize(chars(""));
    assert!(toks.is_empty());
}

#[test]
fn lexer_punctuation_only_has_no_tokens() {
    let toks = tokenize(chars("... !! ??; --"));
    assert!(toks.is_empty());
}

#[test]
fn lexer_discards_whitespace_and_punctuation() {
    let toks = tokenize(chars("  hello, world! 42 times"));
    assert_eq!(strings(&toks), vec!["hello", "world", "42", "times"]);
}

#[test]
fn lexer_is_exhausted_permanently() {
    let mut lexer = Lexer::new(chars("one two"));
    assert!(lexer.next_token().is_some());
    assert!(lexer.next_token().is_some());
    assert!(lexer.next_token().is_none());
    assert!(lexer.next_token().is_none());
}

#[test]
fn lexer_trims_match_step_order() {
    let mut lexer = Lexer::new(chars(" \t!?abc"));
    lexer.trim_whitespace();
    lexer.trim_non_alphanumeric();
    let tok = lexer.tokenise().expect("a token");
    assert_eq!(strings(&[tok]), vec!["abc"]);
}

#[test]
fn accumulator_counts_every_token_once() {
    let m = FreqMap::accumulate(chars("a b a c a b"));
    assert_eq!(m.get(&chars("a")), 3);
    assert_eq!(m.get(&chars("b")), 2);
    assert_eq!(m.get(&chars("c")), 1);
    assert_eq!(m.get(&chars("d")), 0);
    assert_eq!(m.total(), 6);
    assert_eq!(m.len(), 3);
}

#[test]
fn accumulator_total_is_token_count() {
    let text = "the quick brown fox jumps over the lazy dog the end";
    let m = FreqMap::accumulate(chars(text));
    let toks = tokenize(chars(text));
    assert_eq!(m.total(), toks.len() as u64);
}

#[test]
fn tf_is_exact_ratio() {
    let m = FreqMap::accumulate(chars("x x x y"));
    assert_eq!(tf("x", &m), 3.0 / 4.0);
    assert_eq!(tf("y", &m), 1.0 / 4.0);
    assert_eq!(tf("z", &m), 0.0);
}

#[test]
fn tf_of_empty_document_is_zero() {
    let m = FreqMap::new();
    assert_eq!(m.total(), 0);
    assert_eq!(tf("anything", &m), 0.0);
}

#[test]
fn idf_is_exact_smoothed_log() {
    let mut ix = Index::new();
    ix.insert(chars("a"), FreqMap::accumulate(chars("cdk cdk")));
    ix.insert(chars("b"), FreqMap::accumulate(chars("other")));
    // present in one of two documents
    assert_eq!(idf("cdk", &ix), (3.0f64 / 2.0).log10());
    // present in no document: still finite
    assert_eq!(idf("missing", &ix), (3.0f64 / 1.0).log10());
    // present in every document: exactly zero
    ix.insert(chars("b"), FreqMap::accumulate(chars("cdk other")));
    assert_eq!(idf("cdk", &ix), 0.0);
}

#[test]
fn ranking_is_deterministic() {
    let mut ix = Index::new();
    ix.insert(chars("a"), FreqMap::accumulate(chars("cdk layout cdk")));
    ix.insert(chars("b"), FreqMap::accumulate(chars("other words here")));
    let first = (score(&ix, 0, "cdk layout"), score(&ix, 1, "cdk layout"));
    let second = (score(&ix, 0, "cdk layout"), score(&ix, 1, "cdk layout"));
    assert_eq!(first, second);
}

#[test]
fn end_to_end_ranking_scenario() {
    let mut ix = Index::new();
    ix.insert(
        chars("docA"),
        FreqMap::accumulate(chars("cdk cdk layout other other other other other")),
    );
    ix.insert(chars("docB"), FreqMap::accumulate(chars("other other other")));
    assert_eq!(ix.len(), 2);

    let score_a = score(&ix, 0, "cdk layout");
    let score_b = score(&ix, 1, "cdk layout");
    // docA holds both query terms, each in one of two documents
    assert!(tf("cdk", ix.map_at(0)) > 0.0);
    assert!(tf("layout", ix.map_at(0)) > 0.0);
    assert!(idf("cdk", &ix) > 0.0);
    assert!(idf("layout", &ix) > 0.0);
    assert!(score_a > score_b);
    assert_eq!(score_b, 0.0);

    let ranked = vec![
        (chars("docA"), score_key(score_a)),
        (chars("docB"), score_key(score_b)),
    ];
    let sorted = sort_ranked_desc(ranked);
    let top: String = sorted[0].0.iter().collect();
    assert_eq!(top, "docA");
}

#[test]
fn sort_orders_keys_descending_and_keeps_pairs() {
    let v = vec![
        (chars("p"), 3u64),
        (chars("q"), 9u64),
        (chars("r"), 1u64),
        (chars("s"), 9u64),
    ];
    let sorted = sort_ranked_desc(v);
    let keys: Vec<u64> = sorted.iter().map(|p| p.1).collect();
    assert_eq!(keys, vec![9, 9, 3, 1]);
    let mut names: Vec<String> = sorted.iter().map(|p| p.0.iter().collect()).collect();
    names.sort();
    assert_eq!(names, vec!["p", "q", "r", "s"]);
}

#[test]
fn nan_scores_rank_last() {
    assert!(score_key(f64::NAN) < score_key(-1.5));
    assert!(score_key(-1.5) < score_key(0.0));
    assert!(score_key(0.0) < score_key(0.25));
}

#[test]
fn codec_round_trip_preserves_the_record() {
    let m = FreqMap::accumulate(chars("alpha beta alpha 42"));
    let bytes = encode(&m);
    let back = decode(&bytes).expect("a well-formed record");
    assert_eq!(back.get(&chars("alpha")), 2);
    assert_eq!(back.get(&chars("beta")), 1);
    assert_eq!(back.get(&chars("42")), 1);
    assert_eq!(back.total(), 4);
    assert_eq!(back.len(), 3);
    assert_eq!(encode(&back), bytes);
}

#[test]
fn codec_empty_record_round_trips() {
    let m = FreqMap::new();
    let bytes = encode(&m);
    assert!(bytes.is_empty());
    let back = decode(&bytes).expect("the empty record");
    assert_eq!(back.len(), 0);
}

#[test]
fn decode_refuses_truncated_record() {
    let m = FreqMap::accumulate(chars("word"));
    let mut bytes = encode(&m);
    bytes.pop();
    assert!(decode(&bytes).is_err());
}

#[test]
fn decode_refuses_trailing_garbage() {
    let m = FreqMap::accumulate(chars("word"));
    let mut bytes = encode(&m);
    bytes.push(7);
    assert!(decode(&bytes).is_err());
}

#[test]
fn decode_refuses_invalid_codepoint() {
    // one entry: term length 1, a surrogate value, count 1
    let mut bytes = Vec::new();
    bytes.extend_from_slice(&1u64.to_le_bytes());
    bytes.extend_from_slice(&0xD800u64.to_le_bytes());
    bytes.extend_from_slice(&1u64.to_le_bytes());
    assert!(decode(&bytes).is_err());
}

#[test]
fn decode_refuses_zero_count() {
    let mut bytes = Vec::new();
    bytes.extend_from_slice(&1u64.to_le_bytes());
    bytes.extend_from_slice(&('a' as u64).to_le_bytes());
    bytes.extend_from_slice(&0u64.to_le_bytes());
    assert!(decode(&bytes).is_err());
}

#[test]
fn decode_refuses_duplicate_terms() {
    let mut bytes = Vec::new();
    for _ in 0..2 {
        bytes.extend_from_slice(&1u64.to_le_bytes());
        bytes.extend_from_slice(&('a' as u64).to_le_bytes());
        bytes.extend_from_slice(&1u64.to_le_bytes());
    }
    assert!(decode(&bytes).is_err());
}

#[test]
fn load_reads_every_record_back() {
    let ma = FreqMap::accumulate(chars("cdk cdk layout"));
    let mb = FreqMap::accumulate(chars("other"));
    let records = vec![(chars("a"), encode(&ma)), (chars("b"), encode(&mb))];
    let ix = Index::load_index(records).expect("a well-formed store");
    assert_eq!(ix.len(), 2);
    assert_eq!(ix.map_at(0).get(&chars("cdk")), 2);
    assert_eq!(ix.map_at(1).get(&chars("other")), 1);
}

#[test]
fn load_fails_fatally_on_a_malformed_record() {
    let ma = FreqMap::accumulate(chars("cdk"));
    let mut bad = encode(&ma);
    bad.pop();
    let records = vec![(chars("good"), encode(&ma)), (chars("bad"), bad)];
    assert!(Index::load_index(records).is_err());
}

#[test]
fn load_overwrites_a_reindexed_path() {
    let ma = FreqMap::accumulate(chars("first"));
    let mb = FreqMap::accumulate(chars("second second"));
    let records = vec![(chars("doc"), encode(&ma)), (chars("doc"), encode(&mb))];
    let ix = Index::load_index(records).expect("a well-formed store");
    assert_eq!(ix.len(), 1);
    assert_eq!(ix.map_at(0).get(&chars("second")), 2);
    assert_eq!(ix.map_at(0).get(&chars("first")), 0);
}

#[test]
fn classify_recognises_the_signatures() {
    assert_eq!(classify_prefix(&b"%PDF".to_vec()), Some(FileExtension::PDF));
    assert_eq!(classify_prefix(&b"<xml".to_vec()), Some(FileExtension::XML));
    assert_eq!(classify_prefix(&b"<?xm".to_vec()), Some(FileExtension::XML));
    assert_eq!(classify_prefix(&b"<htm".to_vec()), Some(FileExtension::HTML));
    assert_eq!(classify_prefix(&b"plai".to_vec()), None);
    assert_eq!(classify_prefix(&b"%PD".to_vec()), None);
}

#[test]
fn html_indexing_counts_only_body_text() {
    let html = "<html><head><title>skip me</title></head>\
                <body><p>hello world</p><p>hello again</p></body></html>";
    let m = index_html(&chars(html)).expect("tokens in the body");
    assert_eq!(m.get(&chars("hello")), 2);
    assert_eq!(m.get(&chars("world")), 1);
    assert_eq!(m.get(&chars("again")), 1);
    // nothing of the markup itself is indexed
    assert_eq!(m.get(&chars("body")), 0);
    assert_eq!(m.get(&chars("title")), 0);
    assert_eq!(m.get(&chars("skip")), 0);
}

#[test]
fn html_without_body_text_yields_nothing() {
    let m = index_html(&chars("<html><body></body></html>"));
    assert!(m.is_none());
}
