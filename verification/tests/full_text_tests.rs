use harmony::full_text::{tokenize, IndexConfig, InvertedIndex};

fn config(tokenizer: &str, case_sensitive: bool, min_len: usize) -> IndexConfig {
    IndexConfig {
        index_id: "idx".to_string(),
        property_name: "content".to_string(),
        tokenizer: tokenizer.to_string(),
        case_sensitive,
        min_token_length: min_len,
        max_results: 100,
    }
}

#[test]
fn test_tokenize_alphanumeric_lowercases_and_splits() {
    let tokens = tokenize("Hello, World! x42", &config("alphanumeric", false, 2));
    assert_eq!(tokens, vec!["hello", "world", "x42"]);
}

#[test]
fn test_tokenize_whitespace_keeps_punctuation() {
    let tokens = tokenize("Hello, World!", &config("whitespace", false, 2));
    assert_eq!(tokens, vec!["hello,", "world!"]);
}

#[test]
fn test_tokenize_case_sensitive_keeps_case() {
    let tokens = tokenize("Hello World", &config("whitespace", true, 2));
    assert_eq!(tokens, vec!["Hello", "World"]);
}

#[test]
fn test_tokenize_min_length_filters() {
    let tokens = tokenize("a bb ccc", &config("whitespace", false, 3));
    assert_eq!(tokens, vec!["ccc"]);
}

#[test]
fn test_tokenize_ngram_trigrams() {
    let tokens = tokenize("abcde", &config("ngram", false, 2));
    assert_eq!(tokens, vec!["abc", "bcd", "cde"]);

    let short = tokenize("ab", &config("ngram", false, 2));
    assert!(short.is_empty());
}

#[test]
fn test_tokenize_unknown_tokenizer_falls_back_to_whitespace() {
    let tokens = tokenize("one two", &config("something-else", false, 2));
    assert_eq!(tokens, vec!["one", "two"]);
}

#[test]
fn test_inverted_index_add_and_lookup() {
    let mut index = InvertedIndex::new();
    index.add_document(
        "doc1".to_string(),
        vec!["audio".to_string(), "gain".to_string(), "audio".to_string()],
        "audio gain audio".to_string(),
    );
    index.add_document(
        "doc2".to_string(),
        vec!["audio".to_string()],
        "audio".to_string(),
    );

    assert_eq!(index.doc_count(), 2);
    assert_eq!(
        index.nodes_for_token(&"audio".to_string()),
        vec!["doc1".to_string(), "doc1".to_string(), "doc2".to_string()]
    );
    assert_eq!(index.token_count_in_node(&"doc1".to_string(), &"audio".to_string()), 2);
    assert_eq!(index.token_count_in_node(&"doc2".to_string(), &"gain".to_string()), 0);
}

#[test]
fn test_inverted_index_replaces_document() {
    let mut index = InvertedIndex::new();
    index.add_document("doc1".to_string(), vec!["old".to_string()], "old".to_string());
    index.add_document("doc1".to_string(), vec!["new".to_string()], "new".to_string());

    assert_eq!(index.doc_count(), 1);
    assert!(index.nodes_for_token(&"old".to_string()).is_empty());
    assert_eq!(index.nodes_for_token(&"new".to_string()), vec!["doc1".to_string()]);
}

#[test]
fn test_inverted_index_remove_document() {
    let mut index = InvertedIndex::new();
    index.add_document(
        "doc1".to_string(),
        vec!["shared".to_string(), "only1".to_string()],
        "shared only1".to_string(),
    );
    index.add_document("doc2".to_string(), vec!["shared".to_string()], "shared".to_string());

    index.remove_document(&"doc1".to_string());

    assert_eq!(index.doc_count(), 1);
    assert!(index.nodes_for_token(&"only1".to_string()).is_empty());
    assert_eq!(index.nodes_for_token(&"shared".to_string()), vec!["doc2".to_string()]);
}

#[test]
fn test_inverted_index_clear() {
    let mut index = InvertedIndex::new();
    index.add_document("doc1".to_string(), vec!["x".to_string()], "x".to_string());
    index.clear();
    assert_eq!(index.doc_count(), 0);
    assert!(index.nodes_for_token(&"x".to_string()).is_empty());
}
