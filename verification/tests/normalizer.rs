use cyx::normalizer::{NormalizationConfig, QueryNormalizer};

fn test_lexicons() -> (Vec<(String, String)>, Vec<String>) {
    let abbreviations = vec![
        ("nmap".to_string(), "network mapper nmap".to_string()),
        ("syn".to_string(), "stealth synchronize".to_string()),
        ("sqli".to_string(), "sql injection".to_string()),
        ("privesc".to_string(), "privilege escalation".to_string()),
    ];
    let stopwords = vec![
        "show".to_string(),
        "me".to_string(),
        "how".to_string(),
        "to".to_string(),
        "the".to_string(),
        "a".to_string(),
        "an".to_string(),
        "do".to_string(),
        "for".to_string(),
    ];
    (abbreviations, stopwords)
}

fn create_test_normalizer() -> QueryNormalizer {
    let (abbreviations, stopwords) = test_lexicons();
    QueryNormalizer::with_defaults(abbreviations, stopwords)
}

#[test]
fn test_lowercase() {
    let normalizer = create_test_normalizer();
    let result = normalizer.normalize("Show Me NMAP Scan").unwrap();
    assert_eq!(result, "network mapper nmap scan");
}

#[test]
fn test_abbreviation_expansion() {
    let normalizer = create_test_normalizer();
    let result = normalizer.normalize("nmap syn scan").unwrap();
    assert_eq!(result, "network mapper nmap stealth synchronize scan");
}

#[test]
fn test_stopword_removal() {
    let normalizer = create_test_normalizer();
    let result = normalizer.normalize("show me how to use nmap").unwrap();
    assert_eq!(result, "use network mapper nmap");
}

#[test]
fn test_punctuation_removal() {
    let mut config = NormalizationConfig::default();
    config.remove_punctuation = true;
    config.remove_stopwords = false;

    let normalizer = QueryNormalizer::new(config, Vec::new(), Vec::new());

    let result = normalizer.normalize("nmap --syn scan!!!").unwrap();
    assert_eq!(result, "nmap --syn scan");
}

#[test]
fn test_whitespace_normalization() {
    let normalizer = create_test_normalizer();
    let result = normalizer.normalize("nmap    scan      target").unwrap();
    assert_eq!(result, "network mapper nmap scan target");
}

#[test]
fn test_complex_query() {
    let normalizer = create_test_normalizer();
    let result = normalizer
        .normalize("Show me how to do an nmap SYN scan for sqli testing")
        .unwrap();
    assert_eq!(
        result,
        "network mapper nmap stealth synchronize scan sql injection testing"
    );
}

#[test]
fn test_hash_consistency() {
    let normalizer = create_test_normalizer();
    let query = "nmap scan";
    let normalized = normalizer.normalize(query).unwrap();
    let hash1 = normalizer.compute_hash(&normalized);
    let hash2 = normalizer.compute_hash(&normalized);
    assert_eq!(hash1, hash2);
}

#[test]
fn test_similar_queries_same_hash() {
    let normalizer = create_test_normalizer();

    let query1 = "show me nmap scan";
    let query2 = "Show Me NMAP Scan";
    let query3 = "nmap scan";

    let norm1 = normalizer.normalize(query1).unwrap();
    let norm2 = normalizer.normalize(query2).unwrap();
    let norm3 = normalizer.normalize(query3).unwrap();

    let hash1 = normalizer.compute_hash(&norm1);
    let hash2 = normalizer.compute_hash(&norm2);
    let hash3 = normalizer.compute_hash(&norm3);

    assert_eq!(hash1, hash2);
    assert_eq!(hash2, hash3);
}

#[test]
fn test_different_queries_different_hash() {
    let normalizer = create_test_normalizer();

    let query1 = "nmap scan";
    let query2 = "nmap privesc";

    let norm1 = normalizer.normalize(query1).unwrap();
    let norm2 = normalizer.normalize(query2).unwrap();

    let hash1 = normalizer.compute_hash(&norm1);
    let hash2 = normalizer.compute_hash(&norm2);

    assert_ne!(hash1, hash2);
}

#[test]
fn test_empty_query() {
    let normalizer = create_test_normalizer();
    let result = normalizer.normalize("").unwrap();
    assert_eq!(result, "");
}

#[test]
fn test_only_stopwords() {
    let normalizer = create_test_normalizer();
    let result = normalizer.normalize("show me how to the a").unwrap();
    assert_eq!(result, "");
}

#[test]
fn test_hash_is_fixed_width_hex() {
    let normalizer = create_test_normalizer();
    let hash = normalizer.compute_hash("anything at all");
    assert_eq!(hash.len(), 16);
    assert!(hash.chars().all(|c| c.is_ascii_hexdigit()));
}

#[test]
fn test_surrounding_whitespace_ignored() {
    let normalizer = create_test_normalizer();
    let a = normalizer.normalize("   nmap scan   ").unwrap();
    let b = normalizer.normalize("nmap scan").unwrap();
    assert_eq!(a, b);
    assert_eq!(
        normalizer.compute_hash(&a),
        normalizer.compute_hash(&b)
    );
}

#[test]
fn test_token_keeps_punctuation_when_unmatched() {
    let normalizer = create_test_normalizer();
    // "nmap," is looked up as "nmap" but kept verbatim when the stripped
    // token matches: the expansion replaces the whole token.
    let result = normalizer.normalize("nmap, scan").unwrap();
    assert_eq!(result, "network mapper nmap scan");
}
