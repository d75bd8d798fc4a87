use cyx::embedder::{cosine_similarity, Embedder, ModelInfo, ModelRegistry, SCALE};

#[test]
fn test_cosine_similarity_identical() {
    let vec1: Vec<i64> = vec![1, 2, 3];
    let vec2: Vec<i64> = vec![1, 2, 3];
    let sim = cosine_similarity(&vec1, &vec2);
    assert_eq!(sim, SCALE);
}

#[test]
fn test_cosine_similarity_orthogonal() {
    let vec1: Vec<i64> = vec![1, 0, 0];
    let vec2: Vec<i64> = vec![0, 1, 0];
    let sim = cosine_similarity(&vec1, &vec2);
    assert_eq!(sim, 0);
}

#[test]
fn test_cosine_similarity_opposite() {
    let vec1: Vec<i64> = vec![1, 2, 3];
    let vec2: Vec<i64> = vec![-1, -2, -3];
    let sim = cosine_similarity(&vec1, &vec2);
    assert_eq!(sim, -SCALE);
}

#[test]
fn test_cosine_similarity_different_lengths() {
    let vec1: Vec<i64> = vec![1, 2];
    let vec2: Vec<i64> = vec![1, 2, 3];
    let sim = cosine_similarity(&vec1, &vec2);
    assert_eq!(sim, 0);
}

#[test]
fn test_cosine_zero_vector_is_zero() {
    let vec1: Vec<i64> = vec![0, 0, 0];
    let vec2: Vec<i64> = vec![1, 2, 3];
    assert_eq!(cosine_similarity(&vec1, &vec2), 0);
}

#[test]
fn test_embed_is_deterministic_and_normalized() {
    let embedder = Embedder::new_simple(Embedder::get_default_dimensions());
    let a = embedder.embed("nmap syn scan");
    let b = embedder.embed("nmap syn scan");
    assert_eq!(a, b);
    assert_eq!(a.len(), 256);
    assert!(a.iter().all(|&x| 0 <= x && x <= SCALE));
    // a nonempty text embeds to a vector of unit norm: similarity with
    // itself is exactly 1.0
    assert_eq!(cosine_similarity(&a, &b), SCALE);
}

#[test]
fn test_embed_case_insensitive() {
    let embedder = Embedder::new_simple(256);
    let a = embedder.embed("NMAP Scan");
    let b = embedder.embed("nmap scan");
    assert_eq!(a, b);
}

#[test]
fn test_embed_distinguishes_texts() {
    let embedder = Embedder::new_simple(256);
    let a = embedder.embed("nmap syn scan");
    let b = embedder.embed("bake a chocolate cake");
    let sim = cosine_similarity(&a, &b);
    assert!(sim < SCALE);
}

#[test]
fn test_dimensions_accessors() {
    let embedder = Embedder::new_simple(64);
    assert_eq!(embedder.dimensions(), 64);
    assert_eq!(Embedder::get_default_dimensions(), 256);
}

#[test]
fn test_get_model_info_and_listing() {
    let mk = |name: &str, size: u64| ModelInfo {
        name: name.to_string(),
        dimensions: 384,
        size_mb: size,
        description: String::new(),
        hf_repo: String::new(),
        onnx_file: String::new(),
        tokenizer_file: String::new(),
        files: Vec::new(),
    };
    let registry = ModelRegistry {
        models: vec![
            ("large".to_string(), mk("big", 420)),
            ("small".to_string(), mk("little", 90)),
        ],
        default_model: "small".to_string(),
    };
    let info = Embedder::get_model_info(&registry, "small").unwrap();
    assert_eq!(info.name, "little");
    assert!(Embedder::get_model_info(&registry, "enormous").is_err());

    let listed = Embedder::list_available_models(&registry).unwrap();
    assert_eq!(listed.len(), 2);
    assert!(listed[0].1.size_mb <= listed[1].1.size_mb);
    assert_eq!(listed[0].0, "small");
}
