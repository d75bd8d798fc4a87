//! Semantic query cache for a command-line assistant.
//!
//! The crate canonicalizes raw query text (`normalizer`), maps normalized
//! text to a fixed-length feature vector (`embedder`), and keeps answered
//! queries in a persistent store with exact-hash and cosine-similarity
//! lookup (`storage`).  Similarity arithmetic is carried out in
//! fixed-point integers with scale `embedder::SCALE`, so that every step
//! is deterministic and verifiable.

pub mod chars;
pub mod cli;
pub mod normalizer;
pub mod search;
pub mod session;
pub mod storage;
pub mod strhash;
pub mod textnum;
pub mod update;
pub mod codec;
pub mod config;
pub mod deps;
pub mod embedder;
pub mod error;
