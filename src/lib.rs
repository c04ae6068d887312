//! Similarity-preserving binary fingerprints of strings, with a multi-index
//! for near-duplicate search and a single-hop entity resolution over a pool
//! of fingerprints.

pub mod bit_code;
pub mod bit_code_index;
pub mod bit_code_pool;
pub mod string_codes;
pub mod string_features;
pub mod utils;
