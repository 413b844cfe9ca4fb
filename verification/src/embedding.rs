//! Where the embedding server is and what it serves.

use vstd::prelude::*;

verus! {

/// Configuration for the embedding server.
#[derive(Debug)]
pub struct EmbeddingConfig {
    pub url: String,
    pub model: String,
    pub dimensions: usize,
}

impl Default for EmbeddingConfig {
    fn default() -> (r: Self)
        ensures
            r.url@ == "http://localhost:8081"@,
            r.model@ == "nomic-embed-text-v1.5"@,
            r.dimensions == 768,
    {
        EmbeddingConfig {
            url: "http://localhost:8081".to_string(),
            model: "nomic-embed-text-v1.5".to_string(),
            dimensions: 768,
        }
    }
}

} // verus!
