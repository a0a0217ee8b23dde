//! Near-duplicate clustering of text records with MinHash signatures and
//! banded locality-sensitive hashing.

pub mod callback;
pub mod csv_input;
pub mod csv_output;
pub mod dto;
pub mod error;
pub mod minhash;
pub mod lsh;
pub mod dedup;
pub mod pipeline;
pub mod text;
