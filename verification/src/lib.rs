//! Verified core of the ingest pipeline.

pub mod chatgpt;
pub mod detect;
pub mod dir_ingest;
pub mod file_ingest;
pub mod ingest;
pub mod json;
pub mod laws;
pub mod normalize;
pub mod paths;
pub mod text;
pub mod transcript;
