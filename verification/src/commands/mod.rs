//! The analysis commands: each computes the figures of one report from a text.

pub mod entropy;
pub mod ngrams;
pub mod perplexity;
pub mod stats;
pub mod zipf;
