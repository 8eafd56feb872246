//! The analyses: n-gram counting, the n-gram language model and Zipf ranking.

pub mod counter;
pub mod lm;
pub mod ngram;
pub mod tokenizer;
