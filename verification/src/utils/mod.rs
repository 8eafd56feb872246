//! Helpers around the analyses.

pub mod format;
pub mod stopwords;
