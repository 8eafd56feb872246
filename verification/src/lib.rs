//! Corpus statistics over plain text: n-gram counting, n-gram language
//! model counts, stopword handling, word ranking, count formatting and the
//! integer cores of the analysis commands.

pub mod tables;
pub mod text;
pub mod analysis;
pub mod utils;
pub mod commands;
