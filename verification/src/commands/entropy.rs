//! Information-theoretic report: the count tables from which the unigram,
//! bigram and trigram entropies are computed.

use crate::analysis::counter::word_frequencies;
use crate::analysis::ngram::{ngram_counts, ngram_frequencies};
use crate::analysis::tokenizer::{as_strs, unicode_words, words};
use crate::tables::{table_contents, table_len};
use rustc_hash::FxHashMap;
use vstd::prelude::*;

verus! {

/// The count tables of an entropy report.
pub struct EntropyReport {
    /// The name of the analysed source.
    pub source: String,
    /// Word counts.
    pub unigrams: FxHashMap<String, usize>,
    /// Counts of pairs of consecutive words.
    pub bigrams: FxHashMap<String, usize>,
    /// Counts of triples of consecutive words.
    pub trigrams: FxHashMap<String, usize>,
    /// The number of distinct words.
    pub vocab_size: usize,
}

/// The unigram, bigram and trigram count tables of a text, and its number
/// of distinct words.
pub fn run(text: &str, source_name: &str) -> (r: EntropyReport)
    ensures
        r.source@ == source_name@,
        table_contents(r.unigrams) == ngram_counts(unicode_words(text@), 1),
        table_contents(r.bigrams) == ngram_counts(unicode_words(text@), 2),
        table_contents(r.trigrams) == ngram_counts(unicode_words(text@), 3),
        r.vocab_size == ngram_counts(unicode_words(text@), 1).dom().len(),
{
    let unigrams = word_frequencies(text);
    let ws = words(text);
    let strs = as_strs(&ws);
    let bigrams = ngram_frequencies(strs.as_slice(), 2);
    let trigrams = ngram_frequencies(strs.as_slice(), 3);
    let vocab_size = table_len(&unigrams);
    EntropyReport { source: source_name.to_owned(), unigrams, bigrams, trigrams, vocab_size }
}

} // verus!
