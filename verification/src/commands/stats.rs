//! Corpus statistics report.

use crate::analysis::counter::{count_total, hapax_count, hapax_keys, word_frequencies};
use crate::analysis::ngram::{lemma_ngram_counts_bounds, ngram_counts};
use crate::analysis::tokenizer::{char_count, sentence_count, unicode_sentences, unicode_words};
use crate::tables::table_len;
use vstd::prelude::*;

verus! {

/// The counts of a statistics report.
pub struct StatsReport {
    /// The name of the analysed source.
    pub source: String,
    /// The number of words.
    pub tokens: usize,
    /// The number of distinct words.
    pub types: usize,
    /// The number of words that occur exactly once.
    pub hapax: usize,
    /// The number of characters.
    pub chars: usize,
    /// The number of sentences.
    pub sentences: usize,
}

/// The statistics of a text: its word count, distinct word count, the
/// number of words that occur once, its character count and its sentence
/// count.
pub fn run(text: &str, source_name: &str) -> (r: StatsReport)
    ensures
        r.source@ == source_name@,
        r.tokens == unicode_words(text@).len(),
        r.types == ngram_counts(unicode_words(text@), 1).dom().len(),
        r.hapax == hapax_keys(ngram_counts(unicode_words(text@), 1)).len(),
        r.hapax == Set::new(
            |k: Seq<char>|
                ngram_counts(unicode_words(text@), 1).contains_key(k) && ngram_counts(
                    unicode_words(text@),
                    1,
                )[k] == 1,
        ).len(),
        r.chars == text@.len(),
        r.sentences == unicode_sentences(text@).len(),
{
    let freqs = word_frequencies(text);
    let ghost ws = unicode_words(text@);
    let chars = char_count(text);
    let sentences = sentence_count(text);
    let tokens = count_total(&freqs, Ghost(ws), Ghost(1));
    let types = table_len(&freqs);
    let hapax = hapax_count(&freqs);
    StatsReport { source: source_name.to_owned(), tokens, types, hapax, chars, sentences }
}

/// A text has no more distinct words than words, and no more words that
/// occur once than distinct words: both the type-token ratio and the share
/// of hapax legomena among the types are at most 1.
pub proof fn lemma_stats_bounds(text: Seq<char>)
    ensures
        hapax_keys(ngram_counts(unicode_words(text), 1)).len() <= ngram_counts(
            unicode_words(text),
            1,
        ).dom().len(),
        ngram_counts(unicode_words(text), 1).dom().len() <= unicode_words(text).len(),
{
    let t = ngram_counts(unicode_words(text), 1);
    lemma_ngram_counts_bounds(unicode_words(text), 1);
    t.dom().lemma_len_filter(|k: Seq<char>| t[k] == 1);
}

} // verus!
