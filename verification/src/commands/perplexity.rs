//! Language model report: the model trained on a text, and its statistics;
//! the perplexity itself is a floating-point computation over the model.

use crate::analysis::lm::{LMStats, NgramLM};
use crate::analysis::ngram::ngram_counts;
use crate::analysis::tokenizer::{as_strs, unicode_words, words};
use crate::text::string_views;
use vstd::prelude::*;

verus! {

/// A language model trained on a text, with the text's words and the
/// model's statistics.
pub struct PerplexityReport {
    /// The name of the analysed source.
    pub source: String,
    /// The words of the text, which the model is trained on and scores.
    pub words: Vec<String>,
    /// The model of order `max(order, 1)` trained on `words`.
    pub model: NgramLM,
    /// The model's statistics.
    pub stats: LMStats,
}

/// Trains an n-gram model of the given order on the words of a text.
pub fn run(text: &str, source_name: &str, order: usize) -> (r: PerplexityReport)
    ensures
        r.source@ == source_name@,
        string_views(r.words@) == unicode_words(text@),
        r.model.spec_order() == if order < 1 { 1 } else { order as nat },
        forall|i: int|
            0 <= i < r.model.spec_order() ==> #[trigger] r.model.table(i) == ngram_counts(
                unicode_words(text@),
                (i + 1) as nat,
            ),
        r.model.total_unigrams() == unicode_words(text@).len(),
        r.stats.order == r.model.spec_order(),
        r.stats.vocab_size == ngram_counts(unicode_words(text@), 1).dom().len(),
        r.stats.ngram_counts@.len() == r.model.spec_order(),
        forall|i: int|
            0 <= i < r.stats.ngram_counts@.len() ==> #[trigger] r.stats.ngram_counts@[i]
                == ngram_counts(unicode_words(text@), (i + 1) as nat).dom().len(),
{
    let ws = words(text);
    let model = {
        let strs = as_strs(&ws);
        NgramLM::train(strs.as_slice(), order)
    };
    let stats = model.stats();
    PerplexityReport { source: source_name.to_owned(), words: ws, model, stats }
}

} // verus!
