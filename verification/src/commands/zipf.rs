//! Zipf's law report: the rank-frequency distribution of the words.

use crate::analysis::counter::{entries_view, is_top_n, lemma_top_n_complete, top_n, word_frequencies};
use crate::analysis::ngram::{lemma_ngram_counts_bounds, ngram_counts};
use crate::analysis::tokenizer::unicode_words;
use crate::tables::table_len;
use vstd::prelude::*;

verus! {

/// The figures of a Zipf report.
pub struct ZipfReport {
    /// The name of the analysed source.
    pub source: String,
    /// Every distinct word with its count, most frequent first (ties by word).
    pub ranked: Vec<(String, usize)>,
    /// (rank, count) for each entry of `ranked`, ranks counted from 1.
    pub rank_freq: Vec<(usize, usize)>,
    /// The number of distinct words.
    pub vocab_size: usize,
    /// How many ranked words the report shows: `top`, or all when fewer.
    pub display_count: usize,
}

/// The rank-frequency distribution of the words of a text.
pub fn run(text: &str, source_name: &str, top: usize) -> (r: ZipfReport)
    ensures
        ({
            let t = ngram_counts(unicode_words(text@), 1);
            &&& r.source@ == source_name@
            &&& r.vocab_size == t.dom().len()
            &&& is_top_n(t, r.vocab_size as nat, entries_view(r.ranked@))
            &&& r.ranked@.len() == r.vocab_size
            &&& forall|k: Seq<char>|
                #[trigger] t.contains_key(k) ==> exists|i: int|
                    0 <= i < r.ranked@.len() && r.ranked@[i].0@ == k
            &&& r.rank_freq@.len() == r.ranked@.len()
            &&& forall|i: int|
                0 <= i < r.rank_freq@.len() ==> (#[trigger] r.rank_freq@[i]).0 == i + 1
                    && r.rank_freq@[i].1 == r.ranked@[i].1
            &&& r.display_count == if top < r.ranked@.len() {
                top as nat
            } else {
                r.ranked@.len()
            }
        }),
{
    let freqs = word_frequencies(text);
    let vocab_size = table_len(&freqs);
    let ranked = top_n(&freqs, vocab_size);
    proof {
        let t = ngram_counts(unicode_words(text@), 1);
        let s = entries_view(ranked@);
        lemma_ngram_counts_bounds(unicode_words(text@), 1);
        lemma_top_n_complete(t, s);
        assert forall|k: Seq<char>| #[trigger] t.contains_key(k) implies exists|i: int|
            0 <= i < ranked@.len() && ranked@[i].0@ == k by {
            let i = choose|i: int| 0 <= i < s.len() && s[i].0 == k;
            assert(s[i] == (ranked@[i].0@, ranked@[i].1 as nat));
        }
    }
    let mut rank_freq: Vec<(usize, usize)> = Vec::new();
    let mut i: usize = 0;
    while i < ranked.len()
        invariant
            i <= ranked@.len(),
            rank_freq@.len() == i,
            forall|j: int|
                0 <= j < i ==> (#[trigger] rank_freq@[j]).0 == j + 1 && rank_freq@[j].1
                    == ranked@[j].1,
        decreases ranked@.len() - i,
    {
        rank_freq.push((i + 1, ranked[i].1));
        i += 1;
    }
    let display_count = if top < ranked.len() {
        top
    } else {
        ranked.len()
    };
    ZipfReport { source: source_name.to_owned(), ranked, rank_freq, vocab_size, display_count }
}

} // verus!
