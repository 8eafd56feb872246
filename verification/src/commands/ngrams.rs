//! N-gram frequency report.

use crate::analysis::counter::{
    at_least, count_total, entries_view, is_top_n, lemma_ngram_counts_partial_total,
    lemma_ranked_keys_distinct, sum_counts, top_n_at_least,
};
use crate::analysis::ngram::{ngram_counts, ngram_frequencies, str_views, window_count};
use crate::analysis::tokenizer::{as_strs, unicode_words, words};
use crate::tables::set_contents;
use crate::text::{lowercase, string_views, to_lowercase};
use crate::utils::stopwords::{filter_words, without_stopwords};
use rustc_hash::FxHashSet;
use vstd::prelude::*;
use vstd::string::StringExecFns;

verus! {

/// Why an n-gram report cannot be made.
#[derive(Debug, PartialEq, Eq, Structural)]
pub enum NgramError {
    /// The n-gram size is 0; it must be at least 1.
    SizeTooSmall,
}

/// The figures of an n-gram report.
pub struct NgramReport {
    /// The name of the analysed source.
    pub source: String,
    /// The heading of the n-gram column.
    pub label: String,
    /// The number of n-grams in the text (the sum of all their counts).
    pub total: usize,
    /// The most frequent n-grams with their counts, most frequent first.
    pub rows: Vec<(String, usize)>,
}

/// The words an n-gram report counts: the words of the text, without
/// stopwords when a list is given, lowercased when case is ignored.
pub open spec fn prepared_words(
    text: Seq<char>,
    case_insensitive: bool,
    stopwords: Option<&FxHashSet<String>>,
) -> Seq<Seq<char>> {
    let ws = unicode_words(text);
    let kept = match stopwords {
        Some(s) => without_stopwords(ws, set_contents(*s)),
        None => ws,
    };
    if case_insensitive {
        kept.map_values(|w: Seq<char>| lowercase(w))
    } else {
        kept
    }
}

/// The heading of the n-gram column for n-grams of size `n`.
pub open spec fn ngram_label(n: nat) -> Seq<char> {
    if n == 1 {
        "Unigram"@
    } else if n == 2 {
        "Bigram"@
    } else if n == 3 {
        "Trigram"@
    } else {
        "N-gram"@
    }
}

fn label_for(n: usize) -> (label: String)
    ensures
        label@ == ngram_label(n as nat),
{
    match n {
        1 => String::from_str("Unigram"),
        2 => String::from_str("Bigram"),
        3 => String::from_str("Trigram"),
        _ => String::from_str("N-gram"),
    }
}

fn lowercase_all(ws: &[&str]) -> (r: Vec<String>)
    ensures
        string_views(r@) == str_views(ws@).map_values(|w: Seq<char>| lowercase(w)),
{
    let mut r: Vec<String> = Vec::new();
    let mut i: usize = 0;
    while i < ws.len()
        invariant
            i <= ws@.len(),
            r@.len() == i,
            forall|j: int| 0 <= j < i ==> #[trigger] r@[j]@ == lowercase(ws@[j]@),
        decreases ws@.len() - i,
    {
        r.push(to_lowercase(ws[i]));
        i += 1;
    }
    assert(string_views(r@) =~= str_views(ws@).map_values(|w: Seq<char>| lowercase(w)));
    r
}

/// The n-gram report of a text: the n-grams of size `n` of its words (after
/// removing stopwords and folding case, when asked), those counted at least
/// `min_freq` times, ranked by count (ties by n-gram) and cut to `top`.
/// An n-gram size of 0 is refused.
pub fn run(
    text: &str,
    source_name: &str,
    n: usize,
    top: usize,
    min_freq: Option<usize>,
    case_insensitive: bool,
    stopwords: Option<&FxHashSet<String>>,
) -> (r: Result<NgramReport, NgramError>)
    ensures
        n == 0 <==> r is Err,
        r is Err ==> r == Err::<NgramReport, NgramError>(NgramError::SizeTooSmall),
        r matches Ok(report) ==> {
            let ws = prepared_words(text@, case_insensitive, stopwords);
            let min = match min_freq {
                Some(m) => m as nat,
                None => 0,
            };
            &&& report.source@ == source_name@
            &&& report.label@ == ngram_label(n as nat)
            &&& report.total == window_count(ws.len(), n as nat)
            &&& is_top_n(
                at_least(ngram_counts(ws, n as nat), min),
                top as nat,
                entries_view(report.rows@),
            )
            &&& sum_counts(entries_view(report.rows@)) <= report.total
        },
{
    if n < 1 {
        return Err(NgramError::SizeTooSmall);
    }
    let all_words = words(text);
    let strs = as_strs(&all_words);
    let kept: Vec<&str> = match stopwords {
        Some(sw) => filter_words(strs.as_slice(), sw),
        None => strs,
    };
    let ghost ws = prepared_words(text@, case_insensitive, stopwords);
    let (freqs, total) = if case_insensitive {
        let lowered = lowercase_all(kept.as_slice());
        let lowered_strs = as_strs(&lowered);
        assert(str_views(lowered_strs@) == ws);
        let count = lowered_strs.len();
        assert(ws.len() == count);
        let freqs = ngram_frequencies(lowered_strs.as_slice(), n);
        let total = count_total(&freqs, Ghost(ws), Ghost(n as nat));
        (freqs, total)
    } else {
        assert(str_views(kept@) == ws);
        let count = kept.len();
        assert(ws.len() == count);
        let freqs = ngram_frequencies(kept.as_slice(), n);
        let total = count_total(&freqs, Ghost(ws), Ghost(n as nat));
        (freqs, total)
    };
    let min = match min_freq {
        Some(m) => m,
        None => 0,
    };
    let rows = top_n_at_least(&freqs, top, min);
    proof {
        let t = ngram_counts(ws, n as nat);
        let s = entries_view(rows@);
        let a = at_least(t, min as nat);
        assert forall|i: int| 0 <= i < s.len() implies #[trigger] t.contains_key(s[i].0) && t[s[i].0] == s[i].1 by {
            assert(a.contains_key(s[i].0));
        }
        assert forall|i: int, j: int| 0 <= i < j < s.len() implies s[i].0 != s[j].0 by {
            lemma_ranked_keys_distinct(a, s, i, j);
        }
        lemma_ngram_counts_partial_total(ws, n as nat, s);
    }
    Ok(NgramReport { source: source_name.to_owned(), label: label_for(n), total, rows })
}

/// Ignoring case counts the same words as respecting it, each lowercased:
/// the report that folds case is the report of the lowercased words, and
/// both count equally many words.
pub proof fn lemma_case_folding(text: Seq<char>, stopwords: Option<&FxHashSet<String>>)
    ensures
        prepared_words(text, true, stopwords) == prepared_words(text, false, stopwords).map_values(
            |w: Seq<char>| lowercase(w),
        ),
        prepared_words(text, true, stopwords).len() == prepared_words(text, false, stopwords).len(),
{
}

} // verus!
