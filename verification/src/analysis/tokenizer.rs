//! Splitting text into words.

use crate::analysis::ngram::str_views;
use crate::text::string_views;
use unicode_segmentation::UnicodeSegmentation;
use vstd::prelude::*;
use vstd::string::StrSliceExecFns;

verus! {

/// The words of a text as `unicode_segmentation` finds them: the pieces
/// between UAX #29 word boundaries that hold a letter or a number.
pub uninterp spec fn unicode_words(text: Seq<char>) -> Seq<Seq<char>>;

/// `UnicodeSegmentation::unicode_words`, each word copied into a `String`.
#[verifier::external_body]
pub(crate) fn words(text: &str) -> (ws: Vec<String>)
    ensures
        string_views(ws@) == unicode_words(text@),
{
    text.unicode_words().map(|w| w.to_string()).collect()
}

/// The sentences of a text as `unicode_segmentation` finds them: the pieces
/// between UAX #29 sentence boundaries that hold a letter or a number.
pub uninterp spec fn unicode_sentences(text: Seq<char>) -> Seq<Seq<char>>;

/// `UnicodeSegmentation::unicode_sentences`, counted.
#[verifier::external_body]
pub(crate) fn sentence_count(text: &str) -> (n: usize)
    ensures
        n == unicode_sentences(text@).len(),
{
    text.unicode_sentences().count()
}

/// The words of `words`, borrowed as string slices.
pub fn as_strs(words: &Vec<String>) -> (r: Vec<&str>)
    ensures
        str_views(r@) == string_views(words@),
{
    let mut r: Vec<&str> = Vec::new();
    let mut i: usize = 0;
    while i < words.len()
        invariant
            i <= words@.len(),
            r@.len() == i,
            forall|j: int| 0 <= j < i ==> #[trigger] r@[j]@ == words@[j]@,
        decreases words@.len() - i,
    {
        r.push(words[i].as_str());
        i += 1;
    }
    assert(str_views(r@) =~= string_views(words@));
    r
}

/// The number of characters of a text.
pub fn char_count(text: &str) -> (n: usize)
    ensures
        n == text@.len(),
{
    text.unicode_len()
}

} // verus!
