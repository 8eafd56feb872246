//! Stopword lists: parsing them and removing their words from a text.

use crate::analysis::ngram::str_views;
use crate::tables::{set_contains, set_contents, set_insert, set_new};
use crate::text::{lines, lines_of, lowercase, string_views, to_lowercase, trim, trim_chars};
use rustc_hash::FxHashSet;
use vstd::prelude::*;
use vstd::string::StrSliceExecFns;

verus! {

/// Whether a line of a stopword list names a word: after trimming it is
/// neither empty nor a `#` comment.
pub open spec fn names_word(line: Seq<char>) -> bool {
    let t = trim_chars(line);
    t.len() > 0 && t[0] != '#'
}

/// The words named by the first `i` lines, lowercased.
pub open spec fn stopwords_upto(ls: Seq<Seq<char>>, i: int) -> Set<Seq<char>> {
    Set::new(
        |w: Seq<char>| exists|j: int| 0 <= j < i && names_word(ls[j]) && w == lowercase(trim_chars(ls[j])),
    )
}

/// The stopwords a list names: one word per line, trimmed and lowercased,
/// with blank lines and `#` comments skipped.
pub open spec fn stopword_set(content: Seq<char>) -> Set<Seq<char>> {
    stopwords_upto(lines_of(content), lines_of(content).len() as int)
}

/// The words of `ws` whose lowercase form is not in `stop`, in their order.
pub open spec fn without_stopwords(ws: Seq<Seq<char>>, stop: Set<Seq<char>>) -> Seq<Seq<char>>
    decreases ws.len(),
{
    if ws.len() == 0 {
        ws
    } else {
        let rest = without_stopwords(ws.drop_last(), stop);
        if stop.contains(lowercase(ws.last())) {
            rest
        } else {
            rest.push(ws.last())
        }
    }
}

/// Parses a stopword list: one word per line; blank lines and lines that
/// start with `#` are skipped; words are trimmed and lowercased.
pub fn parse_stopwords(content: &str) -> (set: FxHashSet<String>)
    ensures
        set_contents(set) == stopword_set(content@),
        forall|w: Seq<char>| #[trigger] set_contents(set).contains(w) ==> w.len() > 0 && w[0] != '#',
        forall|i: int|
            0 <= i < lines_of(content@).len() && trim_chars(#[trigger] lines_of(content@)[i]).len() > 0
                && trim_chars(lines_of(content@)[i])[0] != '#' ==> set_contents(set).contains(
                lowercase(trim_chars(lines_of(content@)[i])),
            ),
{
    let ls = lines(content);
    let ghost lv = string_views(ls@);
    let mut set = set_new();
    let mut i: usize = 0;
    assert(set_contents(set) =~= stopwords_upto(lv, 0));
    while i < ls.len()
        invariant
            lv == string_views(ls@),
            lv == lines_of(content@),
            i <= ls@.len(),
            set_contents(set) == stopwords_upto(lv, i as int),
            forall|w: Seq<char>| #[trigger] set_contents(set).contains(w) ==> w.len() > 0 && w[0] != '#',
        decreases ls@.len() - i,
    {
        let t = trim(ls[i].as_str());
        proof {
            assert(lv[i as int] == ls@[i as int]@);
        }
        if !t.is_empty() && t.get_char(0) != '#' {
            let w = to_lowercase(t);
            set_insert(&mut set, w);
            proof {
                assert(set_contents(set) =~= stopwords_upto(lv, i + 1));
            }
        } else {
            proof {
                assert(set_contents(set) =~= stopwords_upto(lv, i + 1));
            }
        }
        i += 1;
    }
    proof {
        lemma_stopword_set_meaning(content@);
    }
    set
}

/// Removes from `words` each word whose lowercase form is a stopword,
/// keeping the others in their order.
pub fn filter_words<'a>(words: &[&'a str], stopwords: &FxHashSet<String>) -> (kept: Vec<&'a str>)
    ensures
        str_views(kept@) == without_stopwords(str_views(words@), set_contents(*stopwords)),
        str_views(kept@) == str_views(words@).filter(
            |w: Seq<char>| !set_contents(*stopwords).contains(lowercase(w)),
        ),
{
    let ghost ws = str_views(words@);
    let ghost stop = set_contents(*stopwords);
    let mut kept: Vec<&'a str> = Vec::new();
    let mut i: usize = 0;
    while i < words.len()
        invariant
            ws == str_views(words@),
            stop == set_contents(*stopwords),
            i <= words@.len(),
            str_views(kept@) == without_stopwords(ws.take(i as int), stop),
        decreases words@.len() - i,
    {
        let w = words[i];
        let lower = to_lowercase(w);
        let is_stop = set_contains(stopwords, lower.as_str());
        proof {
            assert(ws.take(i + 1).drop_last() =~= ws.take(i as int));
            assert(ws.take(i + 1).last() == w@);
        }
        if !is_stop {
            kept.push(w);
        }
        proof {
            assert(str_views(kept@) =~= without_stopwords(ws.take(i + 1), stop));
        }
        i += 1;
    }
    assert(ws.take(words@.len() as int) =~= ws);
    proof {
        lemma_without_stopwords_is_filter(ws, stop);
    }
    kept
}

/// Removing stopwords keeps exactly the words whose lowercase form is not a
/// stopword: none of the kept words is one, each word that is not one is
/// kept, at most as many words remain, and removing stopwords again changes
/// nothing.
pub proof fn lemma_without_stopwords(ws: Seq<Seq<char>>, stop: Set<Seq<char>>)
    ensures
        forall|i: int|
            0 <= i < without_stopwords(ws, stop).len() ==> !stop.contains(
                lowercase(#[trigger] without_stopwords(ws, stop)[i]),
            ),
        forall|i: int|
            0 <= i < ws.len() && !stop.contains(lowercase(#[trigger] ws[i])) ==> without_stopwords(
                ws,
                stop,
            ).contains(ws[i]),
        without_stopwords(ws, stop).len() <= ws.len(),
        without_stopwords(without_stopwords(ws, stop), stop) == without_stopwords(ws, stop),
    decreases ws.len(),
{
    if ws.len() > 0 {
        let rest = ws.drop_last();
        let kept = without_stopwords(ws, stop);
        let kept_rest = without_stopwords(rest, stop);
        lemma_without_stopwords(rest, stop);
        assert forall|i: int| 0 <= i < ws.len() && !stop.contains(lowercase(#[trigger] ws[i])) implies kept.contains(ws[i]) by {
            if i < ws.len() - 1 {
                assert(rest[i] == ws[i]);
                let j = choose|j: int| 0 <= j < kept_rest.len() && kept_rest[j] == ws[i];
                assert(kept[j] == ws[i]);
            } else {
                assert(kept[kept.len() - 1] == ws[i]);
            }
        }
        if !stop.contains(lowercase(ws.last())) {
            assert(kept.drop_last() =~= kept_rest);
        }
    }
}

/// What a stopword list names, stated over its lines: a word is in the set
/// exactly when some line, once trimmed, is not empty, does not start with
/// `#`, and lowercases to it; so every such line, of whatever length, puts
/// its trimmed, lowercased form in the set.
pub proof fn lemma_stopword_set_meaning(content: Seq<char>)
    ensures
        forall|w: Seq<char>|
            #[trigger] stopword_set(content).contains(w) <==> exists|i: int|
                0 <= i < lines_of(content).len() && trim_chars(#[trigger] lines_of(content)[i]).len()
                    > 0 && trim_chars(lines_of(content)[i])[0] != '#' && w == lowercase(
                    trim_chars(lines_of(content)[i]),
                ),
        forall|i: int|
            0 <= i < lines_of(content).len() && trim_chars(#[trigger] lines_of(content)[i]).len() > 0
                && trim_chars(lines_of(content)[i])[0] != '#' ==> stopword_set(content).contains(
                lowercase(trim_chars(lines_of(content)[i])),
            ),
{
}

/// Removing stopwords is exactly the subsequence of the words whose lowercase
/// form is not a stopword: every such occurrence is kept, repeats included,
/// in its order, so the count of what remains is the count of those words;
/// with no stopwords at all, nothing is removed.
pub proof fn lemma_without_stopwords_is_filter(ws: Seq<Seq<char>>, stop: Set<Seq<char>>)
    ensures
        without_stopwords(ws, stop) == ws.filter(|w: Seq<char>| !stop.contains(lowercase(w))),
        without_stopwords(ws, Set::empty()) == ws,
    decreases ws.len(),
{
    reveal(Seq::filter);
    if ws.len() > 0 {
        lemma_without_stopwords_is_filter(ws.drop_last(), stop);
    }
}

} // verus!
