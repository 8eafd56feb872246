//! Word frequencies and their ranking.

use crate::analysis::ngram::{
    all_space_free, join_words, lemma_join_injective, lemma_occurrences_monotone, ngram_counts,
    ngram_frequencies, ngram_key, occurrences, space_free, window_count,
};
use crate::analysis::tokenizer::{as_strs, unicode_words, words};
use crate::tables::{table_contents, table_entries};
use crate::text::{lemma_lex_irreflexive, lemma_lex_total, lemma_lex_transitive, lex_less, str_less};
use rustc_hash::FxHashMap;
use vstd::prelude::*;

verus! {

/// Whether entry `a` ranks before entry `b`: a higher count first, and
/// between equal counts the key that comes first lexicographically.
pub open spec fn ranks_before(a: (Seq<char>, nat), b: (Seq<char>, nat)) -> bool {
    a.1 > b.1 || (a.1 == b.1 && lex_less(a.0, b.0))
}

/// An entry by its key's characters and its count.
pub open spec fn entry_view(e: (String, usize)) -> (Seq<char>, nat) {
    (e.0@, e.1 as nat)
}

/// Each entry by its key's characters and its count.
pub open spec fn entries_view(es: Seq<(String, usize)>) -> Seq<(Seq<char>, nat)> {
    es.map_values(|e: (String, usize)| entry_view(e))
}

/// Every entry ranks before every later one.
pub open spec fn is_ranked(s: Seq<(Seq<char>, nat)>) -> bool {
    forall|i: int, j: int| 0 <= i < j < s.len() ==> ranks_before(#[trigger] s[i], #[trigger] s[j])
}

/// Every entry is a key of `t` with its count.
pub open spec fn entries_of(t: Map<Seq<char>, nat>, s: Seq<(Seq<char>, nat)>) -> bool {
    forall|i: int| 0 <= i < s.len() ==> #[trigger] t.contains_key(s[i].0) && t[s[i].0] == s[i].1
}

/// Whether `s` holds the top entries of `t`, at most `n` of them, in rank
/// order: every key of `t` is either in `s` or, when `s` is full, ranks
/// after all of `s`.
pub open spec fn is_top_n(t: Map<Seq<char>, nat>, n: nat, s: Seq<(Seq<char>, nat)>) -> bool {
    &&& is_ranked(s)
    &&& entries_of(t, s)
    &&& s.len() <= n
    &&& forall|k: Seq<char>|
        #[trigger] t.contains_key(k) ==> (exists|i: int| 0 <= i < s.len() && s[i].0 == k) || (
        s.len() == n && forall|i: int| 0 <= i < s.len() ==> ranks_before(s[i], (k, t[k])))
}

/// Ranking is a strict total order on entries with different keys.
pub proof fn lemma_ranks_order(a: (Seq<char>, nat), b: (Seq<char>, nat), c: (Seq<char>, nat))
    ensures
        !ranks_before(a, a),
        a.0 != b.0 ==> ranks_before(a, b) || ranks_before(b, a),
        !(ranks_before(a, b) && ranks_before(b, a)),
        ranks_before(a, b) && ranks_before(b, c) ==> ranks_before(a, c),
{
    lemma_lex_irreflexive(a.0);
    lemma_lex_total(a.0, b.0);
    if ranks_before(a, b) && ranks_before(b, c) && a.1 == b.1 && b.1 == c.1 {
        lemma_lex_transitive(a.0, b.0, c.0);
    }
}

/// The word counts of a text: each word with its number of occurrences.
pub fn word_frequencies(text: &str) -> (freqs: FxHashMap<String, usize>)
    ensures
        table_contents(freqs) == ngram_counts(unicode_words(text@), 1),
        unicode_words(text@).len() <= usize::MAX,
{
    let ws = words(text);
    let strs = as_strs(&ws);
    let count = strs.len();
    assert(unicode_words(text@).len() == count);
    ngram_frequencies(strs.as_slice(), 1)
}

fn ranks_before_exec(a: &(String, usize), b: &(String, usize)) -> (r: bool)
    ensures
        r == ranks_before(entry_view(*a), entry_view(*b)),
{
    a.1 > b.1 || (a.1 == b.1 && str_less(a.0.as_str(), b.0.as_str()))
}

/// Whether `s` and `t` hold the same entries, each entry of one found in the other.
pub open spec fn same_entries(s: Seq<(Seq<char>, nat)>, t: Seq<(Seq<char>, nat)>) -> bool {
    &&& forall|i: int| 0 <= i < s.len() ==> t.contains(#[trigger] s[i])
    &&& forall|i: int| 0 <= i < t.len() ==> s.contains(#[trigger] t[i])
}

/// Inserts `e` into a ranked vector of entries whose keys all differ from
/// `e`'s, at the place that keeps it ranked.
fn insert_ranked(out: &mut Vec<(String, usize)>, e: (String, usize))
    requires
        is_ranked(entries_view(old(out)@)),
        forall|q: int| 0 <= q < old(out)@.len() ==> #[trigger] old(out)@[q].0@ != e.0@,
    ensures
        is_ranked(entries_view(final(out)@)),
        final(out)@.len() == old(out)@.len() + 1,
        same_entries(entries_view(final(out)@), entries_view(old(out)@).push(entry_view(e))),
{
    let ghost ev = entry_view(e);
    let ghost before = out@;
    let ghost bv = entries_view(before);
    let mut pos: usize = 0;
    while pos < out.len() && ranks_before_exec(&out[pos], &e)
        invariant
            out@ == before,
            ev == entry_view(e),
            pos <= out@.len(),
            forall|q: int| 0 <= q < pos ==> ranks_before(entry_view(#[trigger] out@[q]), ev),
        decreases out@.len() - pos,
    {
        pos += 1;
    }
    proof {
        assert forall|q: int| pos <= q < before.len() implies ranks_before(ev, #[trigger] bv[q]) by {
            assert(bv[pos as int] == entry_view(before[pos as int]));
            assert(before[pos as int].0@ != ev.0);
            lemma_ranks_order(bv[pos as int], ev, ev);
            if q > pos {
                assert(ranks_before(bv[pos as int], bv[q]));
                lemma_ranks_order(ev, bv[pos as int], bv[q]);
            }
        }
        assert forall|q: int| 0 <= q < pos implies ranks_before(#[trigger] bv[q], ev) by {
            assert(bv[q] == entry_view(before[q]));
        }
    }
    out.insert(pos, e);
    proof {
        let s = entries_view(out@);
        assert(s =~= bv.insert(pos as int, ev));
        assert forall|a: int, b: int| 0 <= a < b < s.len() implies ranks_before(#[trigger] s[a], #[trigger] s[b]) by {
            if b < pos {
                assert(s[a] == bv[a] && s[b] == bv[b]);
            } else if b == pos {
                assert(s[b] == ev && s[a] == bv[a]);
            } else if a < pos {
                assert(s[a] == bv[a] && s[b] == bv[b - 1]);
                lemma_ranks_order(bv[a], ev, bv[b - 1]);
            } else if a == pos {
                assert(s[a] == ev && s[b] == bv[b - 1]);
            } else {
                assert(s[a] == bv[a - 1] && s[b] == bv[b - 1]);
            }
        }
        let t = bv.push(ev);
        assert forall|i: int| 0 <= i < s.len() implies t.contains(#[trigger] s[i]) by {
            if i < pos {
                assert(t[i] == s[i]);
            } else if i == pos {
                assert(t[bv.len() as int] == s[i]);
            } else {
                assert(t[i - 1] == s[i]);
            }
        }
        assert forall|i: int| 0 <= i < t.len() implies s.contains(#[trigger] t[i]) by {
            if i == bv.len() {
                assert(s[pos as int] == t[i]);
            } else if i < pos {
                assert(s[i] == t[i]);
            } else {
                assert(s[i + 1] == t[i]);
            }
        }
    }
}

/// Sorts entries with pairwise different keys into rank order.
fn sort_ranked(entries: &Vec<(String, usize)>) -> (out: Vec<(String, usize)>)
    requires
        forall|i: int, j: int| 0 <= i < j < entries@.len() ==> entries@[i].0@ != entries@[j].0@,
    ensures
        is_ranked(entries_view(out@)),
        out@.len() == entries@.len(),
        same_entries(entries_view(out@), entries_view(entries@)),
{
    let ghost ev = entries_view(entries@);
    let mut out: Vec<(String, usize)> = Vec::new();
    let mut i: usize = 0;
    while i < entries.len()
        invariant
            i <= entries@.len(),
            ev == entries_view(entries@),
            forall|a: int, b: int| 0 <= a < b < entries@.len() ==> entries@[a].0@ != entries@[b].0@,
            out@.len() == i,
            is_ranked(entries_view(out@)),
            same_entries(entries_view(out@), ev.take(i as int)),
        decreases entries@.len() - i,
    {
        let e = (entries[i].0.clone(), entries[i].1);
        let ghost prev = entries_view(out@);
        proof {
            assert forall|q: int| 0 <= q < out@.len() implies #[trigger] out@[q].0@ != e.0@ by {
                assert(prev[q] == entry_view(out@[q]));
                let j = choose|j: int| 0 <= j < i && ev.take(i as int)[j] == prev[q];
                assert(entries@[j].0@ != entries@[i as int].0@);
            }
        }
        insert_ranked(&mut out, e);
        proof {
            let s = entries_view(out@);
            let t = prev.push(entry_view(e));
            let u = ev.take(i + 1);
            assert(u =~= ev.take(i as int).push(ev[i as int]));
            assert(ev[i as int] == entry_view(e));
            assert forall|k: int| 0 <= k < s.len() implies u.contains(#[trigger] s[k]) by {
                let m = choose|m: int| 0 <= m < t.len() && t[m] == s[k];
                if m < prev.len() {
                    let r = choose|r: int| 0 <= r < i && ev.take(i as int)[r] == prev[m];
                    assert(u[r] == s[k]);
                } else {
                    assert(u[i as int] == s[k]);
                }
            }
            assert forall|k: int| 0 <= k < u.len() implies s.contains(#[trigger] u[k]) by {
                if k < i {
                    assert(ev.take(i as int)[k] == u[k]);
                    let m = choose|m: int| 0 <= m < prev.len() && prev[m] == u[k];
                    assert(t[m] == u[k]);
                } else {
                    assert(t[prev.len() as int] == u[k]);
                }
            }
        }
        i += 1;
    }
    assert(ev.take(i as int) =~= ev);
    out
}

/// The entries of `t` whose count is at least `min`.
pub open spec fn at_least(t: Map<Seq<char>, nat>, min: nat) -> Map<Seq<char>, nat> {
    Map::new(|k: Seq<char>| t.contains_key(k) && t[k] >= min, |k: Seq<char>| t[k])
}

/// The entries of a count table whose count is at least `min`, each once.
fn entries_at_least(freqs: &FxHashMap<String, usize>, min: usize) -> (r: Vec<(String, usize)>)
    ensures
        entries_of(at_least(table_contents(*freqs), min as nat), entries_view(r@)),
        forall|i: int, j: int| 0 <= i < j < r@.len() ==> r@[i].0@ != r@[j].0@,
        forall|k: Seq<char>|
            #[trigger] at_least(table_contents(*freqs), min as nat).contains_key(k) ==> exists|i: int|
                0 <= i < r@.len() && r@[i].0@ == k,
{
    let entries = table_entries(freqs);
    let ghost t = table_contents(*freqs);
    let ghost a = at_least(t, min as nat);
    let mut r: Vec<(String, usize)> = Vec::new();
    let mut i: usize = 0;
    while i < entries.len()
        invariant
            t == table_contents(*freqs),
            a == at_least(t, min as nat),
            i <= entries@.len(),
            forall|q: int| 0 <= q < entries@.len() ==> #[trigger] t.contains_key(entries@[q].0@)
                && t[entries@[q].0@] == entries@[q].1,
            forall|p: int, q: int| 0 <= p < q < entries@.len() ==> entries@[p].0@ != entries@[q].0@,
            forall|q: int| 0 <= q < r@.len() ==> exists|p: int|
                0 <= p < i && entry_view(#[trigger] r@[q]) == entry_view(entries@[p]),
            forall|q: int| 0 <= q < r@.len() ==> #[trigger] r@[q].1 >= min,
            forall|p: int, q: int| 0 <= p < q < r@.len() ==> r@[p].0@ != r@[q].0@,
            forall|p: int| 0 <= p < i && entries@[p].1 >= min ==> exists|q: int|
                0 <= q < r@.len() && r@[q].0@ == (#[trigger] entries@[p]).0@,
        decreases entries@.len() - i,
    {
        if entries[i].1 >= min {
            let ghost before = r@;
            proof {
                assert forall|q: int| 0 <= q < before.len() implies before[q].0@ != entries@[i as int].0@ by {
                    let p = choose|p: int| 0 <= p < i && entry_view(before[q]) == entry_view(entries@[p]);
                }
            }
            r.push((entries[i].0.clone(), entries[i].1));
            proof {
                assert forall|q: int| 0 <= q < r@.len() implies exists|p: int|
                    0 <= p < i + 1 && entry_view(#[trigger] r@[q]) == entry_view(entries@[p]) by {
                    if q < before.len() {
                        assert(r@[q] == before[q]);
                    } else {
                        assert(entry_view(r@[q]) == entry_view(entries@[i as int]));
                    }
                }
                assert forall|p: int| 0 <= p < i + 1 && entries@[p].1 >= min implies exists|q: int|
                    0 <= q < r@.len() && r@[q].0@ == (#[trigger] entries@[p]).0@ by {
                    if p == i {
                        assert(r@[before.len() as int].0@ == entries@[p].0@);
                    } else {
                        let q = choose|q: int| 0 <= q < before.len() && before[q].0@ == entries@[p].0@;
                        assert(r@[q] == before[q]);
                    }
                }
            }
        }
        i += 1;
    }
    proof {
        let rv = entries_view(r@);
        assert forall|q: int| 0 <= q < rv.len() implies #[trigger] a.contains_key(rv[q].0) && a[rv[q].0] == rv[q].1 by {
            let p = choose|p: int| 0 <= p < i && entry_view(r@[q]) == entry_view(entries@[p]);
            assert(t.contains_key(entries@[p].0@));
            assert(rv[q] == entry_view(r@[q]));
        }
        assert forall|k: Seq<char>| #[trigger] a.contains_key(k) implies exists|q: int| 0 <= q < r@.len() && r@[q].0@ == k by {
            let p = choose|p: int| 0 <= p < entries@.len() && entries@[p].0@ == k;
            assert(t.contains_key(entries@[p].0@));
        }
    }
    r
}

/// Ranks the entries of `t` (each listed once in `entries`) and keeps the first `n`.
fn rank_top(entries: &Vec<(String, usize)>, n: usize, Ghost(t): Ghost<Map<Seq<char>, nat>>) -> (top: Vec<(String, usize)>)
    requires
        entries_of(t, entries_view(entries@)),
        forall|i: int, j: int| 0 <= i < j < entries@.len() ==> entries@[i].0@ != entries@[j].0@,
        forall|k: Seq<char>| #[trigger] t.contains_key(k) ==> exists|i: int|
            0 <= i < entries@.len() && entries@[i].0@ == k,
    ensures
        is_top_n(t, n as nat, entries_view(top@)),
{
    let mut sorted = sort_ranked(entries);
    let ghost all = entries_view(sorted@);
    proof {
        let ev = entries_view(entries@);
        assert forall|k: Seq<char>| #[trigger] t.contains_key(k) implies exists|q: int|
            0 <= q < all.len() && all[q].0 == k by {
            let j = choose|j: int| 0 <= j < entries@.len() && entries@[j].0@ == k;
            assert(ev[j] == entry_view(entries@[j]));
            assert(all.contains(ev[j]));
        }
        assert forall|q: int| 0 <= q < all.len() implies #[trigger] t.contains_key(all[q].0) && t[all[q].0] == all[q].1 by {
            assert(ev.contains(all[q]));
            let j = choose|j: int| 0 <= j < ev.len() && ev[j] == all[q];
            assert(t.contains_key(ev[j].0));
        }
    }
    sorted.truncate(n);
    proof {
        let s = entries_view(sorted@);
        assert forall|q: int| 0 <= q < s.len() implies s[q] == all[q] by {}
        assert forall|k: Seq<char>| #[trigger] t.contains_key(k) implies (exists|i: int| 0 <= i < s.len() && s[i].0 == k) || (
            s.len() == n && forall|i: int| 0 <= i < s.len() ==> ranks_before(s[i], (k, t[k]))) by {
            let q = choose|q: int| 0 <= q < all.len() && all[q].0 == k;
            if q < s.len() {
                assert(s[q].0 == k);
            } else {
                assert forall|i: int| 0 <= i < s.len() implies ranks_before(s[i], (k, t[k])) by {
                    assert(s[i] == all[i]);
                    assert(all[q] == (k, t[k]));
                }
            }
        }
    }
    sorted
}

/// The `n` highest-ranked entries of a count table among those whose count
/// is at least `min` (higher count first, ties by key).
pub fn top_n_at_least(freqs: &FxHashMap<String, usize>, n: usize, min: usize) -> (top: Vec<(String, usize)>)
    ensures
        is_top_n(at_least(table_contents(*freqs), min as nat), n as nat, entries_view(top@)),
{
    let entries = entries_at_least(freqs, min);
    rank_top(&entries, n, Ghost(at_least(table_contents(*freqs), min as nat)))
}

/// The `n` most frequent entries of a count table, in rank order (higher
/// count first, ties by key).
pub fn top_n(freqs: &FxHashMap<String, usize>, n: usize) -> (top: Vec<(String, usize)>)
    ensures
        is_top_n(table_contents(*freqs), n as nat, entries_view(top@)),
{
    let top = top_n_at_least(freqs, n, 0);
    assert(at_least(table_contents(*freqs), 0) =~= table_contents(*freqs));
    top
}

/// The sum of the counts of a list of entries.
pub open spec fn sum_counts(s: Seq<(Seq<char>, nat)>) -> nat
    decreases s.len(),
{
    if s.len() == 0 {
        0
    } else {
        sum_counts(s.drop_last()) + s.last().1
    }
}

/// The total number of occurrences, among the first `m` windows, of the keys in `keys`.
pub open spec fn occurrence_sum(tokens: Seq<Seq<char>>, n: nat, keys: Seq<Seq<char>>, m: nat) -> nat
    decreases keys.len(),
{
    if keys.len() == 0 {
        0
    } else {
        occurrence_sum(tokens, n, keys.drop_last(), m) + occurrences(tokens, n, keys.last(), m)
    }
}

/// How many times `x` occurs in `keys`.
pub open spec fn hits(keys: Seq<Seq<char>>, x: Seq<char>) -> nat
    decreases keys.len(),
{
    if keys.len() == 0 {
        0
    } else {
        hits(keys.drop_last(), x) + if keys.last() == x {
            1nat
        } else {
            0nat
        }
    }
}

proof fn lemma_occurrence_sum_step(tokens: Seq<Seq<char>>, n: nat, keys: Seq<Seq<char>>, m: nat)
    ensures
        occurrence_sum(tokens, n, keys, m + 1) == occurrence_sum(tokens, n, keys, m) + hits(
            keys,
            ngram_key(tokens, n, m as int),
        ),
    decreases keys.len(),
{
    if keys.len() > 0 {
        lemma_occurrence_sum_step(tokens, n, keys.drop_last(), m);
    }
}

proof fn lemma_hits_distinct(keys: Seq<Seq<char>>, x: Seq<char>)
    requires
        keys.no_duplicates(),
    ensures
        hits(keys, x) == if keys.contains(x) {
            1nat
        } else {
            0nat
        },
    decreases keys.len(),
{
    if keys.len() > 0 {
        let rest = keys.drop_last();
        assert(rest.no_duplicates());
        lemma_hits_distinct(rest, x);
        if keys.last() == x {
            assert(!rest.contains(x)) by {
                if rest.contains(x) {
                    let j = choose|j: int| 0 <= j < rest.len() && rest[j] == x;
                    assert(keys[j] == keys[keys.len() - 1]);
                }
            }
            assert(keys.contains(x)) by {
                assert(keys[keys.len() - 1] == x);
            }
        } else {
            if keys.contains(x) {
                let j = choose|j: int| 0 <= j < keys.len() && keys[j] == x;
                assert(rest[j] == x);
            }
            if rest.contains(x) {
                let j = choose|j: int| 0 <= j < rest.len() && rest[j] == x;
                assert(keys[j] == x);
            }
        }
    }
}

/// When `keys` lists, once each, every key of the first `m` windows, their
/// occurrences add up to `m`.
proof fn lemma_occurrence_sum_total(tokens: Seq<Seq<char>>, n: nat, keys: Seq<Seq<char>>, m: nat)
    requires
        keys.no_duplicates(),
        forall|i: int| 0 <= i < m ==> keys.contains(#[trigger] ngram_key(tokens, n, i)),
    ensures
        occurrence_sum(tokens, n, keys, m) == m,
    decreases m,
{
    if m == 0 {
        lemma_occurrence_sum_zero(tokens, n, keys);
    } else {
        lemma_occurrence_sum_total(tokens, n, keys, (m - 1) as nat);
        lemma_occurrence_sum_step(tokens, n, keys, (m - 1) as nat);
        lemma_hits_distinct(keys, ngram_key(tokens, n, m - 1));
    }
}

proof fn lemma_occurrence_sum_zero(tokens: Seq<Seq<char>>, n: nat, keys: Seq<Seq<char>>)
    ensures
        occurrence_sum(tokens, n, keys, 0) == 0,
    decreases keys.len(),
{
    if keys.len() > 0 {
        lemma_occurrence_sum_zero(tokens, n, keys.drop_last());
    }
}

/// The counts of entries that each carry their n-gram's occurrences add up
/// to the occurrences of their keys.
proof fn lemma_sum_is_occurrence_sum(tokens: Seq<Seq<char>>, n: nat, s: Seq<(Seq<char>, nat)>)
    requires
        forall|i: int| 0 <= i < s.len() ==> #[trigger] s[i].1 == occurrences(
            tokens,
            n,
            s[i].0,
            window_count(tokens.len(), n),
        ),
    ensures
        sum_counts(s) == occurrence_sum(
            tokens,
            n,
            s.map_values(|e: (Seq<char>, nat)| e.0),
            window_count(tokens.len(), n),
        ),
    decreases s.len(),
{
    if s.len() > 0 {
        lemma_sum_is_occurrence_sum(tokens, n, s.drop_last());
        assert(s.drop_last().map_values(|e: (Seq<char>, nat)| e.0) =~= s.map_values(
            |e: (Seq<char>, nat)| e.0,
        ).drop_last());
    }
}

proof fn lemma_occurrence_sum_bound(tokens: Seq<Seq<char>>, n: nat, keys: Seq<Seq<char>>, m: nat)
    requires
        keys.no_duplicates(),
    ensures
        occurrence_sum(tokens, n, keys, m) <= m,
    decreases m,
{
    if m == 0 {
        lemma_occurrence_sum_zero(tokens, n, keys);
    } else {
        lemma_occurrence_sum_bound(tokens, n, keys, (m - 1) as nat);
        lemma_occurrence_sum_step(tokens, n, keys, (m - 1) as nat);
        lemma_hits_distinct(keys, ngram_key(tokens, n, m - 1));
    }
}

/// Any entries of an n-gram table, each key at most once, have counts that
/// add up to at most the number of windows.
pub proof fn lemma_ngram_counts_partial_total(tokens: Seq<Seq<char>>, n: nat, s: Seq<(Seq<char>, nat)>)
    requires
        entries_of(ngram_counts(tokens, n), s),
        forall|i: int, j: int| 0 <= i < j < s.len() ==> s[i].0 != s[j].0,
    ensures
        sum_counts(s) <= window_count(tokens.len(), n),
{
    let w = window_count(tokens.len(), n);
    let t = ngram_counts(tokens, n);
    let keys = s.map_values(|e: (Seq<char>, nat)| e.0);
    assert forall|i: int| 0 <= i < s.len() implies #[trigger] s[i].1 == occurrences(tokens, n, s[i].0, w) by {
        assert(t.contains_key(s[i].0));
    }
    lemma_sum_is_occurrence_sum(tokens, n, s);
    assert(keys.no_duplicates()) by {
        assert forall|i: int, j: int| 0 <= i < keys.len() && 0 <= j < keys.len() && i != j implies keys[i] != keys[j] by {
            if i < j {
                assert(s[i].0 != s[j].0);
            } else {
                assert(s[j].0 != s[i].0);
            }
        }
    }
    lemma_occurrence_sum_bound(tokens, n, keys, w);
}

/// The counts of an n-gram table add up to the number of windows: every
/// window is counted once, under its own key.
pub proof fn lemma_ngram_counts_total(tokens: Seq<Seq<char>>, n: nat, s: Seq<(Seq<char>, nat)>)
    requires
        entries_of(ngram_counts(tokens, n), s),
        forall|i: int, j: int| 0 <= i < j < s.len() ==> s[i].0 != s[j].0,
        forall|k: Seq<char>|
            #[trigger] ngram_counts(tokens, n).contains_key(k) ==> exists|i: int|
                0 <= i < s.len() && s[i].0 == k,
    ensures
        sum_counts(s) == window_count(tokens.len(), n),
{
    let w = window_count(tokens.len(), n);
    let t = ngram_counts(tokens, n);
    let keys = s.map_values(|e: (Seq<char>, nat)| e.0);
    assert forall|i: int| 0 <= i < s.len() implies #[trigger] s[i].1 == occurrences(tokens, n, s[i].0, w) by {
        assert(t.contains_key(s[i].0));
    }
    lemma_sum_is_occurrence_sum(tokens, n, s);
    assert(keys.no_duplicates()) by {
        assert forall|i: int, j: int| 0 <= i < keys.len() && 0 <= j < keys.len() && i != j implies keys[i] != keys[j] by {
            if i < j {
                assert(s[i].0 != s[j].0);
            } else {
                assert(s[j].0 != s[i].0);
            }
        }
    }
    assert forall|i: int| 0 <= i < w implies keys.contains(#[trigger] ngram_key(tokens, n, i)) by {
        let k = ngram_key(tokens, n, i);
        assert(t.contains_key(k));
        let j = choose|j: int| 0 <= j < s.len() && s[j].0 == k;
        assert(keys[j] == k);
    }
    lemma_occurrence_sum_total(tokens, n, keys, w);
}

/// The total of the counts of an n-gram table, which is its number of windows.
pub(crate) fn count_total(freqs: &FxHashMap<String, usize>, Ghost(tokens): Ghost<Seq<Seq<char>>>, Ghost(n): Ghost<nat>) -> (total: usize)
    requires
        table_contents(*freqs) == ngram_counts(tokens, n),
        window_count(tokens.len(), n) <= usize::MAX,
    ensures
        total == window_count(tokens.len(), n),
{
    let entries = table_entries(freqs);
    let ghost ev = entries_view(entries@);
    let ghost t = table_contents(*freqs);
    proof {
        assert forall|i: int| 0 <= i < ev.len() implies #[trigger] t.contains_key(ev[i].0) && t[ev[i].0] == ev[i].1 by {
            assert(ev[i] == entry_view(entries@[i]));
            assert(t.contains_key(entries@[i].0@));
        }
        assert forall|k: Seq<char>| #[trigger] t.contains_key(k) implies exists|i: int| 0 <= i < ev.len() && ev[i].0 == k by {
            let i = choose|i: int| 0 <= i < entries@.len() && entries@[i].0@ == k;
            assert(ev[i] == entry_view(entries@[i]));
        }
        assert forall|i: int, j: int| 0 <= i < j < ev.len() implies ev[i].0 != ev[j].0 by {
            assert(ev[i] == entry_view(entries@[i]));
            assert(ev[j] == entry_view(entries@[j]));
        }
        lemma_ngram_counts_total(tokens, n, ev);
    }
    let mut total: usize = 0;
    let mut i: usize = 0;
    while i < entries.len()
        invariant
            ev == entries_view(entries@),
            i <= entries@.len(),
            total == sum_counts(ev.take(i as int)),
            sum_counts(ev) <= usize::MAX,
        decreases entries@.len() - i,
    {
        proof {
            assert(ev.take(i + 1).drop_last() =~= ev.take(i as int));
            lemma_sum_prefix_bound(ev, i + 1);
            assert(ev[i as int] == entry_view(entries@[i as int]));
        }
        total = total + entries[i].1;
        i += 1;
    }
    assert(ev.take(i as int) =~= ev);
    total
}

proof fn lemma_sum_prefix_bound(s: Seq<(Seq<char>, nat)>, k: int)
    requires
        0 <= k <= s.len(),
    ensures
        sum_counts(s.take(k)) <= sum_counts(s),
    decreases s.len() - k,
{
    if k < s.len() {
        lemma_sum_prefix_bound(s, k + 1);
        assert(s.take(k + 1).drop_last() =~= s.take(k));
    } else {
        assert(s.take(k) =~= s);
    }
}

/// The keys counted exactly once.
pub open spec fn hapax_keys(t: Map<Seq<char>, nat>) -> Set<Seq<char>> {
    t.dom().filter(|k: Seq<char>| t[k] == 1)
}

/// The keys counted exactly once among the first `i` entries.
spec fn hapax_upto(entries: Seq<(String, usize)>, i: int) -> Set<Seq<char>> {
    Set::new(|k: Seq<char>| exists|j: int| 0 <= j < i && entries[j].0@ == k && entries[j].1 == 1)
}

/// The number of keys of a count table that are counted exactly once
/// (the hapax legomena of a word table).
pub fn hapax_count(freqs: &FxHashMap<String, usize>) -> (r: usize)
    ensures
        hapax_keys(table_contents(*freqs)).finite(),
        r == hapax_keys(table_contents(*freqs)).len(),
        r == Set::new(
            |k: Seq<char>| table_contents(*freqs).contains_key(k) && table_contents(*freqs)[k] == 1,
        ).len(),
{
    let entries = table_entries(freqs);
    let ghost t = table_contents(*freqs);
    let mut count: usize = 0;
    let mut i: usize = 0;
    assert(hapax_upto(entries@, 0) =~= Set::<Seq<char>>::empty());
    while i < entries.len()
        invariant
            i <= entries@.len(),
            forall|p: int, q: int| 0 <= p < q < entries@.len() ==> entries@[p].0@ != entries@[q].0@,
            hapax_upto(entries@, i as int).finite(),
            count == hapax_upto(entries@, i as int).len(),
            count <= i,
        decreases entries@.len() - i,
    {
        let ghost prev = hapax_upto(entries@, i as int);
        if entries[i].1 == 1 {
            proof {
                let k = entries@[i as int].0@;
                assert(!prev.contains(k)) by {
                    if prev.contains(k) {
                        let j = choose|j: int| 0 <= j < i && entries@[j].0@ == k && entries@[j].1 == 1;
                    }
                }
                assert(hapax_upto(entries@, i + 1) =~= prev.insert(k));
            }
            count += 1;
        } else {
            assert(hapax_upto(entries@, i + 1) =~= prev);
        }
        i += 1;
    }
    proof {
        assert forall|k: Seq<char>| hapax_upto(entries@, i as int).contains(k) <==> #[trigger] hapax_keys(t).contains(k) by {
            if hapax_keys(t).contains(k) {
                let j = choose|j: int| 0 <= j < entries@.len() && entries@[j].0@ == k;
                assert(t.contains_key(entries@[j].0@));
            }
            if hapax_upto(entries@, i as int).contains(k) {
                let j = choose|j: int| 0 <= j < i && entries@[j].0@ == k && entries@[j].1 == 1;
                assert(t.contains_key(entries@[j].0@));
            }
        }
        assert(hapax_upto(entries@, i as int) =~= hapax_keys(t));
        lemma_hapax_keys_meaning(t);
    }
    count
}

/// The hapax legomena of a count table are exactly its keys counted once,
/// whatever the key: a key is among them if and only if the table holds it
/// with count 1.
pub proof fn lemma_hapax_keys_meaning(t: Map<Seq<char>, nat>)
    ensures
        forall|k: Seq<char>| #[trigger] hapax_keys(t).contains(k) <==> t.contains_key(k) && t[k] == 1,
        hapax_keys(t) == Set::new(|k: Seq<char>| t.contains_key(k) && t[k] == 1),
{
    assert(hapax_keys(t) =~= Set::new(|k: Seq<char>| t.contains_key(k) && t[k] == 1));
}

/// The keys of a ranked list of entries of one table are pairwise different.
pub proof fn lemma_ranked_keys_distinct(t: Map<Seq<char>, nat>, s: Seq<(Seq<char>, nat)>, i: int, j: int)
    requires
        is_ranked(s),
        entries_of(t, s),
        0 <= i < s.len(),
        0 <= j < s.len(),
        i != j,
    ensures
        s[i].0 != s[j].0,
{
    assert(t.contains_key(s[i].0) && t.contains_key(s[j].0));
    if i < j {
        assert(ranks_before(s[i], s[j]));
        if s[i].0 == s[j].0 {
            lemma_ranks_order(s[i], s[j], s[j]);
            assert(s[i] == s[j]);
        }
    } else {
        assert(ranks_before(s[j], s[i]));
        if s[i].0 == s[j].0 {
            lemma_ranks_order(s[j], s[i], s[i]);
            assert(s[i] == s[j]);
        }
    }
}

/// If `x`, an entry of `t`, is in a top-n list `s`, it is there at some index.
proof fn lemma_index_of_key(t: Map<Seq<char>, nat>, n: nat, s: Seq<(Seq<char>, nat)>, k: Seq<char>) -> (q: int)
    requires
        is_top_n(t, n, s),
        exists|q: int| 0 <= q < s.len() && s[q].0 == k,
    ensures
        0 <= q < s.len(),
        s[q].0 == k,
{
    choose|q: int| 0 <= q < s.len() && s[q].0 == k
}

/// The top-n list of a table is unique: it depends on the counts alone, not
/// on the order in which the table hands out its entries.
pub proof fn lemma_top_n_unique(t: Map<Seq<char>, nat>, n: nat, s1: Seq<(Seq<char>, nat)>, s2: Seq<(Seq<char>, nat)>)
    requires
        is_top_n(t, n, s1),
        is_top_n(t, n, s2),
    ensures
        s1 == s2,
{
    let m = if s1.len() < s2.len() { s1.len() } else { s2.len() };
    assert forall|i: int| 0 <= i < m implies s1[i] == s2[i] by {
        lemma_top_n_prefix(t, n, s1, s2, i);
    }
    lemma_top_n_not_shorter(t, n, s1, s2);
    lemma_top_n_not_shorter(t, n, s2, s1);
    assert(s1 =~= s2);
}

proof fn lemma_top_n_not_shorter(t: Map<Seq<char>, nat>, n: nat, s1: Seq<(Seq<char>, nat)>, s2: Seq<(Seq<char>, nat)>)
    requires
        is_top_n(t, n, s1),
        is_top_n(t, n, s2),
        forall|i: int| 0 <= i < s1.len() && 0 <= i < s2.len() ==> s1[i] == s2[i],
    ensures
        s1.len() >= s2.len(),
{
    if s1.len() < s2.len() {
        let x = s2[s1.len() as int];
        assert(t.contains_key(s2[s1.len() as int].0));
        // `s1` is not full, so it holds every key of `t`, `x`'s among them.
        let p = lemma_index_of_key(t, n, s1, x.0);
        assert(s2[p] == s1[p]);
        lemma_ranked_keys_distinct(t, s2, p, s1.len() as int);
    }
}

proof fn lemma_top_n_prefix(t: Map<Seq<char>, nat>, n: nat, s1: Seq<(Seq<char>, nat)>, s2: Seq<(Seq<char>, nat)>, i: int)
    requires
        is_top_n(t, n, s1),
        is_top_n(t, n, s2),
        0 <= i < s1.len(),
        0 <= i < s2.len(),
    ensures
        s1[i] == s2[i],
    decreases i,
{
    assert forall|j: int| 0 <= j < i implies s1[j] == s2[j] by {
        lemma_top_n_prefix(t, n, s1, s2, j);
    }
    let a = s1[i];
    let b = s2[i];
    assert(entries_of(t, s1) && entries_of(t, s2));
    assert(t.contains_key(s1[i].0) && t[a.0] == a.1);
    assert(t.contains_key(s2[i].0));
    assert(t[s2[i].0] == s2[i].1);
    if a.0 == b.0 {
        assert(a == b);
    } else {
        // Where `a` stands in `s2`, or why it is missing there.
        if exists|q: int| 0 <= q < s2.len() && s2[q].0 == a.0 {
            let q = lemma_index_of_key(t, n, s2, a.0);
            assert(s2[q] == a);
            if q < i {
                assert(s1[q] == s2[q]);
                lemma_ranked_keys_distinct(t, s1, q, i);
            }
            assert(q != i);
            // So `q > i`: `b` ranks before `a`.
            assert(ranks_before(b, a));
            if exists|p: int| 0 <= p < s1.len() && s1[p].0 == b.0 {
                let p = lemma_index_of_key(t, n, s1, b.0);
                assert(s1[p] == b);
                if p < i {
                    assert(s1[p] == s2[p]);
                    lemma_ranked_keys_distinct(t, s2, p, i);
                }
                assert(p != i);
                assert(ranks_before(a, b));
                lemma_ranks_order(a, b, a);
            } else {
                assert(ranks_before(s1[i], (b.0, t[b.0])));
                lemma_ranks_order(a, b, a);
            }
        } else {
            assert(ranks_before(s2[i], (a.0, t[a.0])));
            assert(ranks_before(b, a));
            if exists|p: int| 0 <= p < s1.len() && s1[p].0 == b.0 {
                let p = lemma_index_of_key(t, n, s1, b.0);
                assert(s1[p] == b);
                if p < i {
                    assert(s1[p] == s2[p]);
                    lemma_ranked_keys_distinct(t, s2, p, i);
                }
                assert(p != i);
                assert(ranks_before(a, b));
                lemma_ranks_order(a, b, a);
            } else {
                assert(ranks_before(s1[i], (b.0, t[b.0])));
                lemma_ranks_order(a, b, a);
            }
        }
    }
}

/// Along a ranked list, counts never increase: the frequency of rank i + 1
/// is at most that of rank i.
pub proof fn lemma_ranked_counts_nonincreasing(s: Seq<(Seq<char>, nat)>, i: int, j: int)
    requires
        is_ranked(s),
        0 <= i <= j < s.len(),
    ensures
        s[j].1 <= s[i].1,
{
    if i < j {
        assert(ranks_before(s[i], s[j]));
    }
}

/// A top-n list with room for every key of a finite table holds every key:
/// it is the whole table in rank order.
pub proof fn lemma_top_n_complete(t: Map<Seq<char>, nat>, s: Seq<(Seq<char>, nat)>)
    requires
        t.dom().finite(),
        is_top_n(t, t.dom().len(), s),
    ensures
        s.len() == t.dom().len(),
        forall|k: Seq<char>| #[trigger] t.contains_key(k) ==> exists|i: int| 0 <= i < s.len() && s[i].0 == k,
{
    let keys = s.map_values(|e: (Seq<char>, nat)| e.0);
    assert(keys.no_duplicates()) by {
        assert forall|i: int, j: int| 0 <= i < keys.len() && 0 <= j < keys.len() && i != j implies keys[i] != keys[j] by {
            lemma_ranked_keys_distinct(t, s, i, j);
        }
    }
    keys.unique_seq_to_set();
    assert(keys.to_set().subset_of(t.dom())) by {
        assert forall|k: Seq<char>| keys.to_set().contains(k) implies t.dom().contains(k) by {
            let i = choose|i: int| 0 <= i < keys.len() && keys[i] == k;
            assert(t.contains_key(s[i].0));
        }
    }
    vstd::set_lib::lemma_len_subset(keys.to_set(), t.dom());
    assert forall|k: Seq<char>| #[trigger] t.contains_key(k) implies exists|i: int| 0 <= i < s.len() && s[i].0 == k by {
        if !(exists|i: int| 0 <= i < s.len() && s[i].0 == k) {
            // Then `s` is full and misses `k`: its keys fill `t` without `k`.
            assert(keys.to_set().subset_of(t.dom().remove(k))) by {
                assert forall|x: Seq<char>| keys.to_set().contains(x) implies t.dom().remove(k).contains(x) by {
                    let i = choose|i: int| 0 <= i < keys.len() && keys[i] == x;
                    assert(t.contains_key(s[i].0));
                }
            }
            vstd::set_lib::lemma_len_subset(keys.to_set(), t.dom().remove(k));
        }
    }
    if s.len() < t.dom().len() {
        // Some key of `t` is missing from `s`, which would then be full.
        let d = t.dom().difference(keys.to_set());
        assert(d.len() > 0) by {
            vstd::seq_lib::seq_to_set_is_finite(keys);
            assert(t.dom().intersect(keys.to_set()) =~= keys.to_set());
            vstd::set_lib::lemma_set_difference_len(t.dom(), keys.to_set());
        }
        assert(d.finite());
        assert(d != Set::<Seq<char>>::empty()) by {
            if d == Set::<Seq<char>>::empty() {
                assert(d.len() == 0);
            }
        }
        let k = d.choose();
        assert(d.contains(k));
        let i = choose|i: int| 0 <= i < s.len() && s[i].0 == k;
        assert(keys[i] == k);
    }
}

/// The keys of the n-grams that extend the context `c` by each word of `ws`.
pub open spec fn extension_keys(c: Seq<Seq<char>>, ws: Seq<Seq<char>>) -> Seq<Seq<char>> {
    ws.map_values(|w: Seq<char>| join_words(c.push(w)))
}

proof fn lemma_subrange_space_free(tokens: Seq<Seq<char>>, i: int, j: int)
    requires
        all_space_free(tokens),
        0 <= i <= j <= tokens.len(),
    ensures
        all_space_free(tokens.subrange(i, j)),
{
    assert forall|k: int| 0 <= k < tokens.subrange(i, j).len() implies space_free(#[trigger] tokens.subrange(i, j)[k]) by {
        assert(space_free(tokens[i + k]));
    }
}

proof fn lemma_push_space_free(c: Seq<Seq<char>>, w: Seq<char>)
    requires
        all_space_free(c),
        space_free(w),
    ensures
        all_space_free(c.push(w)),
{
    assert forall|k: int| 0 <= k < c.push(w).len() implies space_free(#[trigger] c.push(w)[k]) by {
        if k < c.len() {
            assert(space_free(c[k]));
        }
    }
}

/// Among the first `m` windows of `c.len() + 1` tokens, those that extend
/// the context `c` by a word of `ws` (words without spaces, each once) are
/// at most as many as the windows of `c.len()` tokens that equal `c`.
proof fn lemma_extensions_bounded(tokens: Seq<Seq<char>>, c: Seq<Seq<char>>, ws: Seq<Seq<char>>, m: nat)
    requires
        c.len() >= 1,
        all_space_free(tokens),
        all_space_free(c),
        all_space_free(ws),
        ws.no_duplicates(),
        m <= window_count(tokens.len(), c.len() + 1),
    ensures
        occurrence_sum(tokens, c.len() + 1, extension_keys(c, ws), m) <= occurrences(
            tokens,
            c.len(),
            join_words(c),
            m,
        ),
    decreases m,
{
    let e = c.len();
    let keys = extension_keys(c, ws);
    if m == 0 {
        lemma_occurrence_sum_zero(tokens, e + 1, keys);
    } else {
        let i = m - 1;
        lemma_extensions_bounded(tokens, c, ws, (m - 1) as nat);
        lemma_occurrence_sum_step(tokens, e + 1, keys, (m - 1) as nat);
        assert(keys.no_duplicates()) by {
            assert forall|a: int, b: int| 0 <= a < keys.len() && 0 <= b < keys.len() && a != b implies keys[a] != keys[b] by {
                if keys[a] == keys[b] {
                    assert(space_free(ws[a]) && space_free(ws[b]));
                    lemma_push_space_free(c, ws[a]);
                    lemma_push_space_free(c, ws[b]);
                    lemma_join_injective(c.push(ws[a]), c.push(ws[b]));
                    assert(c.push(ws[a])[e as int] == ws[a]);
                    assert(c.push(ws[b])[e as int] == ws[b]);
                }
            }
        }
        let key = ngram_key(tokens, e + 1, i);
        lemma_hits_distinct(keys, key);
        if keys.contains(key) {
            let j = choose|j: int| 0 <= j < keys.len() && keys[j] == key;
            let window = tokens.subrange(i, i + e + 1);
            assert(space_free(ws[j]));
            lemma_push_space_free(c, ws[j]);
            lemma_subrange_space_free(tokens, i, i + e + 1);
            lemma_join_injective(c.push(ws[j]), window);
            assert(window.drop_last() =~= c);
            assert(tokens.subrange(i, i + e) =~= window.drop_last());
            assert(ngram_key(tokens, e, i) == join_words(c));
        }
    }
}

/// For every context `c` of one or more words, the windows of
/// `c.len() + 1` tokens that extend `c` by some word of `ws` (each once) are
/// at most as many as the occurrences of `c`, provided no word holds a space.
pub proof fn lemma_extension_counts(tokens: Seq<Seq<char>>, c: Seq<Seq<char>>, ws: Seq<Seq<char>>)
    requires
        c.len() >= 1,
        all_space_free(tokens),
        all_space_free(c),
        all_space_free(ws),
        ws.no_duplicates(),
    ensures
        occurrence_sum(
            tokens,
            c.len() + 1,
            extension_keys(c, ws),
            window_count(tokens.len(), c.len() + 1),
        ) <= occurrences(tokens, c.len(), join_words(c), window_count(tokens.len(), c.len())),
{
    let m = window_count(tokens.len(), c.len() + 1);
    lemma_extensions_bounded(tokens, c, ws, m);
    lemma_occurrences_monotone(
        tokens,
        c.len(),
        join_words(c),
        m,
        window_count(tokens.len(), c.len()),
    );
}

/// The occurrences, among all windows of `n` tokens, of distinct keys add
/// up to at most the number of windows.
pub proof fn lemma_occurrence_sum_at_most_windows(tokens: Seq<Seq<char>>, n: nat, keys: Seq<Seq<char>>)
    requires
        keys.no_duplicates(),
    ensures
        occurrence_sum(tokens, n, keys, window_count(tokens.len(), n)) <= window_count(tokens.len(), n),
{
    lemma_occurrence_sum_bound(tokens, n, keys, window_count(tokens.len(), n));
}

} // verus!
