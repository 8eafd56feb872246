//! N-gram extraction and counting.
//!
//! An n-gram is a window of `n` consecutive tokens; it is counted under the
//! key made of its tokens joined by single spaces.

use crate::tables::{table_contents, table_get, table_insert, table_new};
use rustc_hash::FxHashMap;
use vstd::prelude::*;

verus! {

/// Words joined by single spaces (no leading or trailing space).
pub open spec fn join_words(ws: Seq<Seq<char>>) -> Seq<char>
    decreases ws.len(),
{
    if ws.len() == 0 {
        Seq::empty()
    } else if ws.len() == 1 {
        ws[0]
    } else {
        join_words(ws.drop_last()) + seq![' '] + ws.last()
    }
}

/// The characters of each token.
pub open spec fn str_views(ts: Seq<&str>) -> Seq<Seq<char>> {
    ts.map_values(|t: &str| t@)
}

/// How many windows of `n` tokens a sequence of `len` tokens has.
pub open spec fn window_count(len: nat, n: nat) -> nat {
    if n <= len {
        (len - n + 1) as nat
    } else {
        0
    }
}

/// The key of the window of `n` tokens that starts at `i`.
pub open spec fn ngram_key(tokens: Seq<Seq<char>>, n: nat, i: int) -> Seq<char> {
    join_words(tokens.subrange(i, i + n))
}

/// How many of the first `m` windows have the key `key`.
pub open spec fn occurrences(tokens: Seq<Seq<char>>, n: nat, key: Seq<char>, m: nat) -> nat
    decreases m,
{
    if m == 0 {
        0
    } else {
        occurrences(tokens, n, key, (m - 1) as nat) + if ngram_key(tokens, n, m - 1) == key {
            1nat
        } else {
            0nat
        }
    }
}

/// The count table of the first `m` windows: every key that occurs among
/// them, with its number of occurrences.
pub open spec fn counts_upto(tokens: Seq<Seq<char>>, n: nat, m: nat) -> Map<Seq<char>, nat> {
    Map::new(
        |k: Seq<char>| exists|i: int| 0 <= i < m && ngram_key(tokens, n, i) == k,
        |k: Seq<char>| occurrences(tokens, n, k, m),
    )
}

/// The n-gram count table of a token sequence.
pub open spec fn ngram_counts(tokens: Seq<Seq<char>>, n: nat) -> Map<Seq<char>, nat> {
    counts_upto(tokens, n, window_count(tokens.len(), n))
}

proof fn lemma_occurrences_bound(tokens: Seq<Seq<char>>, n: nat, key: Seq<char>, m: nat)
    ensures
        occurrences(tokens, n, key, m) <= m,
    decreases m,
{
    if m > 0 {
        lemma_occurrences_bound(tokens, n, key, (m - 1) as nat);
    }
}

proof fn lemma_occurrences_absent(tokens: Seq<Seq<char>>, n: nat, key: Seq<char>, m: nat)
    requires
        forall|i: int| 0 <= i < m ==> ngram_key(tokens, n, i) != key,
    ensures
        occurrences(tokens, n, key, m) == 0,
    decreases m,
{
    if m > 0 {
        lemma_occurrences_absent(tokens, n, key, (m - 1) as nat);
    }
}

/// Joins `tokens[start..start + n]` with single spaces.
pub fn join_window(tokens: &[&str], start: usize, n: usize) -> (key: String)
    requires
        start + n <= tokens@.len(),
    ensures
        key@ == ngram_key(str_views(tokens@), n as nat, start as int),
{
    let ghost toks = str_views(tokens@);
    let mut key = String::new();
    let mut j: usize = 0;
    while j < n
        invariant
            start + n <= tokens.len(),
            toks == str_views(tokens@),
            j <= n,
            key@ == join_words(toks.subrange(start as int, start + j)),
        decreases n - j,
    {
        proof {
            let next = toks.subrange(start as int, start + j + 1);
            assert(next.drop_last() =~= toks.subrange(start as int, start + j));
            assert(next.last() == tokens@[start + j]@);
        }
        if j > 0 {
            key.append(" ");
            proof {
                reveal_strlit(" ");
            }
        }
        key.append(tokens[start + j]);
        j += 1;
    }
    key
}

/// Counts every n-gram of `tokens`: the table holds exactly the keys of the
/// windows of `n` tokens, each with its number of windows.
pub fn ngram_frequencies(tokens: &[&str], n: usize) -> (freqs: FxHashMap<String, usize>)
    requires
        n >= 1,
    ensures
        table_contents(freqs) == ngram_counts(str_views(tokens@), n as nat),
{
    let ghost toks = str_views(tokens@);
    let mut freqs = table_new();
    if n > tokens.len() {
        assert(table_contents(freqs) =~= ngram_counts(toks, n as nat));
        return freqs;
    }
    let w = tokens.len() - n + 1;
    let mut i: usize = 0;
    assert(table_contents(freqs) =~= counts_upto(toks, n as nat, 0));
    while i < w
        invariant
            n >= 1,
            n <= tokens@.len(),
            w == tokens@.len() - n + 1,
            toks == str_views(tokens@),
            i <= w,
            table_contents(freqs) == counts_upto(toks, n as nat, i as nat),
        decreases w - i,
    {
        let key = join_window(tokens, i, n);
        let ghost k = key@;
        let old_count = table_get(&freqs, key.as_str());
        let new_count: usize = match old_count {
            Some(c) => {
                proof {
                    lemma_occurrences_bound(toks, n as nat, k, i as nat);
                }
                c + 1
            },
            None => {
                proof {
                    assert forall|j: int| 0 <= j < i implies ngram_key(toks, n as nat, j) != k by {
                        if ngram_key(toks, n as nat, j) == k {
                            assert(counts_upto(toks, n as nat, i as nat).dom().contains(k));
                        }
                    }
                    lemma_occurrences_absent(toks, n as nat, k, i as nat);
                }
                1
            },
        };
        table_insert(&mut freqs, key, new_count);
        proof {
            let prev = counts_upto(toks, n as nat, i as nat);
            let next = counts_upto(toks, n as nat, (i + 1) as nat);
            assert forall|x: Seq<char>| #[trigger] next.dom().contains(x) == prev.insert(k, new_count as nat).dom().contains(x) by {
                if x != k && next.dom().contains(x) {
                    let j = choose|j: int| 0 <= j < i + 1 && ngram_key(toks, n as nat, j) == x;
                    assert(j != i);
                }
            }
            assert(table_contents(freqs) =~= next);
        }
        i += 1;
    }
    freqs
}

proof fn lemma_occurrences_positive(tokens: Seq<Seq<char>>, n: nat, key: Seq<char>, m: nat, i: int)
    requires
        0 <= i < m,
        ngram_key(tokens, n, i) == key,
    ensures
        occurrences(tokens, n, key, m) >= 1,
    decreases m,
{
    if i < m - 1 {
        lemma_occurrences_positive(tokens, n, key, (m - 1) as nat, i);
    }
}

/// The distinct n-grams of a token sequence are finitely many and at most
/// as many as its windows; each is counted at least once and at most once
/// per window.
pub proof fn lemma_ngram_counts_bounds(tokens: Seq<Seq<char>>, n: nat)
    ensures
        ngram_counts(tokens, n).dom().finite(),
        ngram_counts(tokens, n).dom().len() <= window_count(tokens.len(), n),
        forall|k: Seq<char>|
            #[trigger] ngram_counts(tokens, n).contains_key(k) ==> 1 <= ngram_counts(tokens, n)[k]
                <= window_count(tokens.len(), n),
{
    let w = window_count(tokens.len(), n);
    let t = ngram_counts(tokens, n);
    let keys = Seq::new(w, |i: int| ngram_key(tokens, n, i));
    assert forall|k: Seq<char>| t.dom().contains(k) <==> #[trigger] keys.to_set().contains(k) by {
        if t.dom().contains(k) {
            let i = choose|i: int| 0 <= i < w && ngram_key(tokens, n, i) == k;
            assert(keys[i] == k);
        }
        if keys.to_set().contains(k) {
            let i = choose|i: int| 0 <= i < keys.len() && keys[i] == k;
            assert(ngram_key(tokens, n, i) == k);
        }
    }
    assert(t.dom() =~= keys.to_set());
    keys.lemma_cardinality_of_set();
    vstd::seq_lib::seq_to_set_is_finite(keys);
    assert forall|k: Seq<char>| #[trigger] t.contains_key(k) implies 1 <= t[k] <= w by {
        let i = choose|i: int| 0 <= i < w && ngram_key(tokens, n, i) == k;
        lemma_occurrences_positive(tokens, n, k, w, i);
        lemma_occurrences_bound(tokens, n, k, w);
    }
}

/// The words counted by a unigram table are exactly the distinct tokens.
pub proof fn lemma_unigram_keys(tokens: Seq<Seq<char>>)
    ensures
        ngram_counts(tokens, 1).dom() == tokens.to_set(),
{
    let t = ngram_counts(tokens, 1);
    assert forall|i: int| 0 <= i < tokens.len() implies #[trigger] ngram_key(tokens, 1, i) == tokens[i] by {
        assert(tokens.subrange(i, i + 1).len() == 1);
        assert(tokens.subrange(i, i + 1)[0] == tokens[i]);
    }
    assert forall|k: Seq<char>| t.dom().contains(k) <==> #[trigger] tokens.to_set().contains(k) by {
        if t.dom().contains(k) {
            let i = choose|i: int| 0 <= i < window_count(tokens.len(), 1) && ngram_key(tokens, 1, i) == k;
            assert(tokens[i] == k);
        }
        if tokens.to_set().contains(k) {
            let i = choose|i: int| 0 <= i < tokens.len() && tokens[i] == k;
            assert(ngram_key(tokens, 1, i) == k);
        }
    }
    assert(t.dom() =~= tokens.to_set());
}

/// A word without spaces.
pub open spec fn space_free(w: Seq<char>) -> bool {
    !w.contains(' ')
}

/// Words none of which holds a space.
pub open spec fn all_space_free(ws: Seq<Seq<char>>) -> bool {
    forall|i: int| 0 <= i < ws.len() ==> space_free(#[trigger] ws[i])
}

proof fn lemma_split_at_last_space(x: Seq<char>, y: Seq<char>, u: Seq<char>, v: Seq<char>)
    requires
        x + seq![' '] + y == u + seq![' '] + v,
        space_free(y),
        space_free(v),
    ensures
        x == u,
        y == v,
{
    let l = x + seq![' '] + y;
    let r = u + seq![' '] + v;
    let xs = x + seq![' '];
    let us = u + seq![' '];
    assert(seq![' '].len() == 1);
    assert(xs.len() == x.len() + 1 && us.len() == u.len() + 1);
    assert(l.len() == x.len() + 1 + y.len());
    assert(r.len() == u.len() + 1 + v.len());
    assert(l.len() == r.len());
    if y.len() < v.len() {
        let p = x.len() as int;
        assert(xs[p] == ' ');
        assert(l[p] == ' ');
        assert(p >= us.len());
        assert(r[p] == v[p - us.len()]);
        assert(v.contains(' '));
    } else if v.len() < y.len() {
        let p = u.len() as int;
        assert(us[p] == ' ');
        assert(r[p] == ' ');
        assert(p >= xs.len());
        assert(l[p] == y[p - xs.len()]);
        assert(y.contains(' '));
    }
    assert(x.len() == u.len());
    assert(x =~= l.subrange(0, x.len() as int));
    assert(u =~= r.subrange(0, u.len() as int));
    assert(y =~= l.subrange(x.len() as int + 1, l.len() as int));
    assert(v =~= r.subrange(u.len() as int + 1, r.len() as int));
}

/// Joining words without spaces loses nothing: two equally long lists of
/// such words with the same join are equal.
pub proof fn lemma_join_injective(a: Seq<Seq<char>>, b: Seq<Seq<char>>)
    requires
        a.len() == b.len(),
        a.len() >= 1,
        all_space_free(a),
        all_space_free(b),
        join_words(a) == join_words(b),
    ensures
        a == b,
    decreases a.len(),
{
    if a.len() == 1 {
        assert(a =~= b);
    } else {
        assert(space_free(a[a.len() - 1]) && space_free(b[b.len() - 1]));
        lemma_split_at_last_space(join_words(a.drop_last()), a.last(), join_words(b.drop_last()), b.last());
        assert(all_space_free(a.drop_last())) by {
            assert forall|i: int| 0 <= i < a.drop_last().len() implies space_free(#[trigger] a.drop_last()[i]) by {
                assert(space_free(a[i]));
            }
        }
        assert(all_space_free(b.drop_last())) by {
            assert forall|i: int| 0 <= i < b.drop_last().len() implies space_free(#[trigger] b.drop_last()[i]) by {
                assert(space_free(b[i]));
            }
        }
        lemma_join_injective(a.drop_last(), b.drop_last());
        assert(a =~= a.drop_last().push(a.last()));
        assert(b =~= b.drop_last().push(b.last()));
    }
}

/// The count stored for `k` in an n-gram table is its number of occurrences
/// among the windows, 0 for a key that is not an n-gram.
pub proof fn lemma_table_count(tokens: Seq<Seq<char>>, n: nat, k: Seq<char>)
    ensures
        (if ngram_counts(tokens, n).contains_key(k) {
            ngram_counts(tokens, n)[k]
        } else {
            0
        }) == occurrences(tokens, n, k, window_count(tokens.len(), n)),
{
    if !ngram_counts(tokens, n).contains_key(k) {
        lemma_occurrences_absent(tokens, n, k, window_count(tokens.len(), n));
    }
}

/// Counting over more windows never counts fewer occurrences.
pub proof fn lemma_occurrences_monotone(tokens: Seq<Seq<char>>, n: nat, key: Seq<char>, m1: nat, m2: nat)
    requires
        m1 <= m2,
    ensures
        occurrences(tokens, n, key, m1) <= occurrences(tokens, n, key, m2),
    decreases m2,
{
    if m1 < m2 {
        lemma_occurrences_monotone(tokens, n, key, m1, (m2 - 1) as nat);
    }
}

} // verus!
