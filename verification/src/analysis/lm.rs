//! The n-gram language model: its count tables and the counts from which
//! each smoothed probability is formed.
//!
//! `counts[i]` is the table of the (i + 1)-grams of the training tokens.
//! Probabilities are ratios of these counts; this module states and proves
//! which counts each estimate uses.

use crate::analysis::counter::{
    entries_of, extension_keys, lemma_extension_counts, lemma_ngram_counts_total,
    lemma_occurrence_sum_at_most_windows, occurrence_sum, sum_counts,
};
use crate::analysis::ngram::{
    all_space_free, join_window, join_words, lemma_table_count, ngram_counts, ngram_frequencies,
    occurrences, space_free, str_views, window_count,
};
use crate::tables::{table_contents, table_get, table_len};
use rustc_hash::FxHashMap;
use vstd::prelude::*;

verus! {

/// Summary statistics for a trained language model.
pub struct LMStats {
    /// The order of the model.
    pub order: usize,
    /// The number of distinct training tokens.
    pub vocab_size: usize,
    /// Number of distinct n-grams at each order (index 0 = unigrams).
    pub ngram_counts: Vec<usize>,
}

/// An n-gram language model trained on a token sequence.
pub struct NgramLM {
    order: usize,
    /// counts[i] holds (i + 1)-gram frequencies; counts[0] holds unigrams.
    counts: Vec<FxHashMap<String, usize>>,
    total_unigrams: usize,
    vocab_size: usize,
}

/// Which estimate Stupid Backoff uses for a word after a context.
pub enum Backoff {
    /// The maximum-likelihood estimate `count / context_count` with the
    /// longest context that gives a positive one, penalised once per word
    /// dropped from the context (`steps` times).
    Estimate { steps: usize, count: usize, context_count: usize },
    /// No context length gives a positive estimate: the uniform estimate
    /// `1 / vocab_size`, penalised `steps` times.
    Uniform { steps: usize, vocab_size: usize },
    /// No estimate at all: the model has an empty vocabulary.
    Zero,
}

/// The count stored under `k`, or 0 when `k` is absent.
pub open spec fn count_of(t: Map<Seq<char>, nat>, k: Seq<char>) -> nat {
    if t.contains_key(k) {
        t[k]
    } else {
        0
    }
}

/// How many context words an estimate of order at most `order` uses:
/// the last `order - 1` words, or all of them when there are fewer.
pub open spec fn used_context_len(ctx_len: nat, order: nat) -> nat {
    if ctx_len < order - 1 {
        ctx_len
    } else {
        (order - 1) as nat
    }
}

/// The last `e` words of a context.
pub open spec fn context_suffix(ctx: Seq<Seq<char>>, e: nat) -> Seq<Seq<char>> {
    ctx.subrange(ctx.len() - e, ctx.len() as int)
}

/// The key under which the n-gram "used context words, then `word`" is
/// looked up: the word itself when no context word is used.
pub open spec fn mle_key(word: Seq<char>, ctx: Seq<Seq<char>>, order: nat) -> Seq<char> {
    let e = used_context_len(ctx.len(), order);
    if e == 0 {
        word
    } else {
        join_words(context_suffix(ctx, e).push(word))
    }
}

impl NgramLM {
    #[verifier::type_invariant]
    spec fn well_formed(self) -> bool {
        &&& self.order >= 1
        &&& self.counts@.len() == self.order
        &&& self.vocab_size == table_contents(self.counts@[0]).dom().len()
    }

    /// The order of the model (at least 1).
    pub closed spec fn spec_order(&self) -> nat {
        self.order as nat
    }

    /// The table of the (i + 1)-grams.
    pub closed spec fn table(&self, i: int) -> Map<Seq<char>, nat> {
        table_contents(self.counts@[i])
    }

    /// The number of training tokens.
    pub closed spec fn total_unigrams(&self) -> nat {
        self.total_unigrams as nat
    }

    /// The number of distinct training tokens.
    pub closed spec fn vocab_size(&self) -> nat {
        self.vocab_size as nat
    }

    /// The pair (count of the n-gram, count of its context) from which the
    /// maximum-likelihood and add-k estimates of `word` after `ctx` are formed.
    pub open spec fn mle_spec(&self, word: Seq<char>, ctx: Seq<Seq<char>>) -> (nat, nat) {
        let e = used_context_len(ctx.len(), self.spec_order());
        let numerator = count_of(self.table(e as int), mle_key(word, ctx, self.spec_order()));
        let denominator = if e == 0 {
            self.total_unigrams()
        } else {
            count_of(self.table(e - 1), join_words(context_suffix(ctx, e)))
        };
        (numerator, denominator)
    }

    /// The sum, over the words of `ws`, of the first count of their
    /// estimates after `ctx`.
    pub open spec fn mle_count_sum(&self, ws: Seq<Seq<char>>, ctx: Seq<Seq<char>>) -> nat
        decreases ws.len(),
    {
        if ws.len() == 0 {
            0
        } else {
            self.mle_count_sum(ws.drop_last(), ctx) + self.mle_spec(ws.last(), ctx).0
        }
    }

    /// Whether the maximum-likelihood estimate with the last `l` context
    /// words is positive.
    pub open spec fn mle_positive(&self, word: Seq<char>, ctx: Seq<Seq<char>>, l: nat) -> bool {
        let (c, d) = self.mle_spec(word, context_suffix(ctx, l));
        c > 0 && d > 0
    }

    /// The longest context length `l <= from` whose estimate is positive.
    pub open spec fn backoff_level(&self, word: Seq<char>, ctx: Seq<Seq<char>>, from: int) -> Option<nat>
        decreases from + 1,
    {
        if from < 0 {
            None
        } else if self.mle_positive(word, ctx, from as nat) {
            Some(from as nat)
        } else {
            self.backoff_level(word, ctx, from - 1)
        }
    }

    /// Trains a model of order `max(order, 1)`: table i holds the counts of
    /// the (i + 1)-grams of `tokens`.
    pub fn train(tokens: &[&str], order: usize) -> (lm: Self)
        ensures
            lm.spec_order() == if order < 1 { 1 } else { order as nat },
            forall|i: int|
                0 <= i < lm.spec_order() ==> #[trigger] lm.table(i) == ngram_counts(
                    str_views(tokens@),
                    (i + 1) as nat,
                ),
            lm.total_unigrams() == tokens@.len(),
            lm.vocab_size() == ngram_counts(str_views(tokens@), 1).dom().len(),
    {
        let order = if order < 1 {
            1
        } else {
            order
        };
        let mut counts: Vec<FxHashMap<String, usize>> = Vec::new();
        let mut k: usize = 0;
        while k < order
            invariant
                k <= order,
                counts@.len() == k,
                forall|i: int|
                    0 <= i < k ==> #[trigger] table_contents(counts@[i]) == ngram_counts(
                        str_views(tokens@),
                        (i + 1) as nat,
                    ),
            decreases order - k,
        {
            counts.push(ngram_frequencies(tokens, k + 1));
            k += 1;
        }
        let total_unigrams = tokens.len();
        let vocab_size = table_len(&counts[0]);
        NgramLM { order, counts, total_unigrams, vocab_size }
    }

    /// The order of the model.
    pub fn order(&self) -> (r: usize)
        ensures
            r == self.spec_order(),
            r >= 1,
    {
        proof {
            use_type_invariant(self);
        }
        self.order
    }

    /// The number of distinct training tokens.
    pub fn vocabulary_size(&self) -> (r: usize)
        ensures
            r == self.vocab_size(),
            r == self.table(0).dom().len(),
    {
        proof {
            use_type_invariant(self);
        }
        self.vocab_size
    }

    /// Summary statistics: the order, the vocabulary size and the number of
    /// distinct n-grams at each order.
    pub fn stats(&self) -> (s: LMStats)
        ensures
            s.order == self.spec_order(),
            s.vocab_size == self.vocab_size(),
            s.vocab_size == self.table(0).dom().len(),
            s.ngram_counts@.len() == self.spec_order(),
            forall|i: int|
                0 <= i < s.ngram_counts@.len() ==> #[trigger] s.ngram_counts@[i] == self.table(
                    i,
                ).dom().len(),
    {
        proof {
            use_type_invariant(self);
        }
        let mut ngram_counts: Vec<usize> = Vec::new();
        let mut i: usize = 0;
        while i < self.counts.len()
            invariant
                i <= self.counts@.len(),
                ngram_counts@.len() == i,
                forall|j: int|
                    0 <= j < i ==> #[trigger] ngram_counts@[j] == table_contents(
                        self.counts@[j],
                    ).dom().len(),
            decreases self.counts@.len() - i,
        {
            ngram_counts.push(table_len(&self.counts[i]));
            i += 1;
        }
        LMStats { order: self.order, vocab_size: self.vocab_size, ngram_counts }
    }

    /// The counts from which the estimates of `word` after `context` are
    /// formed: (count of the n-gram, count of its context). The
    /// maximum-likelihood estimate is their ratio (0 when the second is 0);
    /// add-k smoothing adds k to the first and k times the vocabulary size to
    /// the second.
    pub fn mle_counts(&self, word: &str, context: &[&str]) -> (r: (usize, usize))
        ensures
            r.0 == self.mle_spec(word@, str_views(context@)).0,
            r.1 == self.mle_spec(word@, str_views(context@)).1,
    {
        proof {
            use_type_invariant(self);
        }
        let ghost ctx = str_views(context@);
        let e: usize = if context.len() < self.order - 1 {
            context.len()
        } else {
            self.order - 1
        };
        if e == 0 {
            let count = match table_get(&self.counts[0], word) {
                Some(c) => c,
                None => 0,
            };
            return (count, self.total_unigrams);
        }
        let start = context.len() - e;
        let mut key = join_window(context, start, e);
        proof {
            assert(ctx.subrange(start as int, start + e) =~= context_suffix(ctx, e as nat));
        }
        let context_count = match table_get(&self.counts[e - 1], key.as_str()) {
            Some(c) => c,
            None => 0,
        };
        key.append(" ");
        key.append(word);
        proof {
            reveal_strlit(" ");
            let suffix = context_suffix(ctx, e as nat);
            assert(suffix.push(word@).drop_last() =~= suffix);
            assert(key@ =~= mle_key(word@, ctx, self.order as nat));
        }
        let count = match table_get(&self.counts[e], key.as_str()) {
            Some(c) => c,
            None => 0,
        };
        (count, context_count)
    }

    /// Stupid Backoff: tries the longest usable context first, then shorter
    /// and shorter ones down to none, and takes the first whose
    /// maximum-likelihood estimate is positive; when none is, falls back to
    /// the uniform estimate over the vocabulary.
    pub fn backoff_counts(&self, word: &str, context: &[&str]) -> (r: Backoff)
        ensures
            ({
                let ctx = str_views(context@);
                let max = used_context_len(ctx.len(), self.spec_order());
                match self.backoff_level(word@, ctx, max as int) {
                    Some(l) => r matches Backoff::Estimate { steps, count, context_count } && steps
                        == max - l && count == self.mle_spec(word@, context_suffix(ctx, l)).0
                        && context_count == self.mle_spec(word@, context_suffix(ctx, l)).1,
                    None => if self.vocab_size() > 0 {
                        r matches Backoff::Uniform { steps, vocab_size } && steps == max + 1
                            && vocab_size == self.vocab_size()
                    } else {
                        r is Zero
                    },
                }
            }),
    {
        proof {
            use_type_invariant(self);
        }
        let ghost ctx = str_views(context@);
        let max: usize = if context.len() < self.order - 1 {
            context.len()
        } else {
            self.order - 1
        };
        let mut l: usize = max;
        loop
            invariant
                max == used_context_len(ctx.len(), self.spec_order()),
                ctx == str_views(context@),
                l <= max,
                max <= context@.len(),
                max < self.order,
                self.backoff_level(word@, ctx, max as int) == self.backoff_level(
                    word@,
                    ctx,
                    l as int,
                ),
            ensures
                self.backoff_level(word@, ctx, max as int) is None,
            decreases l,
        {
            let start = context.len() - l;
            let suffix = &context[start..context.len()];
            proof {
                assert(str_views(suffix@) =~= context_suffix(ctx, l as nat));
            }
            let (count, context_count) = self.mle_counts(word, suffix);
            if count > 0 && context_count > 0 {
                return Backoff::Estimate { steps: max - l, count, context_count };
            }
            if l == 0 {
                proof {
                    assert(self.backoff_level(word@, ctx, -1) is None);
                }
                break;
            }
            l -= 1;
        }
        if self.vocab_size > 0 {
            Backoff::Uniform { steps: max + 1, vocab_size: self.vocab_size }
        } else {
            Backoff::Zero
        }
    }

    /// Where the context of the token at `position` starts when scoring a
    /// sequence: `order - 1` tokens back, or at the start.
    pub fn context_start(&self, position: usize) -> (start: usize)
        ensures
            start == if position >= self.spec_order() - 1 {
                position - (self.spec_order() - 1)
            } else {
                0
            },
    {
        proof {
            use_type_invariant(self);
        }
        let ctx_len = self.order - 1;
        if position >= ctx_len {
            position - ctx_len
        } else {
            0
        }
    }
}

/// Only the last `order - 1` context words matter: the estimate after a
/// context equals the estimate after its last `order - 1` words (after no
/// words at all for a model of order 1).
pub proof fn lemma_mle_uses_last_words(lm: &NgramLM, word: Seq<char>, ctx: Seq<Seq<char>>)
    requires
        lm.spec_order() >= 1,
    ensures
        lm.mle_spec(word, ctx) == lm.mle_spec(
            word,
            context_suffix(ctx, used_context_len(ctx.len(), lm.spec_order())),
        ),
{
    let max = used_context_len(ctx.len(), lm.spec_order());
    let suffix = context_suffix(ctx, max);
    assert(context_suffix(suffix, max) =~= suffix);
}

/// Stupid Backoff uses the full usable context whenever the
/// maximum-likelihood estimate there is positive: it then backs off zero
/// steps and uses the same counts.
pub proof fn lemma_backoff_prefers_full_context(lm: &NgramLM, word: Seq<char>, ctx: Seq<Seq<char>>)
    requires
        lm.spec_order() >= 1,
        lm.mle_spec(word, ctx).0 > 0,
        lm.mle_spec(word, ctx).1 > 0,
    ensures
        lm.backoff_level(word, ctx, used_context_len(ctx.len(), lm.spec_order()) as int) == Some(
            used_context_len(ctx.len(), lm.spec_order()),
        ),
        lm.mle_spec(word, context_suffix(ctx, used_context_len(ctx.len(), lm.spec_order())))
            == lm.mle_spec(word, ctx),
{
    let max = used_context_len(ctx.len(), lm.spec_order());
    let suffix = context_suffix(ctx, max);
    assert(context_suffix(suffix, max) =~= suffix);
    assert(lm.mle_spec(word, suffix) == lm.mle_spec(word, ctx));
}

/// The unigram counts of a trained model add up to its number of training
/// tokens, so its unigram maximum-likelihood estimates add up to 1.
pub proof fn lemma_unigram_mass(lm: &NgramLM, tokens: Seq<Seq<char>>, s: Seq<(Seq<char>, nat)>)
    requires
        lm.table(0) == ngram_counts(tokens, 1),
        lm.total_unigrams() == tokens.len(),
        entries_of(lm.table(0), s),
        forall|i: int, j: int| 0 <= i < j < s.len() ==> s[i].0 != s[j].0,
        forall|k: Seq<char>|
            #[trigger] lm.table(0).contains_key(k) ==> exists|i: int| 0 <= i < s.len() && s[i].0 == k,
    ensures
        sum_counts(s) == lm.total_unigrams(),
{
    lemma_ngram_counts_total(tokens, 1, s);
}

proof fn lemma_mle_count_sum_as_occurrences(
    lm: &NgramLM,
    tokens: Seq<Seq<char>>,
    ctx: Seq<Seq<char>>,
    ws: Seq<Seq<char>>,
)
    requires
        lm.spec_order() >= 1,
        forall|i: int|
            0 <= i < lm.spec_order() ==> #[trigger] lm.table(i) == ngram_counts(tokens, (i + 1) as nat),
    ensures
        ({
            let e = used_context_len(ctx.len(), lm.spec_order());
            let keys = if e == 0 {
                ws
            } else {
                extension_keys(context_suffix(ctx, e), ws)
            };
            lm.mle_count_sum(ws, ctx) == occurrence_sum(tokens, e + 1, keys, window_count(tokens.len(), e + 1))
        }),
    decreases ws.len(),
{
    let e = used_context_len(ctx.len(), lm.spec_order());
    if ws.len() > 0 {
        lemma_mle_count_sum_as_occurrences(lm, tokens, ctx, ws.drop_last());
        let w = ws.last();
        let key = mle_key(w, ctx, lm.spec_order());
        assert(lm.table(e as int) == ngram_counts(tokens, e + 1));
        lemma_table_count(tokens, e + 1, key);
        if e == 0 {
            assert(key == w);
        } else {
            let sfx = context_suffix(ctx, e);
            assert(extension_keys(sfx, ws.drop_last()) =~= extension_keys(sfx, ws).drop_last());
            assert(extension_keys(sfx, ws).last() == join_words(sfx.push(w)));
        }
    }
}

/// The maximum-likelihood estimates of distinct words after a context add up
/// to at most 1: for a model trained on words without spaces, their first
/// counts add up to at most the count they are all divided by.
pub proof fn lemma_mle_distribution(
    lm: &NgramLM,
    tokens: Seq<Seq<char>>,
    ctx: Seq<Seq<char>>,
    ws: Seq<Seq<char>>,
)
    requires
        lm.spec_order() >= 1,
        forall|i: int|
            0 <= i < lm.spec_order() ==> #[trigger] lm.table(i) == ngram_counts(tokens, (i + 1) as nat),
        lm.total_unigrams() == tokens.len(),
        all_space_free(tokens),
        all_space_free(ctx),
        all_space_free(ws),
        ws.no_duplicates(),
    ensures
        forall|w: Seq<char>| lm.mle_count_sum(ws, ctx) <= #[trigger] lm.mle_spec(w, ctx).1,
{
    let e = used_context_len(ctx.len(), lm.spec_order());
    lemma_mle_count_sum_as_occurrences(lm, tokens, ctx, ws);
    if e == 0 {
        lemma_occurrence_sum_at_most_windows(tokens, 1, ws);
    } else {
        let sfx = context_suffix(ctx, e);
        assert(all_space_free(sfx)) by {
            assert forall|k: int| 0 <= k < sfx.len() implies space_free(#[trigger] sfx[k]) by {
                assert(space_free(ctx[ctx.len() - e + k]));
            }
        }
        lemma_extension_counts(tokens, sfx, ws);
        assert(lm.table(e - 1) == ngram_counts(tokens, e as nat));
        lemma_table_count(tokens, e as nat, join_words(sfx));
    }
}

/// What the maximum-likelihood counts are for a model of order N trained on
/// `tokens`. Let c be the last min(|ctx|, N - 1) context words. The first
/// count is how many windows of |c| + 1 tokens read "c, then `word`"; the
/// second is how many windows of |c| tokens read c, or the number of tokens
/// when c is empty.
pub proof fn lemma_mle_counts_meaning(
    lm: &NgramLM,
    tokens: Seq<Seq<char>>,
    word: Seq<char>,
    ctx: Seq<Seq<char>>,
)
    requires
        lm.spec_order() >= 1,
        forall|i: int|
            0 <= i < lm.spec_order() ==> #[trigger] lm.table(i) == ngram_counts(tokens, (i + 1) as nat),
        lm.total_unigrams() == tokens.len(),
    ensures
        ({
            let n = lm.spec_order() as int;
            let e: int = if ctx.len() + 1 <= n { ctx.len() as int } else { n - 1 };
            let c = ctx.subrange(ctx.len() - e, ctx.len() as int);
            &&& lm.mle_spec(word, ctx).0 == occurrences(
                tokens,
                (e + 1) as nat,
                join_words(c.push(word)),
                window_count(tokens.len(), (e + 1) as nat),
            )
            &&& lm.mle_spec(word, ctx).1 == if e == 0 {
                tokens.len()
            } else {
                occurrences(tokens, e as nat, join_words(c), window_count(tokens.len(), e as nat))
            }
        }),
{
    let n = lm.spec_order() as int;
    let e: int = if ctx.len() + 1 <= n { ctx.len() as int } else { n - 1 };
    let c = ctx.subrange(ctx.len() - e, ctx.len() as int);
    assert(used_context_len(ctx.len(), lm.spec_order()) == e);
    assert(context_suffix(ctx, e as nat) == c);
    assert(lm.table(e) == ngram_counts(tokens, (e + 1) as nat));
    if e == 0 {
        assert(c.push(word).len() == 1);
        assert(c.push(word)[0] == word);
        assert(join_words(c.push(word)) == word);
    } else {
        assert(lm.table(e - 1) == ngram_counts(tokens, e as nat));
        lemma_table_count(tokens, e as nat, join_words(c));
    }
    lemma_table_count(tokens, (e + 1) as nat, join_words(c.push(word)));
}

proof fn lemma_backoff_level_from(lm: &NgramLM, word: Seq<char>, ctx: Seq<Seq<char>>, from: int)
    requires
        from >= -1,
    ensures
        match lm.backoff_level(word, ctx, from) {
            Some(l) => {
                &&& 0 <= l <= from
                &&& lm.mle_spec(word, ctx.subrange(ctx.len() - l, ctx.len() as int)).0 > 0
                &&& lm.mle_spec(word, ctx.subrange(ctx.len() - l, ctx.len() as int)).1 > 0
                &&& forall|m: int|
                    l < m <= from ==> !(#[trigger] lm.mle_spec(
                        word,
                        ctx.subrange(ctx.len() - m, ctx.len() as int),
                    ).0 > 0 && lm.mle_spec(word, ctx.subrange(ctx.len() - m, ctx.len() as int)).1
                        > 0)
            },
            None => forall|m: int|
                0 <= m <= from ==> !(#[trigger] lm.mle_spec(
                    word,
                    ctx.subrange(ctx.len() - m, ctx.len() as int),
                ).0 > 0 && lm.mle_spec(word, ctx.subrange(ctx.len() - m, ctx.len() as int)).1 > 0),
        },
    decreases from + 1,
{
    if from >= 0 {
        lemma_backoff_level_from(lm, word, ctx, from - 1);
        assert(context_suffix(ctx, from as nat) == ctx.subrange(ctx.len() - from, ctx.len() as int));
    }
}

/// Stupid Backoff takes the longest context whose estimate is positive: with
/// max = min(|ctx|, order - 1), it stops at a level l <= max where the
/// n-gram count and the context count with the last l context words are both
/// positive, and no longer level up to max has both positive; it falls back
/// to the uniform estimate only when no level from 0 to max has both positive.
/// So it never passes over a positive estimate.
pub proof fn lemma_backoff_meaning(lm: &NgramLM, word: Seq<char>, ctx: Seq<Seq<char>>)
    requires
        lm.spec_order() >= 1,
    ensures
        ({
            let n = lm.spec_order() as int;
            let max: int = if ctx.len() + 1 <= n { ctx.len() as int } else { n - 1 };
            match lm.backoff_level(word, ctx, used_context_len(ctx.len(), lm.spec_order()) as int) {
                Some(l) => {
                    &&& 0 <= l <= max
                    &&& lm.mle_spec(word, ctx.subrange(ctx.len() - l, ctx.len() as int)).0 > 0
                    &&& lm.mle_spec(word, ctx.subrange(ctx.len() - l, ctx.len() as int)).1 > 0
                    &&& forall|m: int|
                        l < m <= max ==> !(#[trigger] lm.mle_spec(
                            word,
                            ctx.subrange(ctx.len() - m, ctx.len() as int),
                        ).0 > 0 && lm.mle_spec(
                            word,
                            ctx.subrange(ctx.len() - m, ctx.len() as int),
                        ).1 > 0)
                },
                None => forall|m: int|
                    0 <= m <= max ==> !(#[trigger] lm.mle_spec(
                        word,
                        ctx.subrange(ctx.len() - m, ctx.len() as int),
                    ).0 > 0 && lm.mle_spec(word, ctx.subrange(ctx.len() - m, ctx.len() as int)).1
                        > 0),
            }
        }),
{
    let n = lm.spec_order() as int;
    let max: int = if ctx.len() + 1 <= n { ctx.len() as int } else { n - 1 };
    assert(used_context_len(ctx.len(), lm.spec_order()) == max);
    lemma_backoff_level_from(lm, word, ctx, max);
}

} // verus!
