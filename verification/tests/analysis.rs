use rustc_hash::FxHashMap;
use txtstat::analysis::counter::{top_n, top_n_at_least, word_frequencies};
use txtstat::analysis::lm::{Backoff, NgramLM};
use txtstat::analysis::ngram::{join_window, ngram_frequencies};
use txtstat::analysis::tokenizer::char_count;
use txtstat::commands::perplexity;

fn table(pairs: &[(&str, usize)]) -> FxHashMap<String, usize> {
    let mut m = FxHashMap::default();
    for (k, v) in pairs {
        m.insert(k.to_string(), *v);
    }
    m
}

const CORPUS: [&str; 5] = ["the", "cat", "the", "cat", "sat"];

#[test]
fn bigram_counts() {
    let f = ngram_frequencies(&CORPUS, 2);
    assert_eq!(f, table(&[("the cat", 2), ("cat the", 1), ("cat sat", 1)]));
    let total: usize = f.values().sum();
    assert_eq!(total, 4);
}

#[test]
fn unigram_and_trigram_counts() {
    let u = ngram_frequencies(&CORPUS, 1);
    assert_eq!(u, table(&[("the", 2), ("cat", 2), ("sat", 1)]));
    let t = ngram_frequencies(&CORPUS, 3);
    assert_eq!(t, table(&[("the cat the", 1), ("cat the cat", 1), ("the cat sat", 1)]));
}

#[test]
fn ngram_longer_than_text_is_empty() {
    assert!(ngram_frequencies(&CORPUS, 6).is_empty());
    assert_eq!(ngram_frequencies(&CORPUS, 5).len(), 1);
    assert!(ngram_frequencies(&[], 1).is_empty());
}

#[test]
fn window_keys_are_space_joined() {
    assert_eq!(join_window(&CORPUS, 1, 3), "cat the cat");
    assert_eq!(join_window(&CORPUS, 4, 1), "sat");
    assert_eq!(join_window(&CORPUS, 2, 0), "");
}

#[test]
fn train_and_stats() {
    let lm = NgramLM::train(&CORPUS, 3);
    assert_eq!(lm.order(), 3);
    assert_eq!(lm.vocabulary_size(), 3);
    let s = lm.stats();
    assert_eq!(s.order, 3);
    assert_eq!(s.vocab_size, 3);
    assert_eq!(s.ngram_counts, vec![3, 3, 3]);
}

#[test]
fn train_order_zero_is_unigram() {
    let lm = NgramLM::train(&CORPUS, 0);
    assert_eq!(lm.order(), 1);
    assert_eq!(lm.stats().ngram_counts, vec![3]);
}

#[test]
fn train_higher_order_than_text() {
    let lm = NgramLM::train(&CORPUS, 7);
    assert_eq!(lm.stats().ngram_counts, vec![3, 3, 3, 2, 1, 0, 0]);
}

#[test]
fn mle_counts_unigram() {
    let lm = NgramLM::train(&CORPUS, 3);
    assert_eq!(lm.mle_counts("the", &[]), (2, 5));
    assert_eq!(lm.mle_counts("dog", &[]), (0, 5));
}

#[test]
fn mle_counts_with_context() {
    let lm = NgramLM::train(&CORPUS, 3);
    // P(cat | the) = C(the cat) / C(the)
    assert_eq!(lm.mle_counts("cat", &["the"]), (2, 2));
    // Only the last two context words count for a trigram model.
    assert_eq!(lm.mle_counts("sat", &["dog", "the", "cat"]), (1, 2));
    assert_eq!(lm.mle_counts("the", &["cat"]), (1, 2));
    assert_eq!(lm.mle_counts("dog", &["the", "cat"]), (0, 2));
    assert_eq!(lm.mle_counts("cat", &["sat", "sat"]), (0, 0));
}

#[test]
fn mle_counts_unigram_model_with_context() {
    let lm = NgramLM::train(&CORPUS, 1);
    // A unigram model uses no context words: the estimate is C(cat) / N.
    assert_eq!(lm.mle_counts("cat", &["the"]), (2, 5));
    assert_eq!(lm.mle_counts("cat", &["the"]), lm.mle_counts("cat", &[]));
}

#[test]
fn backoff_uses_full_context_when_seen() {
    let lm = NgramLM::train(&CORPUS, 3);
    match lm.backoff_counts("sat", &["the", "cat"]) {
        Backoff::Estimate { steps, count, context_count } => {
            assert_eq!((steps, count, context_count), (0, 1, 2));
        }
        _ => panic!("expected an estimate"),
    }
}

#[test]
fn backoff_drops_context_words() {
    let lm = NgramLM::train(&CORPUS, 3);
    // "sat sat" unseen, "sat" as context unseen, unigram "cat" seen.
    match lm.backoff_counts("cat", &["sat", "sat"]) {
        Backoff::Estimate { steps, count, context_count } => {
            assert_eq!((steps, count, context_count), (2, 2, 5));
        }
        _ => panic!("expected an estimate"),
    }
    match lm.backoff_counts("the", &["sat", "cat"]) {
        Backoff::Estimate { steps, count, context_count } => {
            assert_eq!((steps, count, context_count), (1, 1, 2));
        }
        _ => panic!("expected an estimate"),
    }
}

#[test]
fn backoff_uniform_and_zero() {
    let lm = NgramLM::train(&CORPUS, 2);
    match lm.backoff_counts("dog", &["the"]) {
        Backoff::Uniform { steps, vocab_size } => assert_eq!((steps, vocab_size), (2, 3)),
        _ => panic!("expected the uniform estimate"),
    }
    let empty = NgramLM::train(&[], 3);
    assert!(matches!(empty.backoff_counts("dog", &["a", "b"]), Backoff::Zero));
}

#[test]
fn context_start_positions() {
    let lm = NgramLM::train(&CORPUS, 3);
    assert_eq!(lm.context_start(0), 0);
    assert_eq!(lm.context_start(1), 0);
    assert_eq!(lm.context_start(2), 0);
    assert_eq!(lm.context_start(4), 2);
    let uni = NgramLM::train(&CORPUS, 1);
    assert_eq!(uni.context_start(4), 4);
}

#[test]
fn ranking_breaks_ties_by_key() {
    let t = table(&[("b", 2), ("a", 2), ("c", 1), ("d", 5)]);
    let all = top_n(&t, 10);
    assert_eq!(
        all,
        vec![("d".to_string(), 5), ("a".to_string(), 2), ("b".to_string(), 2), ("c".to_string(), 1)]
    );
    assert_eq!(top_n(&t, 2), vec![("d".to_string(), 5), ("a".to_string(), 2)]);
    assert!(top_n(&t, 0).is_empty());
}

#[test]
fn ranking_with_minimum() {
    let t = table(&[("b", 2), ("a", 2), ("c", 1), ("d", 5)]);
    assert_eq!(
        top_n_at_least(&t, 10, 2),
        vec![("d".to_string(), 5), ("a".to_string(), 2), ("b".to_string(), 2)]
    );
    assert!(top_n_at_least(&t, 10, 6).is_empty());
}

#[test]
fn ranking_orders_keys_by_code_point() {
    let t = table(&[("b", 1), ("B", 1), ("é", 1), ("ab", 1), ("a", 1)]);
    let keys: Vec<String> = top_n(&t, 10).into_iter().map(|(k, _)| k).collect();
    assert_eq!(keys, vec!["B", "a", "ab", "b", "é"]);
}

#[test]
fn words_follow_word_boundaries() {
    let r = perplexity::run("The quick (\"brown\") fox can't jump 32.3 feet, right?", "s", 2);
    assert_eq!(r.words, vec!["The", "quick", "brown", "fox", "can't", "jump", "32.3", "feet", "right"]);
    assert!(perplexity::run("  ... !!", "s", 2).words.is_empty());
}

#[test]
fn word_frequencies_keep_case() {
    let f = word_frequencies("Hello, hello world! hello");
    assert_eq!(f, table(&[("Hello", 1), ("hello", 2), ("world", 1)]));
}

#[test]
fn counts_characters() {
    assert_eq!(char_count("héllo"), 5);
    assert_eq!(char_count(""), 0);
}

#[test]
fn perplexity_model_and_stats() {
    let r = perplexity::run("the cat the cat sat", "corpus.txt", 3);
    assert_eq!(r.source, "corpus.txt");
    assert_eq!(r.stats.order, 3);
    assert_eq!(r.stats.vocab_size, 3);
    assert_eq!(r.stats.ngram_counts, vec![3, 3, 3]);
    assert_eq!(r.model.mle_counts("cat", &["the"]), (2, 2));
    let zero = perplexity::run("a b", "x", 0);
    assert_eq!(zero.model.order(), 1);
}

#[test]
fn ranking_ignores_insertion_order() {
    let a = table(&[("x", 1), ("y", 3), ("z", 3), ("w", 2)]);
    let b = table(&[("w", 2), ("z", 3), ("y", 3), ("x", 1)]);
    assert_eq!(top_n(&a, 3), top_n(&b, 3));
    assert_eq!(top_n(&a, 3), vec![("y".to_string(), 3), ("z".to_string(), 3), ("w".to_string(), 2)]);
}

#[test]
fn unigram_counts_add_up_to_token_count() {
    let r = perplexity::run("to be or not to be that is the question", "s", 2);
    let vocab: Vec<&str> = vec!["to", "be", "or", "not", "that", "is", "the", "question"];
    assert_eq!(r.stats.vocab_size, vocab.len());
    let mut sum = 0;
    for w in &vocab {
        let (count, total) = r.model.mle_counts(w, &[]);
        assert_eq!(total, 10);
        sum += count;
    }
    assert_eq!(sum, 10);
}

#[test]
fn backoff_matches_mle_when_context_seen() {
    let lm = NgramLM::train(&CORPUS, 2);
    let (count, context_count) = lm.mle_counts("cat", &["the"]);
    match lm.backoff_counts("cat", &["the"]) {
        Backoff::Estimate { steps, count: c, context_count: d } => {
            assert_eq!((steps, c, d), (0, count, context_count));
        }
        _ => panic!("expected an estimate"),
    }
}

#[test]
fn mle_estimates_after_a_context_sum_to_at_most_one() {
    let toks = ["the", "cat", "the", "dog", "the", "cat", "sat", "the"];
    let lm = NgramLM::train(&toks, 2);
    let mut sum = 0;
    for w in ["the", "cat", "dog", "sat"] {
        let (count, context_count) = lm.mle_counts(w, &["the"]);
        assert_eq!(context_count, 4);
        sum += count;
    }
    // The final "the" has no successor, so the estimates add up to 3/4.
    assert_eq!(sum, 3);
}

#[test]
fn unigram_model_ignores_context_in_both_estimates() {
    let toks = [" a", "a", "a"];
    let lm = NgramLM::train(&toks, 1);
    assert_eq!(lm.mle_counts("a", &["x"]), (2, 3));
    match lm.backoff_counts("a", &["x"]) {
        Backoff::Estimate { steps, count, context_count } => {
            assert_eq!((steps, count, context_count), (0, 2, 3));
        }
        _ => panic!("expected an estimate"),
    }
}
