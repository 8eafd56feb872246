use rustc_hash::FxHashSet;
use txtstat::commands::{entropy, ngrams, stats, zipf};
use txtstat::commands::ngrams::NgramError;
use txtstat::utils::format::format_num;
use txtstat::utils::stopwords::{filter_words, parse_stopwords};

const SMALL: &str = "The cat sat on the mat. The cat ran! A dog sat on the cat.";

fn row(k: &str, v: usize) -> (String, usize) {
    (k.to_string(), v)
}

#[test]
fn test_stats_json() {
    let report = stats::run(SMALL, "small.txt");
    assert!(report.tokens > 0);
    assert_eq!(report.source, "small.txt");
}

#[test]
fn test_stats_single_word() {
    let report = stats::run("hello\n", "single-word.txt");
    assert_eq!(report.tokens, 1);
    assert_eq!(report.sentences, 1);
    assert_eq!(report.types, 1);
    assert_eq!(report.hapax, 1);
}

#[test]
fn test_stats_empty_file() {
    let report = stats::run("", "empty.txt");
    assert_eq!(report.tokens, 0);
    assert_eq!(report.types, 0);
    assert_eq!(report.hapax, 0);
    assert_eq!(report.chars, 0);
    assert_eq!(report.sentences, 0);
}

#[test]
fn test_stdin_input() {
    let report = stats::run("hello world hello", "<stdin>");
    assert_eq!(report.tokens, 3);
    assert_eq!(report.types, 2);
    assert_eq!(report.hapax, 1);
    assert_eq!(report.chars, 17);
    assert_eq!(report.sentences, 1);
}

#[test]
fn stats_counts() {
    let report = stats::run(SMALL, "small.txt");
    // The, cat, sat, on, the, mat, The, cat, ran, A, dog, sat, on, the, cat
    assert_eq!(report.tokens, 15);
    // The, cat, sat, on, the, mat, ran, A, dog
    assert_eq!(report.types, 9);
    // mat, ran, A, dog
    assert_eq!(report.hapax, 4);
    assert_eq!(report.chars, SMALL.chars().count());
    assert_eq!(report.sentences, 3);
    let blank = stats::run("  \n\t ", "blank.txt");
    assert_eq!(blank.sentences, 0);
    assert_eq!(blank.tokens, 0);
    assert_eq!(blank.chars, 5);
}

#[test]
fn test_ngrams_bigrams_json() {
    let report = ngrams::run(SMALL, "small.txt", 2, 3, None, false, None).unwrap();
    assert!(report.rows.len() <= 3);
    assert_eq!(report.label, "Bigram");
    assert_eq!(report.rows, vec![row("The cat", 2), row("on the", 2), row("sat on", 2)]);
    assert_eq!(report.total, 14);
}

#[test]
fn test_ngrams_case_insensitive() {
    let report = ngrams::run(SMALL, "small.txt", 1, 10, None, true, None).unwrap();
    assert!(!report.rows.is_empty());
    assert_eq!(report.rows[0], row("the", 4));
    assert_eq!(report.rows[1], row("cat", 3));
    assert_eq!(report.total, 15);
}

#[test]
fn ngrams_rejects_size_zero() {
    assert_eq!(ngrams::run(SMALL, "small.txt", 0, 10, None, false, None).err(), Some(NgramError::SizeTooSmall));
}

#[test]
fn ngrams_minimum_frequency_and_labels() {
    let report = ngrams::run(SMALL, "small.txt", 1, 10, Some(3), false, None).unwrap();
    assert_eq!(report.label, "Unigram");
    assert_eq!(report.rows, vec![row("cat", 3)]);
    let tri = ngrams::run(SMALL, "small.txt", 3, 1, None, false, None).unwrap();
    assert_eq!(tri.label, "Trigram");
    assert_eq!(tri.rows, vec![row("sat on the", 2)]);
    let four = ngrams::run(SMALL, "small.txt", 4, 1, None, false, None).unwrap();
    assert_eq!(four.label, "N-gram");
    assert_eq!(four.total, 12);
    let long = ngrams::run("a b", "x", 3, 10, None, false, None).unwrap();
    assert_eq!(long.total, 0);
    assert!(long.rows.is_empty());
}

#[test]
fn ngrams_with_stopwords() {
    let stop = parse_stopwords("the\non\na\n");
    let report = ngrams::run(SMALL, "small.txt", 2, 10, None, false, Some(&stop)).unwrap();
    // cat sat mat cat ran dog sat cat
    assert_eq!(report.total, 7);
    assert_eq!(
        report.rows,
        vec![
            row("cat ran", 1),
            row("cat sat", 1),
            row("dog sat", 1),
            row("mat cat", 1),
            row("ran dog", 1),
            row("sat cat", 1),
            row("sat mat", 1),
        ]
    );
}

#[test]
fn entropy_tables() {
    let report = entropy::run("a b a b c", "x");
    assert_eq!(report.vocab_size, 3);
    assert_eq!(report.unigrams.len(), 3);
    assert_eq!(report.bigrams.get("a b"), Some(&2));
    assert_eq!(report.bigrams.len(), 3);
    assert_eq!(report.trigrams.get("a b a"), Some(&1));
    assert_eq!(report.trigrams.len(), 3);
}

#[test]
fn zipf_ranks() {
    let report = zipf::run(SMALL, "small.txt", 3);
    assert_eq!(report.vocab_size, 9);
    assert_eq!(report.ranked.len(), 9);
    assert_eq!(report.ranked[0], row("cat", 3));
    assert_eq!(report.ranked[1], row("The", 2));
    assert_eq!(report.ranked[4], row("the", 2));
    assert_eq!(report.rank_freq[0], (1, 3));
    assert_eq!(report.rank_freq[8], (9, 1));
    assert_eq!(report.display_count, 3);
    for w in report.rank_freq.windows(2) {
        assert!(w[0].1 >= w[1].1);
        assert_eq!(w[0].0 + 1, w[1].0);
    }
    let all = zipf::run("x y", "s", 10);
    assert_eq!(all.display_count, 2);
}

#[test]
fn stopword_list_parsing() {
    let set = parse_stopwords("# English\n The \n\nAND\r\n  # note\nof");
    let mut expected = FxHashSet::default();
    expected.insert("the".to_string());
    expected.insert("and".to_string());
    expected.insert("of".to_string());
    assert_eq!(set, expected);
    assert!(parse_stopwords("").is_empty());
}

#[test]
fn stopword_filtering() {
    let stop = parse_stopwords("the\nof");
    let kept = filter_words(&["The", "house", "OF", "cards", "the"], &stop);
    assert_eq!(kept, vec!["house", "cards"]);
    let again = filter_words(&kept, &stop);
    assert_eq!(again, kept);
}

#[test]
fn stopword_lines_are_split_and_trimmed() {
    // CRLF endings, a trailing carriage return and tabs are all trimmed away.
    let set = parse_stopwords("\tA b \r\nC\r");
    let mut expected = FxHashSet::default();
    expected.insert("a b".to_string());
    expected.insert("c".to_string());
    assert_eq!(set, expected);
}

#[test]
fn case_folding_is_unicode_aware() {
    let stop = parse_stopwords("éclair");
    let kept = filter_words(&["ÉCLAIR", "Éclairs", "éclair"], &stop);
    assert_eq!(kept, vec!["Éclairs"]);
    let report = ngrams::run("ÀB àb Àb", "x", 1, 10, None, true, None).unwrap();
    assert_eq!(report.rows, vec![row("àb", 3)]);
}

#[test]
fn stopword_lines_trim_unicode_white_space() {
    let set = parse_stopwords("\u{3000}word\u{2009}\n\u{a0}#x\n\u{85}\n");
    let mut expected = FxHashSet::default();
    expected.insert("word".to_string());
    assert_eq!(set, expected);
}

#[test]
fn counts_are_grouped_by_thousands() {
    assert_eq!(format_num(0), "0");
    assert_eq!(format_num(7), "7");
    assert_eq!(format_num(999), "999");
    assert_eq!(format_num(1000), "1,000");
    assert_eq!(format_num(12483), "12,483");
    assert_eq!(format_num(1_000_005), "1,000,005");
    assert_eq!(format_num(usize::MAX), {
        let digits = usize::MAX.to_string();
        let mut out = String::new();
        for (i, ch) in digits.chars().enumerate() {
            if i > 0 && (digits.len() - i) % 3 == 0 {
                out.push(',');
            }
            out.push(ch);
        }
        out
    });
}
