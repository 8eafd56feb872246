# txtstat

Corpus-level text statistics, with the counting logic verified in Verus.

- `src/` is the verified library.
  - `tables.rs`: the `rustc_hash` count tables and word sets, described by
    what they hold; every operation on them goes through a wrapper with a
    contract.
  - `text.rs`: case folding, trimming, line splitting and string order from
    `std`, with their documented behaviour as contracts.
  - `analysis/`: tokenization (`unicode-segmentation`), n-gram counting,
    word ranking, and the n-gram language model's counts (maximum
    likelihood, add-k and Stupid Backoff all take their counts from it).
  - `utils/stopwords.rs`: parsing stopword lists and removing stopwords.
  - `utils/format.rs`: counts with thousands separators.
  - `commands/`: the figures of each report (stats, n-grams, entropy, Zipf,
    perplexity).
- `app/` is the command-line program: argument parsing, reading files and
  stdin, the floating-point parts (probabilities, entropies, perplexity,
  the Zipf fit, sparklines) and rendering tables as text, JSON or CSV.
- `tests/` exercises the library on concrete texts.
