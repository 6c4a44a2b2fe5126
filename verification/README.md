# tendie_factory

Tracks the stock tickers that posts of the wallstreetbets forum mention and
derives a portfolio from them: each mentioned ticker gets its number of
mentions, the titles that mention it, their sentiments and the ticker's meta
data from the exchange's screener table; its portfolio weight is its share of
all mentions.

Layout:

- `src/` — the verified library.
  - `text.rs`: title cleaning (ASCII, no punctuation).
  - `metrics.rs`: titles, ticker meta data table, per-ticker metrics and the
    laws that relate them (every mention counted once, one entry per ticker).
  - `metrics/nlp.rs`, `nlp.rs`: what is kept of the entity and sentiment
    models' outputs, for one text and for a batch.
  - `reddit.rs`: the forum listing and its titles.
  - `tickers.rs`: the ticker list read from CSV data (through the `csv` crate).
  - `scanner.rs`: counting titles that mention each ticker by text search
    (through the `twoway` crate), and the laws of those counts.
  - `permutation.rs`: quantities that add up over concatenation do not
    depend on order.
- `tests/` — tests of the library.
- `app/` — the program: downloads, file reading, the language models
  (rust-bert) and the floating-point figures of the JSON output.
