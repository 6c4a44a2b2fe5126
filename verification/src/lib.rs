//! Tracks the stock tickers that are mentioned in post titles and derives
//! per-ticker portfolio metrics from them.

pub mod metrics;
pub mod nlp;
pub mod permutation;
pub mod reddit;
pub mod scanner;
pub mod text;
pub mod tickers;
