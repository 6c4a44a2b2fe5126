use tendie_factory::reddit::{RedditContainer, RedditPost};
use std::collections::HashMap;
use tendie_factory::scanner::{
    distinct_tickers, get_metrics_for_tickers, get_tickers_nasdaq, tickers_with_extras,
    try_get_tickers_nasdaq,
};
use tendie_factory::tickers::TickerListError;

fn posts(titles: &[&str]) -> Vec<RedditContainer<RedditPost>> {
    titles
        .iter()
        .map(|t| RedditContainer { kind: "t3".to_string(), data: RedditPost { title: t.to_string() } })
        .collect()
}

fn strings(items: &[&str]) -> Vec<String> {
    items.iter().map(|s| s.to_string()).collect()
}

#[test]
fn counts_titles_per_ticker() {
    let counts = get_metrics_for_tickers(
        posts(&["GME to the moon", "buy $GME and BB now", "I like the stock", "AMC"]),
        strings(&["GME", "BB", "AMC", "TSLA"]),
    );
    assert_eq!(counts, vec![("GME".to_string(), 2), ("BB".to_string(), 1)]);
}

#[test]
fn a_title_counts_once_per_ticker() {
    let counts = get_metrics_for_tickers(
        posts(&["GME GME $GME GME"]),
        strings(&["GME", "GME"]),
    );
    assert_eq!(counts, vec![("GME".to_string(), 1)]);
}

#[test]
fn ticker_inside_a_word_is_not_a_mention() {
    let counts = get_metrics_for_tickers(posts(&["BBQ party", "xAMCx deal"]), strings(&["BB", "AMC"]));
    assert!(counts.is_empty());
}

#[test]
fn word_starting_with_ticker_after_space_counts() {
    let counts = get_metrics_for_tickers(posts(&["the AMCX deal"]), strings(&["AMC"]));
    assert_eq!(counts, vec![("AMC".to_string(), 1)]);
}

#[test]
fn mentions_at_end_and_in_middle() {
    let counts = get_metrics_for_tickers(
        posts(&["long PLTR", "why PLTR is great", "PLTR"]),
        strings(&["PLTR"]),
    );
    assert_eq!(counts, vec![("PLTR".to_string(), 2)]);
}

#[test]
fn no_posts_no_counts() {
    assert!(get_metrics_for_tickers(posts(&[]), strings(&["GME"])).is_empty());
}

#[test]
fn company_list_gets_extra_tickers() {
    let data = b"Symbol,Name\nAAPL,Apple\nAAPL,Apple\n";
    let tickers = get_tickers_nasdaq(data).unwrap();
    assert_eq!(tickers, strings(&["AAPL", "AAPL", "GME", "BB", "PLTR"]));
    assert_eq!(try_get_tickers_nasdaq(data).unwrap(), tickers);
}

#[test]
fn company_list_with_bad_record_is_an_error() {
    assert!(matches!(get_tickers_nasdaq(b"a,b\nc\n"), Err(TickerListError::Csv(_))));
    assert!(matches!(try_get_tickers_nasdaq(b"a,b\nc\n"), Err(TickerListError::Csv(_))));
}

#[test]
fn distinct_tickers_keep_first_occurrence() {
    assert_eq!(distinct_tickers(&strings(&["B", "A", "B", "C", "A"])), strings(&["B", "A", "C"]));
}

fn as_map(counts: Vec<(String, i32)>) -> HashMap<String, i32> {
    counts.into_iter().collect()
}

#[test]
fn counts_of_joined_posts_add_up() {
    let tickers = strings(&["GME", "BB", "AMC"]);
    let first = &["GME to the moon", "BB and GME"];
    let second = &["$AMC squeeze", "more GME please"];
    let joined: Vec<&str> = first.iter().chain(second.iter()).copied().collect();
    let all = as_map(get_metrics_for_tickers(posts(&joined), tickers.clone()));
    let c1 = as_map(get_metrics_for_tickers(posts(first), tickers.clone()));
    let c2 = as_map(get_metrics_for_tickers(posts(second), tickers.clone()));
    for t in ["GME", "BB", "AMC", "TSLA"] {
        let sum = c1.get(t).copied().unwrap_or(0) + c2.get(t).copied().unwrap_or(0);
        assert_eq!(all.get(t).copied().unwrap_or(0), sum);
    }
    assert_eq!(all.len(), 3);
}

#[test]
fn counts_ignore_post_and_ticker_order() {
    let a = get_metrics_for_tickers(
        posts(&["GME to the moon", "BB and GME", "$AMC"]),
        strings(&["GME", "BB", "AMC"]),
    );
    let b = get_metrics_for_tickers(
        posts(&["$AMC", "BB and GME", "GME to the moon"]),
        strings(&["AMC", "BB", "AMC", "GME", "BB"]),
    );
    assert_eq!(as_map(a), as_map(b));
}

#[test]
fn company_tickers_from_records() {
    let records = vec![vec!["AAPL".to_string(), "Apple".to_string()], vec!["MSFT".to_string()]];
    assert_eq!(tickers_with_extras(&records), strings(&["AAPL", "MSFT", "GME", "BB", "PLTR"]));
    assert_eq!(tickers_with_extras(&vec![]), strings(&["GME", "BB", "PLTR"]));
}
