use tendie_factory::metrics::nlp::Polarity;
use tendie_factory::metrics::{
    derive_metrics, get_ticker_meta_data, mention_count, select_titles_with_tickers, Metrics,
    TickerData, Title,
};

fn strings(items: &[&str]) -> Vec<String> {
    items.iter().map(|s| s.to_string()).collect()
}

fn record(symbol: &str, name: &str) -> TickerData {
    TickerData { symbol: symbol.to_string(), company_name: name.to_string(), ..Default::default() }
}

fn title(text: &str, tickers: &[&str], sentiment: i8) -> Title {
    Title { title: text.to_string(), tickers: strings(tickers), sentiment }
}

#[test]
fn can_create_title() {
    let m: Title = Title::new("My Post title here");
    assert_eq!(m.title, "My Post title here");
}

#[test]
fn new_title_drops_punctuation_and_non_ascii() {
    let t = Title::new("GME to the moon!!! 🚀 $BB, (PLTR) é");
    assert_eq!(t.title, "GME to the moon  BB PLTR ");
    assert!(t.tickers.is_empty());
    assert_eq!(t.sentiment, 0);
    assert!(!t.has_tickers());
}

#[test]
fn new_title_of_only_punctuation_is_empty() {
    assert_eq!(Title::new("!?.,;:'\"").title, "");
    assert_eq!(Title::new("").title, "");
}

#[test]
fn cleaning_twice_changes_nothing() {
    let once = Title::new("Hello, world! ~ déjà vu");
    let twice = Title::new(&once.title);
    assert_eq!(once.title, twice.title);
}

#[test]
fn parse_for_tickers_keeps_available_candidates_in_order() {
    let available = strings(&["GME", "BB", "AMC"]);
    let t = Title::new("GME and BB beat Citadel").parse_for_tickers(
        strings(&["Citadel", "BB", "GME", "BB"]),
        &available,
    );
    assert_eq!(t.tickers, strings(&["BB", "GME", "BB"]));
    assert_eq!(t.title, "GME and BB beat Citadel");
    assert!(t.has_tickers());
}

#[test]
fn fewer_available_tickers_keep_a_subsequence() {
    let candidates = strings(&["BB", "GME", "AMC", "BB"]);
    let more = Title::new("x").parse_for_tickers(candidates.clone(), &strings(&["GME", "BB", "AMC"]));
    let fewer = Title::new("x").parse_for_tickers(candidates.clone(), &strings(&["BB"]));
    let none = Title::new("x").parse_for_tickers(candidates, &vec![]);
    assert_eq!(more.tickers, strings(&["BB", "GME", "AMC", "BB"]));
    assert_eq!(fewer.tickers, strings(&["BB", "BB"]));
    assert!(none.tickers.is_empty());
}

#[test]
fn parse_for_tickers_with_no_available_candidate() {
    let t = Title::new("nothing here").parse_for_tickers(strings(&["Apple"]), &strings(&["AAPL"]));
    assert!(t.tickers.is_empty());
    assert!(!t.has_tickers());
}

#[test]
fn get_sentiment_scores_first_polarity() {
    let t = Title::new("up").get_sentiment(&vec![Polarity::Positive, Polarity::Negative]);
    assert_eq!(t.sentiment, 1);
    let t = Title::new("down").get_sentiment(&vec![Polarity::Negative]);
    assert_eq!(t.sentiment, -1);
}

#[test]
fn default_records_are_blank() {
    let d = TickerData::default();
    assert_eq!(d.symbol, "");
    assert_eq!(d.industry, "");
    let m = Metrics::default();
    assert_eq!(m.occurrences, 0);
    assert_eq!(m.ticker, "");
    assert!(m.titles_with_ticker.is_empty());
    assert!(m.sentiments.is_empty());
    assert_eq!(m.meta.company_name, "");
}

#[test]
fn later_meta_record_replaces_earlier_one() {
    let table = get_ticker_meta_data(vec![
        record("GME", "GameStop"),
        record("BB", "BlackBerry"),
        record("GME", "GameStop Corp."),
    ]);
    assert_eq!(table.get(&"GME".to_string()).unwrap().company_name, "GameStop Corp.");
    assert_eq!(table.get(&"BB".to_string()).unwrap().company_name, "BlackBerry");
    assert!(table.get(&"AMC".to_string()).is_none());
}

#[test]
fn derive_metrics_counts_each_mention() {
    let table = get_ticker_meta_data(vec![record("GME", "GameStop"), record("BB", "BlackBerry")]);
    let titles = vec![
        title("GME to the moon", &["GME"], 1),
        title("BB and GME", &["BB", "GME"], -1),
        title("GME again", &["GME"], 1),
    ];
    let metrics = derive_metrics(&titles, &table);
    assert_eq!(metrics.len(), 2);
    let gme = &metrics[0];
    assert_eq!(gme.ticker, "GME");
    assert_eq!(gme.occurrences, 3);
    assert_eq!(gme.titles_with_ticker, strings(&["GME to the moon", "BB and GME", "GME again"]));
    assert_eq!(gme.sentiments, vec![1, -1, 1]);
    assert_eq!(gme.meta.company_name, "GameStop");
    let bb = &metrics[1];
    assert_eq!(bb.ticker, "BB");
    assert_eq!(bb.occurrences, 1);
    assert_eq!(bb.titles_with_ticker, strings(&["BB and GME"]));
    assert_eq!(bb.sentiments, vec![-1]);
    assert_eq!(bb.meta.company_name, "BlackBerry");
}

#[test]
fn occurrences_add_up_to_mentions() {
    let table = get_ticker_meta_data(vec![record("GME", ""), record("BB", ""), record("AMC", "")]);
    let titles = vec![
        title("a", &["GME", "BB"], 1),
        title("b", &["AMC", "GME", "GME"], -1),
        title("c", &[], 0),
    ];
    let metrics = derive_metrics(&titles, &table);
    let total: i32 = metrics.iter().map(|m| m.occurrences).sum();
    assert_eq!(total as usize, mention_count(&titles));
    assert_eq!(mention_count(&titles), 5);
    for m in &metrics {
        assert_eq!(m.occurrences as usize, m.titles_with_ticker.len());
        assert_eq!(m.occurrences as usize, m.sentiments.len());
    }
    let tickers: Vec<&str> = metrics.iter().map(|m| m.ticker.as_str()).collect();
    assert_eq!(tickers, vec!["GME", "BB", "AMC"]);
}

#[test]
fn derive_metrics_of_no_titles_is_empty() {
    let table = get_ticker_meta_data(vec![]);
    assert!(derive_metrics(&vec![], &table).is_empty());
    assert_eq!(mention_count(&vec![]), 0);
}

#[test]
fn selecting_titles_keeps_those_with_tickers() {
    let titles = vec![title("a", &["GME"], 1), title("b", &[], 0), title("c", &["BB"], -1)];
    let selected = select_titles_with_tickers(titles);
    let texts: Vec<&str> = selected.iter().map(|t| t.title.as_str()).collect();
    assert_eq!(texts, vec!["a", "c"]);
}

#[test]
fn selecting_titles_does_not_change_metrics() {
    let table = get_ticker_meta_data(vec![record("GME", ""), record("BB", "")]);
    let titles = vec![title("a", &["GME"], 1), title("b", &[], 0), title("c", &["BB", "GME"], -1)];
    let all = derive_metrics(&titles, &table);
    let selected = derive_metrics(&select_titles_with_tickers(titles), &table);
    assert_eq!(all.len(), selected.len());
    for (x, y) in all.iter().zip(selected.iter()) {
        assert_eq!(x.ticker, y.ticker);
        assert_eq!(x.occurrences, y.occurrences);
        assert_eq!(x.titles_with_ticker, y.titles_with_ticker);
        assert_eq!(x.sentiments, y.sentiments);
    }
}

#[test]
fn weights_are_shares_of_all_mentions() {
    let table = get_ticker_meta_data(vec![record("GME", "GameStop"), record("BB", "BlackBerry")]);
    let mut titles = Vec::new();
    for _ in 0..7 {
        titles.push(title("GME", &["GME"], 1));
    }
    titles.push(title("GME BB", &["GME", "BB"], 1));
    titles.push(title("GME and BB", &["GME", "BB"], -1));
    let metrics = derive_metrics(&titles, &table);
    let total = mention_count(&titles);
    assert_eq!(total, 11);
    let weights: Vec<(String, f64)> = metrics
        .iter()
        .map(|m| (m.ticker.clone(), m.occurrences as f64 / total as f64))
        .collect();
    assert_eq!(weights, vec![("GME".to_string(), 0.8181818181818182), ("BB".to_string(), 0.18181818181818182)]);
}

#[test]
fn listed_titles_name_their_ticker() {
    let table = get_ticker_meta_data(vec![record("GME", ""), record("BB", "")]);
    let titles = vec![title("a", &["GME"], 1), title("b", &["BB"], -1), title("c", &["BB", "GME"], 1)];
    let metrics = derive_metrics(&titles, &table);
    for m in &metrics {
        for (k, listed) in m.titles_with_ticker.iter().enumerate() {
            assert!(titles.iter().any(|t| &t.title == listed
                && t.tickers.contains(&m.ticker)
                && t.sentiment == m.sentiments[k]));
        }
    }
}

#[test]
fn metrics_ignore_title_order_and_tickerless_titles() {
    let table = get_ticker_meta_data(vec![record("GME", ""), record("BB", "")]);
    let first = vec![title("a", &["GME"], 1), title("b", &["BB"], -1), title("c", &["BB", "GME"], 1)];
    let second = vec![
        title("c", &["BB", "GME"], 1),
        title("none", &[], 0),
        title("a", &["GME"], 1),
        title("b", &["BB"], -1),
    ];
    let m1 = derive_metrics(&first, &table);
    let m2 = derive_metrics(&second, &table);
    assert_eq!(mention_count(&first), mention_count(&second));
    assert_eq!(m1.len(), m2.len());
    for x in &m1 {
        let y = m2.iter().find(|y| y.ticker == x.ticker).unwrap();
        assert_eq!(x.occurrences, y.occurrences);
        let mut tx = x.titles_with_ticker.clone();
        let mut ty = y.titles_with_ticker.clone();
        tx.sort();
        ty.sort();
        assert_eq!(tx, ty);
        let mut sx = x.sentiments.clone();
        let mut sy = y.sentiments.clone();
        sx.sort();
        sy.sort();
        assert_eq!(sx, sy);
    }
}
