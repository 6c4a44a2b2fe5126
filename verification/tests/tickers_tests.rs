use tendie_factory::tickers::{
    get_tickers_nasdaq, tickers_from_records, try_get_tickers_nasdaq, TickerListError,
};

#[test]
fn reads_distinct_first_fields_after_header() {
    let data = b"Symbol,Name\nGME,GameStop\nBB,BlackBerry\nGME,GameStop again\n";
    let tickers = get_tickers_nasdaq(data);
    assert_eq!(try_get_tickers_nasdaq(data).unwrap(), tickers);
    assert_eq!(tickers, vec!["GME".to_string(), "BB".to_string()]);
}

#[test]
fn header_only_gives_no_ticker() {
    assert!(get_tickers_nasdaq(b"Symbol,Name\n").is_empty());
    assert!(try_get_tickers_nasdaq(b"").unwrap().is_empty());
}

#[test]
fn uneven_records_are_an_error() {
    let data = b"Symbol,Name\nGME,GameStop\nBB\n";
    assert!(matches!(try_get_tickers_nasdaq(data), Err(TickerListError::Csv(_))));
}

#[test]
fn invalid_utf8_is_an_error() {
    let data = b"Symbol,Name\n\xff\xfe,x\n";
    assert!(matches!(try_get_tickers_nasdaq(data), Err(TickerListError::Csv(_))));
}

#[test]
fn first_fields_of_records() {
    let records = vec![
        vec!["AMC".to_string(), "x".to_string()],
        vec!["GME".to_string()],
        vec!["AMC".to_string()],
    ];
    assert_eq!(tickers_from_records(&records), vec!["AMC".to_string(), "GME".to_string()]);
}
