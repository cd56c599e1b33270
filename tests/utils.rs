use quote_cache::utils::{
    comma_separated, default_precision, default_separator, is_plaintext_agent, matches_plaintext_agent,
    quote_url, validate_tickers_query, TickersError,
};

#[test]
fn plaintext_agents_are_recognised() {
    assert!(is_plaintext_agent("curl/7.64.1"));
    assert!(is_plaintext_agent("Wget/1.20.3 (linux-gnu)"));
    assert!(is_plaintext_agent("python-requests/2.25"));
    assert!(is_plaintext_agent("OpenBSD ftp"));
    assert!(!is_plaintext_agent("Mozilla/5.0 (X11; Linux x86_64)"));
    assert!(!is_plaintext_agent(""));
}

#[test]
fn agent_matching_ignores_case_only_after_lowering() {
    assert!(is_plaintext_agent("HTTPie/3.2"));
    assert!(!matches_plaintext_agent("HTTPie/3.2"));
    assert!(matches_plaintext_agent("httpie/3.2"));
    assert!(is_plaintext_agent("PowerShell/7"));
}

#[test]
fn comma_separated_splits_in_order() {
    let v = comma_separated("AAPL,MSFT,GOOG");
    assert_eq!(v, vec!["AAPL".to_string(), "MSFT".to_string(), "GOOG".to_string()]);
}

#[test]
fn comma_separated_edges() {
    assert_eq!(comma_separated(""), vec!["".to_string()]);
    assert_eq!(comma_separated("A,,B"), vec!["A".to_string(), "".to_string(), "B".to_string()]);
    assert_eq!(comma_separated("A,"), vec!["A".to_string(), "".to_string()]);
    assert_eq!(comma_separated("TSLA"), vec!["TSLA".to_string()]);
}

#[test]
fn defaults() {
    assert_eq!(default_separator(), " ");
    assert_eq!(default_precision(), 2);
}

#[test]
fn ticker_count_is_validated() {
    let empty: Vec<String> = Vec::new();
    assert_eq!(validate_tickers_query(&empty), Err(TickersError::InvalidCount));
    assert_eq!(validate_tickers_query(&vec![1u8]), Ok(()));
    assert_eq!(validate_tickers_query(&vec![0u8; 10]), Ok(()));
    assert_eq!(validate_tickers_query(&vec![0u8; 11]), Err(TickersError::InvalidCount));
}

#[test]
fn provider_url_for_a_symbol() {
    assert_eq!(
        quote_url("https://cloud.iexapis.com/v1", "AAPL"),
        "https://cloud.iexapis.com/v1/stock/AAPL/quote"
    );
}
