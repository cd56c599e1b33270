use quote_cache::cache::QuoteCache;
use quote_cache::flight::{QuoteCoordinator, Step};
use quote_cache::quote::{FetchError, QuoteResponse};

fn quote(symbol: &str) -> QuoteResponse {
    QuoteResponse {
        symbol: symbol.to_string(),
        change: 1.5f32.to_bits(),
        change_percent: 0.02f32.to_bits(),
        delayed_price: 101.5f32.to_bits(),
        close: 100.0f32.to_bits(),
    }
}

fn coordinator() -> QuoteCoordinator {
    QuoteCoordinator::new(QuoteCache::new(100, 900_000, 60_000))
}

#[test]
fn cold_cache_callers_share_one_fetch() {
    let mut c = coordinator();
    let mut fetches = 0;
    let mut waits = 0;
    for _ in 0..20 {
        match c.begin("AAPL", 0) {
            Step::Fetch => fetches += 1,
            Step::Wait => waits += 1,
            Step::Serve(_) => panic!("nothing is cached yet"),
        }
    }
    assert_eq!(fetches, 1);
    assert_eq!(waits, 19);
    let out = c.complete("AAPL", Ok(quote("AAPL")), 1).unwrap();
    assert_eq!(out.symbol, "AAPL");
    for _ in 0..19 {
        match c.begin("AAPL", 2) {
            Step::Serve(q) => {
                assert_eq!(q.symbol, "AAPL");
                assert_eq!(q.delayed_price, 101.5f32.to_bits());
            }
            _ => panic!("the completed fetch is cached"),
        }
    }
}

#[test]
fn other_symbols_do_not_wait() {
    let mut c = coordinator();
    assert!(matches!(c.begin("A", 0), Step::Fetch));
    assert!(matches!(c.begin("B", 0), Step::Fetch));
    assert!(matches!(c.begin("A", 0), Step::Wait));
    c.complete("B", Ok(quote("B")), 1).unwrap();
    assert!(matches!(c.begin("A", 1), Step::Wait));
    assert!(matches!(c.begin("B", 1), Step::Serve(_)));
}

#[test]
fn failed_fetch_is_not_cached_and_clears_flight() {
    let mut c = coordinator();
    assert!(matches!(c.begin("A", 0), Step::Fetch));
    assert_eq!(c.complete("A", Err(FetchError::Network), 1).err(), Some(FetchError::Network));
    assert!(matches!(c.begin("A", 2), Step::Fetch));
}

#[test]
fn non_finite_completion_is_not_cached() {
    let mut c = coordinator();
    assert!(matches!(c.begin("A", 0), Step::Fetch));
    let mut q = quote("A");
    q.close = f32::NAN.to_bits();
    assert_eq!(c.complete("A", Ok(q), 1).err(), Some(FetchError::Decode));
    assert!(matches!(c.begin("A", 2), Step::Fetch));
}
