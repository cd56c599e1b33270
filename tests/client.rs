use quote_cache::cache::QuoteCache;
use quote_cache::client::{record, Client, MAX_BATCH, TIME_TO_IDLE_MS, TIME_TO_LIVE_MS};
use quote_cache::quote::{FetchError, Fetcher, QuoteResponse, QuoteResult};

struct Stub {
    calls: usize,
    failing: Vec<String>,
}

impl Stub {
    fn new() -> Stub {
        Stub { calls: 0, failing: Vec::new() }
    }
}

impl Fetcher for Stub {
    fn fetch(&mut self, symbol: &str) -> QuoteResult {
        self.calls += 1;
        if self.failing.iter().any(|s| s == symbol) {
            return Err(FetchError::Upstream(404));
        }
        if symbol == "NAN" {
            return Ok(QuoteResponse {
                symbol: symbol.to_string(),
                change: f32::NAN.to_bits(),
                change_percent: 0.0f32.to_bits(),
                delayed_price: f32::INFINITY.to_bits(),
                close: 1.0f32.to_bits(),
            });
        }
        Ok(QuoteResponse {
            symbol: symbol.to_string(),
            change: 1.5f32.to_bits(),
            change_percent: 0.02f32.to_bits(),
            delayed_price: 101.5f32.to_bits(),
            close: 100.0f32.to_bits(),
        })
    }
}

#[test]
fn second_call_is_served_from_cache() {
    let mut c = Client::new(Stub::new());
    let a = c.get_quote("AAPL", 0).unwrap();
    let b = c.get_quote("AAPL", 0).unwrap();
    assert_eq!(c.fetcher.calls, 1);
    assert_eq!(a.symbol, b.symbol);
    assert_eq!(a.delayed_price, b.delayed_price);
}

#[test]
fn refetch_after_freshness_lifetime() {
    let mut c = Client::new(Stub::new());
    c.get_quote("AAPL", 0).unwrap();
    let mut t: u64 = 0;
    while t + 30_000 < TIME_TO_LIVE_MS {
        t += 30_000;
        c.get_quote("AAPL", t).unwrap();
    }
    assert_eq!(c.fetcher.calls, 1);
    c.get_quote("AAPL", TIME_TO_LIVE_MS).unwrap();
    assert_eq!(c.fetcher.calls, 2);
}

#[test]
fn idle_gap_is_a_miss() {
    let mut c = Client::new(Stub::new());
    c.get_quote("AAPL", 0).unwrap();
    c.get_quote("AAPL", TIME_TO_IDLE_MS + 1).unwrap();
    assert_eq!(c.fetcher.calls, 2);
}

#[test]
fn batch_keeps_order_and_isolates_failure() {
    let mut stub = Stub::new();
    stub.failing.push("B".to_string());
    let mut c = Client::new(stub);
    let symbols = vec!["A".to_string(), "B".to_string(), "A".to_string()];
    let r = c.get_quotes(&symbols, 0).unwrap();
    assert_eq!(r.len(), 3);
    let first = r[0].as_ref().unwrap();
    let third = r[2].as_ref().unwrap();
    assert_eq!(first.symbol, "A");
    assert_eq!(third.symbol, "A");
    assert_eq!(first.delayed_price, third.delayed_price);
    assert_eq!(r[1].as_ref().err(), Some(&FetchError::Upstream(404)));
    assert_eq!(c.fetcher.calls, 2);
}

#[test]
fn repeated_calls_one_fetch() {
    let mut c = Client::new(Stub::new());
    for _ in 0..50 {
        let q = c.get_quote("AAPL", 5).unwrap();
        assert_eq!(q.symbol, "AAPL");
    }
    assert_eq!(c.fetcher.calls, 1);
}

#[test]
fn cache_stays_within_capacity() {
    let mut c = Client::with_config(Stub::new(), 3, 1000, 1000, 10);
    for k in 0..20u64 {
        c.get_quote(&format!("S{}", k), k).unwrap();
        assert!(c.cache.len() <= 3);
    }
}

#[test]
fn fetched_fields_are_kept_exactly() {
    let mut c = Client::new(Stub::new());
    let q = c.get_quote("X", 0).unwrap();
    assert_eq!(q.symbol, "X");
    assert_eq!(f32::from_bits(q.change), 1.5);
    assert_eq!(f32::from_bits(q.change_percent), 0.02);
    assert_eq!(f32::from_bits(q.delayed_price), 101.5);
    assert_eq!(f32::from_bits(q.close), 100.0);
    let again = c.get_quote("X", 1).unwrap();
    assert_eq!(f32::from_bits(again.delayed_price), 101.5);
}

#[test]
fn too_many_symbols_are_refused_before_fetching() {
    let mut c = Client::new(Stub::new());
    let symbols: Vec<String> = (0..MAX_BATCH + 1).map(|k| format!("S{}", k)).collect();
    assert_eq!(c.get_quotes(&symbols, 0).err(), Some(FetchError::TooManySymbols));
    assert_eq!(c.fetcher.calls, 0);
    let ok: Vec<String> = (0..MAX_BATCH).map(|k| format!("S{}", k)).collect();
    assert_eq!(c.get_quotes(&ok, 0).unwrap().len(), MAX_BATCH);
}

#[test]
fn failure_is_not_cached() {
    let mut stub = Stub::new();
    stub.failing.push("BAD".to_string());
    let mut c = Client::new(stub);
    assert_eq!(c.get_quote("BAD", 0).err(), Some(FetchError::Upstream(404)));
    assert_eq!(c.get_quote("BAD", 0).err(), Some(FetchError::Upstream(404)));
    assert_eq!(c.fetcher.calls, 2);
}

#[test]
fn non_finite_quote_is_a_decode_failure() {
    let mut c = Client::new(Stub::new());
    assert_eq!(c.get_quote("NAN", 0).err(), Some(FetchError::Decode));
    assert_eq!(c.get_quote("NAN", 0).err(), Some(FetchError::Decode));
    assert_eq!(c.fetcher.calls, 2);
    assert_eq!(c.cache.len(), 0);
}

#[test]
fn repeated_failing_symbol_is_fetched_once_per_batch() {
    let mut stub = Stub::new();
    stub.failing.push("B".to_string());
    let mut c = Client::new(stub);
    let symbols = vec!["B".to_string(), "A".to_string(), "B".to_string(), "B".to_string()];
    let r = c.get_quotes(&symbols, 0).unwrap();
    assert_eq!(c.fetcher.calls, 2);
    assert_eq!(r[0].as_ref().err(), Some(&FetchError::Upstream(404)));
    assert_eq!(r[2].as_ref().err(), Some(&FetchError::Upstream(404)));
    assert_eq!(r[3].as_ref().err(), Some(&FetchError::Upstream(404)));
    assert_eq!(r[1].as_ref().unwrap().symbol, "A");
}

#[test]
fn record_stores_finite_quotes_only() {
    let mut cache = QuoteCache::new(4, 1000, 1000);
    let q = QuoteResponse {
        symbol: "X".to_string(),
        change: 1.5f32.to_bits(),
        change_percent: 0.02f32.to_bits(),
        delayed_price: 101.5f32.to_bits(),
        close: 100.0f32.to_bits(),
    };
    let r = record(&mut cache, "X", Ok(q), 0).unwrap();
    assert_eq!(r.symbol, "X");
    assert_eq!(f32::from_bits(r.delayed_price), 101.5);
    assert_eq!(cache.len(), 1);
    let bad = QuoteResponse {
        symbol: "Y".to_string(),
        change: f32::NEG_INFINITY.to_bits(),
        change_percent: 0.0f32.to_bits(),
        delayed_price: 1.0f32.to_bits(),
        close: 1.0f32.to_bits(),
    };
    assert_eq!(record(&mut cache, "Y", Ok(bad), 0).err(), Some(FetchError::Decode));
    assert_eq!(record(&mut cache, "Z", Err(FetchError::Network), 0).err(), Some(FetchError::Network));
    assert_eq!(cache.len(), 1);
    assert!(cache.get("Y", 1).is_none());
}
