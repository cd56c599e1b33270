use quote_cache::cache::QuoteCache;
use quote_cache::quote::QuoteResponse;

fn quote(symbol: &str, price: f32) -> QuoteResponse {
    QuoteResponse {
        symbol: symbol.to_string(),
        change: 0.5f32.to_bits(),
        change_percent: 0.01f32.to_bits(),
        delayed_price: price.to_bits(),
        close: 99.0f32.to_bits(),
    }
}

#[test]
fn stored_quote_is_served_until_a_lifetime_runs_out() {
    let mut c = QuoteCache::new(4, 1000, 100);
    c.put("A".to_string(), quote("A", 10.0), 0);
    let q = c.get("A", 50).unwrap();
    assert_eq!(q.delayed_price, 10.0f32.to_bits());
    assert!(c.get("B", 50).is_none());
    // idle clock was refreshed at 50
    assert!(c.get("A", 149).is_some());
    assert!(c.get("A", 249).is_none());
    assert_eq!(c.len(), 0);
}

#[test]
fn freshness_lifetime_is_absolute() {
    let mut c = QuoteCache::new(4, 300, 100);
    c.put("A".to_string(), quote("A", 10.0), 0);
    assert!(c.get("A", 90).is_some());
    assert!(c.get("A", 180).is_some());
    assert!(c.get("A", 270).is_some());
    assert!(c.get("A", 300).is_none());
}

#[test]
fn idle_lifetime_expires_between_accesses() {
    let mut c = QuoteCache::new(4, 1000, 100);
    c.put("A".to_string(), quote("A", 10.0), 0);
    assert!(c.get("A", 10).is_some());
    assert!(c.get("A", 110).is_none());
}

#[test]
fn put_replaces_whole_entry() {
    let mut c = QuoteCache::new(4, 1000, 100);
    c.put("A".to_string(), quote("A", 10.0), 0);
    c.put("A".to_string(), quote("A", 11.0), 950);
    assert_eq!(c.len(), 1);
    assert_eq!(c.get("A", 1040).unwrap().delayed_price, 11.0f32.to_bits());
}

#[test]
fn capacity_is_never_exceeded_and_least_recent_goes() {
    let mut c = QuoteCache::new(2, 1000, 1000);
    c.put("A".to_string(), quote("A", 1.0), 0);
    c.put("B".to_string(), quote("B", 2.0), 1);
    assert!(c.get("A", 2).is_some());
    c.put("C".to_string(), quote("C", 3.0), 3);
    assert_eq!(c.len(), 2);
    assert!(c.get("B", 4).is_none());
    assert!(c.get("A", 4).is_some());
    assert!(c.get("C", 4).is_some());
    for (k, s) in ["D", "E", "F", "G", "H"].iter().enumerate() {
        c.put(s.to_string(), quote(s, 1.0), 10 + k as u64);
        assert!(c.len() <= c.capacity());
    }
}

#[test]
fn zero_capacity_stores_nothing() {
    let mut c = QuoteCache::new(0, 1000, 1000);
    c.put("A".to_string(), quote("A", 1.0), 0);
    assert_eq!(c.len(), 0);
    assert!(c.get("A", 0).is_none());
}
