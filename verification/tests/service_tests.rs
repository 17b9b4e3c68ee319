use quote_cache::aggregate::collect_day_series;
use quote_cache::codec::encode_series;
use quote_cache::facade::{
    complete_current, complete_day, current_on_store, day_on_store, plan_current, plan_day,
    CacheStep, ClientError, FetchError, ProviderQuote, ServerError, StoreWrite,
};
use quote_cache::keys::{build_day_pattern, default_config, Config};
use quote_cache::model::{DaySeries, Quote};

/// A stand-in for the external key-value store: entries expire, and keys
/// matching `*_day` can be scanned page by page.
struct FakeStore {
    entries: Vec<(Vec<u8>, Vec<u8>, u64)>,
}

impl FakeStore {
    fn new() -> FakeStore {
        FakeStore { entries: Vec::new() }
    }

    fn get(&self, key: &[u8], now: u64) -> Option<Vec<u8>> {
        for (k, v, expires_at) in &self.entries {
            if k == key && now < *expires_at {
                return Some(v.clone());
            }
        }
        None
    }

    fn set(&mut self, w: &StoreWrite, now: u64) {
        self.entries.retain(|(k, _, _)| k != &w.key);
        self.entries.push((w.key.clone(), w.value.clone(), now + w.ttl_seconds));
    }

    fn scan_day_keys(&self, now: u64, page_size: usize) -> Vec<Vec<Vec<u8>>> {
        let matching: Vec<Vec<u8>> = self
            .entries
            .iter()
            .filter(|(k, _, e)| now < *e && k.ends_with(b"_day"))
            .map(|(k, _, _)| k.clone())
            .collect();
        matching.chunks(page_size.max(1)).map(|c| c.to_vec()).collect()
    }
}

fn provider_quote(open: u64, close: u64, volume: u64, high: u64, low: u64) -> ProviderQuote {
    ProviderQuote { open, close, volume, high, low }
}

/// One current-quote request against the fake store; counts provider calls.
fn run_current(
    store: &mut FakeStore,
    cfg: &Config,
    symbol: &[u8],
    provider: ProviderQuote,
    provider_calls: &mut usize,
    now: u64,
) -> Quote {
    let plan = plan_current(&symbol.to_vec(), cfg).expect("symbol must be accepted");
    let stored = store.get(&plan.key, now);
    match current_on_store(&stored) {
        CacheStep::Hit(q) => q,
        CacheStep::Fetch => {
            *provider_calls += 1;
            let (q, w) = complete_current(&plan, Ok(provider)).expect("fetch completed");
            store.set(&w, now);
            q
        }
    }
}

#[test]
fn current_quote_scenario_fetch_then_hit() {
    // Empty cache: the provider answers {open:100,high:105,low:99,close:102,
    // volume:1000}; the response carries the suffix-qualified symbol, and a
    // second request inside the TTL window is a hit without a provider call.
    let cfg = default_config();
    let mut store = FakeStore::new();
    let mut calls: usize = 0;
    let pq = provider_quote(100, 102, 1000, 105, 99);
    let q1 = run_current(&mut store, &cfg, b"TICK", pq, &mut calls, 0);
    assert_eq!(calls, 1);
    assert_eq!(q1.symbol, b"TICK.NS".to_vec());
    assert_eq!(q1.open, 100);
    assert_eq!(q1.high, 105);
    assert_eq!(q1.low, 99);
    assert_eq!(q1.close, 102);
    assert_eq!(q1.volume, 1000);
    let q2 = run_current(&mut store, &cfg, b"TICK", pq, &mut calls, 2);
    assert_eq!(calls, 1, "a hit inside the TTL window asks the provider nothing");
    assert_eq!(q2.symbol, q1.symbol);
    assert_eq!(q2.open, q1.open);
    assert_eq!(q2.close, q1.close);
    assert_eq!(q2.volume, q1.volume);
    assert_eq!(q2.high, q1.high);
    assert_eq!(q2.low, q1.low);
}

#[test]
fn current_quote_expires_after_ttl() {
    // The default current-quote TTL is five seconds: a request after expiry
    // triggers exactly one new provider fetch.
    let cfg = default_config();
    assert_eq!(cfg.ttl_current_seconds, 5);
    let mut store = FakeStore::new();
    let mut calls: usize = 0;
    let pq = provider_quote(100, 102, 1000, 105, 99);
    run_current(&mut store, &cfg, b"TICK", pq, &mut calls, 0);
    run_current(&mut store, &cfg, b"TICK", pq, &mut calls, 4);
    assert_eq!(calls, 1, "still fresh at four seconds");
    run_current(&mut store, &cfg, b"TICK", pq, &mut calls, 5);
    assert_eq!(calls, 2, "expired at five seconds: exactly one new fetch");
    run_current(&mut store, &cfg, b"TICK", pq, &mut calls, 6);
    assert_eq!(calls, 2);
}

/// One day-series request against the fake store; counts provider calls.
fn run_day(
    store: &mut FakeStore,
    cfg: &Config,
    symbol: &[u8],
    date: Option<Vec<u8>>,
    provider: &[ProviderQuote],
    provider_calls: &mut usize,
    now: u64,
) -> DaySeries {
    let plan = plan_day(&symbol.to_vec(), &date, cfg).expect("request must be accepted");
    let stored = store.get(&plan.key, now);
    match day_on_store(&stored) {
        CacheStep::Hit(d) => d,
        CacheStep::Fetch => {
            *provider_calls += 1;
            let (d, w) = complete_day(&plan, Ok(provider.to_vec())).expect("fetch completed");
            store.set(&w, now);
            d
        }
    }
}

#[test]
fn day_quote_second_call_is_byte_identical_hit() {
    // Same (symbol, date) twice: the second answer is byte-identical and
    // costs no provider call.
    let cfg = default_config();
    let mut store = FakeStore::new();
    let mut calls: usize = 0;
    let pqs = [provider_quote(1, 2, 30, 4, 1), provider_quote(2, 3, 40, 5, 2)];
    let date = Some(b"2024-02-29".to_vec());
    let d1 = run_day(&mut store, &cfg, b"TCS", date.clone(), &pqs, &mut calls, 0);
    assert_eq!(calls, 1);
    let d2 = run_day(&mut store, &cfg, b"TCS", date, &pqs, &mut calls, 10);
    assert_eq!(calls, 1, "the second request is served from the cache");
    assert_eq!(encode_series(&d1), encode_series(&d2), "byte-identical data");
    assert_eq!(d2.data.len(), 2);
    assert!(d2.data.iter().all(|q| q.symbol == b"TCS.NS".to_vec()));
}

#[test]
fn corrupted_entry_is_a_miss_and_is_overwritten() {
    // A truncated stored value reads as a miss; the next successful fetch
    // overwrites it and the entry heals.
    let cfg = default_config();
    let mut store = FakeStore::new();
    let mut calls: usize = 0;
    let pqs = [provider_quote(7, 8, 90, 9, 6)];
    let d1 = run_day(&mut store, &cfg, b"INFY", None, &pqs, &mut calls, 0);
    assert_eq!(calls, 1);
    assert_eq!(d1.data.len(), 1);
    // Corrupt the stored bytes by truncating them.
    let key = b"INFY.NS_day".to_vec();
    let pos = store.entries.iter().position(|(k, _, _)| k == &key).unwrap();
    let whole = store.entries[pos].1.clone();
    store.entries[pos].1 = whole[..whole.len() / 2].to_vec();
    let d2 = run_day(&mut store, &cfg, b"INFY", None, &pqs, &mut calls, 1);
    assert_eq!(calls, 2, "the corrupted entry reads as a miss");
    assert_eq!(d2.data.len(), 1);
    // The overwrite healed the entry: the next request is a hit again.
    let d3 = run_day(&mut store, &cfg, b"INFY", None, &pqs, &mut calls, 2);
    assert_eq!(calls, 2);
    assert_eq!(encode_series(&d2), encode_series(&d3));
}

#[test]
fn malformed_date_is_a_client_error_before_any_call() {
    let cfg = default_config();
    let r = plan_day(&b"TICK".to_vec(), &Some(b"2024-13-40".to_vec()), &cfg);
    assert_eq!(r.err(), Some(ClientError::BadDate));
    // Planning failed, so no key exists: nothing was asked of the store or
    // the provider.
}

#[test]
fn malformed_symbol_is_a_client_error() {
    let cfg = default_config();
    assert_eq!(plan_current(&b"".to_vec(), &cfg).err(), Some(ClientError::BadSymbol));
    assert_eq!(plan_current(&b"A B".to_vec(), &cfg).err(), Some(ClientError::BadSymbol));
    assert_eq!(plan_current(&b"A_B".to_vec(), &cfg).err(), Some(ClientError::BadSymbol));
    assert_eq!(
        plan_day(&b"\"".to_vec(), &Some(b"2024-13-40".to_vec()), &cfg).err(),
        Some(ClientError::BadSymbol),
        "the symbol is judged before the date"
    );
}

#[test]
fn provider_failure_fails_the_request_and_writes_nothing() {
    let cfg = default_config();
    let plan = plan_current(&b"TICK".to_vec(), &cfg).unwrap();
    let r = complete_current(&plan, Err(FetchError::Unavailable));
    assert!(matches!(r, Err(ServerError::UpstreamUnavailable)));
    let plan2 = plan_day(&b"TICK".to_vec(), &None, &cfg).unwrap();
    let r2 = complete_day(&plan2, Err(FetchError::NotFound));
    assert!(matches!(r2, Err(ServerError::UpstreamUnavailable)));
}

#[test]
fn aggregate_returns_one_series_per_symbol_for_any_page_size() {
    // Populate day series for three symbols, then aggregate. Whatever page
    // size the scan uses, the flattened key list is the same, and so is the
    // result: exactly three series, one per symbol.
    let cfg = default_config();
    let mut store = FakeStore::new();
    let mut calls: usize = 0;
    for (sym, base) in [(&b"AAA"[..], 10u64), (b"BBB", 20), (b"CCC", 30)] {
        let pqs = [provider_quote(base, base + 1, base * 10, base + 2, base - 1)];
        run_day(&mut store, &cfg, sym, None, &pqs, &mut calls, 0);
    }
    assert_eq!(calls, 3);
    let pattern = build_day_pattern();
    assert_eq!(pattern, b"*_day".to_vec());

    let mut results: Vec<usize> = Vec::new();
    let mut first_symbols: Vec<Vec<Vec<u8>>> = Vec::new();
    for page_size in [1usize, 10] {
        let pages = store.scan_day_keys(0, page_size);
        let mut values: Vec<Option<Vec<u8>>> = Vec::new();
        for page in pages {
            for key in page {
                values.push(store.get(&key, 0));
            }
        }
        let agg = collect_day_series(&values);
        results.push(agg.data.len());
        let mut symbols: Vec<Vec<u8>> =
            agg.data.iter().map(|d| d.data[0].symbol.clone()).collect();
        symbols.sort();
        first_symbols.push(symbols);
    }
    assert_eq!(results, vec![3, 3]);
    assert_eq!(first_symbols[0], first_symbols[1]);
    assert_eq!(
        first_symbols[0],
        vec![b"AAA.NS".to_vec(), b"BBB.NS".to_vec(), b"CCC.NS".to_vec()]
    );
}

#[test]
fn aggregate_skips_missing_and_corrupt_entries() {
    let cfg = default_config();
    let mut store = FakeStore::new();
    let mut calls: usize = 0;
    run_day(&mut store, &cfg, b"AAA", None, &[provider_quote(1, 2, 3, 4, 1)], &mut calls, 0);
    run_day(&mut store, &cfg, b"BBB", None, &[provider_quote(5, 6, 7, 8, 5)], &mut calls, 0);
    let values: Vec<Option<Vec<u8>>> = vec![
        store.get(b"AAA.NS_day", 0),
        None, // evicted between scan and fetch
        Some(b"garbage".to_vec()),
        store.get(b"BBB.NS_day", 0),
    ];
    let agg = collect_day_series(&values);
    assert_eq!(agg.data.len(), 2, "bad entries are skipped, never fatal");
}
