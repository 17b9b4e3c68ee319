use quote_cache::codec::{decode_quote, decode_series, encode_quote, encode_series};
use quote_cache::model::{DaySeries, Quote};

fn quote(symbol: &[u8], open: u64, close: u64, volume: u64, high: u64, low: u64) -> Quote {
    Quote { symbol: symbol.to_vec(), open, close, volume, high, low }
}

fn quote_eq(a: &Quote, b: &Quote) -> bool {
    a.symbol == b.symbol
        && a.open == b.open
        && a.close == b.close
        && a.volume == b.volume
        && a.high == b.high
        && a.low == b.low
}

#[test]
fn quote_encoding_is_canonical_json() {
    let q = quote(b"TICK.NS", 100, 102, 1000, 105, 99);
    let enc = encode_quote(&q);
    assert_eq!(
        String::from_utf8(enc).unwrap(),
        r#"{"symbol":"TICK.NS","open":100,"close":102,"volume":1000,"high":105,"low":99}"#
    );
}

#[test]
fn quote_round_trip() {
    let q = quote(b"RELIANCE.NS", 2850, 2893, 1234567, 2901, 2844);
    let enc = encode_quote(&q);
    let back = decode_quote(&enc).expect("canonical encoding must decode");
    assert!(quote_eq(&q, &back));
}

#[test]
fn quote_round_trip_extreme_values() {
    let q = quote(b"X", 0, u64::MAX, u64::MAX, 0, u64::MAX);
    let enc = encode_quote(&q);
    let back = decode_quote(&enc).expect("canonical encoding must decode");
    assert!(quote_eq(&q, &back));
}

#[test]
fn series_round_trip() {
    let d = DaySeries {
        data: vec![
            quote(b"TCS.NS", 4100, 4105, 900, 4110, 4095),
            quote(b"TCS.NS", 4105, 4102, 1100, 4107, 4101),
            quote(b"TCS.NS", 4102, 4120, 800, 4121, 4100),
        ],
    };
    let enc = encode_series(&d);
    let back = decode_series(&enc).expect("canonical encoding must decode");
    assert_eq!(back.data.len(), 3);
    for i in 0..3 {
        assert!(quote_eq(&d.data[i], &back.data[i]));
    }
}

#[test]
fn empty_series_round_trip() {
    let d = DaySeries { data: Vec::new() };
    let enc = encode_series(&d);
    assert_eq!(String::from_utf8(enc.clone()).unwrap(), r#"{"data":[]}"#);
    let back = decode_series(&enc).expect("canonical empty series must decode");
    assert_eq!(back.data.len(), 0);
}

#[test]
fn same_symbol_entries_are_all_kept() {
    // Two observations of one symbol stay two entries: the series is a
    // sequence, not a map keyed by symbol.
    let d = DaySeries {
        data: vec![
            quote(b"INFY.NS", 1, 2, 3, 4, 1),
            quote(b"INFY.NS", 2, 3, 4, 5, 2),
        ],
    };
    let enc = encode_series(&d);
    let back = decode_series(&enc).unwrap();
    assert_eq!(back.data.len(), 2);
    assert_eq!(back.data[0].open, 1);
    assert_eq!(back.data[1].open, 2);
}

#[test]
fn decoder_accepts_reordered_fields() {
    let s = br#"{"low":99,"high":105,"volume":1000,"close":102,"open":100,"symbol":"TICK.NS"}"#
        .to_vec();
    let q = decode_quote(&s).expect("reordered fields must decode");
    assert_eq!(q.symbol, b"TICK.NS".to_vec());
    assert_eq!(q.open, 100);
    assert_eq!(q.close, 102);
    assert_eq!(q.volume, 1000);
    assert_eq!(q.high, 105);
    assert_eq!(q.low, 99);
}

#[test]
fn decoder_tolerates_unknown_fields_and_whitespace() {
    let s = br#" { "symbol" : "A.NS" , "note" : "x" , "open" : 1 , "close" : 2 ,
                  "stale" : false , "volume" : 3 , "high" : 4 , "low" : 0 , "gap" : null } "#
        .to_vec();
    let q = decode_quote(&s).expect("unknown scalar fields must be skipped");
    assert_eq!(q.symbol, b"A.NS".to_vec());
    assert_eq!(q.volume, 3);
}

#[test]
fn decoder_rejects_missing_field() {
    let s = br#"{"symbol":"A.NS","open":1,"close":2,"volume":3,"high":4}"#.to_vec();
    assert!(decode_quote(&s).is_none());
}

#[test]
fn decoder_rejects_truncated_bytes() {
    let q = quote(b"TICK.NS", 100, 102, 1000, 105, 99);
    let mut enc = encode_quote(&q);
    enc.truncate(enc.len() - 3);
    assert!(decode_quote(&enc).is_none());
    let d = DaySeries { data: vec![q] };
    let mut senc = encode_series(&d);
    senc.truncate(senc.len() - 1);
    assert!(decode_series(&senc).is_none());
}

#[test]
fn decoder_rejects_oversized_number() {
    // One digit past u64::MAX.
    let s = br#"{"symbol":"A.NS","open":1,"close":2,"volume":184467440737095516160,"high":4,"low":0}"#
        .to_vec();
    assert!(decode_quote(&s).is_none());
}

#[test]
fn decoder_rejects_empty_symbol() {
    let s = br#"{"symbol":"","open":1,"close":2,"volume":3,"high":4,"low":0}"#.to_vec();
    assert!(decode_quote(&s).is_none());
}

#[test]
fn series_decoder_accepts_whitespace_and_extras() {
    let s = br#" { "v" : 2 , "data" : [ { "symbol" : "B.NS" , "open" : 7 , "close" : 8 ,
                 "volume" : 9 , "high" : 10 , "low" : 6 } ] } "#
        .to_vec();
    let d = decode_series(&s).expect("tolerant series form must decode");
    assert_eq!(d.data.len(), 1);
    assert_eq!(d.data[0].symbol, b"B.NS".to_vec());
    assert_eq!(d.data[0].low, 6);
}
