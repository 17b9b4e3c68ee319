use quote_cache::dates::parse_date;
use quote_cache::facade::{plan_current, plan_day, DayQuery};
use quote_cache::keys::{
    build_current_key, build_day_agg_key, build_day_date_key, build_day_pattern, default_config,
    Config,
};

#[test]
fn key_shapes_are_exact() {
    let cfg = default_config();
    let sym = b"RELIANCE".to_vec();
    assert_eq!(build_current_key(&sym, &cfg), b"RELIANCE.NS".to_vec());
    assert_eq!(build_day_agg_key(&sym, &cfg), b"RELIANCE.NS_day".to_vec());
    assert_eq!(
        build_day_date_key(&sym, &b"2024-01-02".to_vec(), &cfg),
        b"RELIANCE.NS_2024-01-02".to_vec()
    );
    assert_eq!(build_day_pattern(), b"*_day".to_vec());
}

#[test]
fn key_construction_is_deterministic() {
    let cfg = default_config();
    let a = build_day_agg_key(&b"TCS".to_vec(), &cfg);
    let b = build_day_agg_key(&b"TCS".to_vec(), &cfg);
    assert_eq!(a, b);
}

#[test]
fn suffix_is_configuration_not_hardcoded() {
    let cfg = Config {
        suffix: b".BO".to_vec(),
        ttl_current_seconds: 30,
        ttl_day_seconds: 600,
    };
    assert_eq!(build_current_key(&b"TICK".to_vec(), &cfg), b"TICK.BO".to_vec());
    let plan = plan_current(&b"TICK".to_vec(), &cfg).unwrap();
    assert_eq!(plan.key, b"TICK.BO".to_vec());
    assert_eq!(plan.ttl_seconds, 30);
}

#[test]
fn ttl_defaults_are_within_policy() {
    // Current-quote entries live at most sixty seconds by default,
    // day-series entries at least sixty.
    let cfg = default_config();
    assert!(cfg.ttl_current_seconds <= 60);
    assert!(cfg.ttl_day_seconds >= 60);
}

#[test]
fn date_validation_accepts_real_dates() {
    for d in [
        &b"2024-01-01"[..],
        b"2024-02-29", // leap year
        b"2000-02-29", // divisible by 400: leap
        b"2024-12-31",
        b"1999-06-30",
    ] {
        let p = parse_date(&d.to_vec());
        assert!(p.is_some(), "{:?} must parse", String::from_utf8_lossy(d));
    }
    let p = parse_date(&b"2024-02-29".to_vec()).unwrap();
    assert_eq!((p.year, p.month, p.day), (2024, 2, 29));
}

#[test]
fn date_validation_rejects_bad_dates() {
    for d in [
        &b"2024-13-40"[..],
        b"2023-02-29", // not a leap year
        b"1900-02-29", // divisible by 100, not 400: not leap
        b"2024-04-31", // April has thirty days
        b"2024-00-10",
        b"2024-01-00",
        b"2024/01/02",
        b"24-01-02",
        b"2024-1-2",
        b"abcd-ef-gh",
        b"",
    ] {
        assert!(
            parse_date(&d.to_vec()).is_none(),
            "{:?} must be rejected",
            String::from_utf8_lossy(d)
        );
    }
}

#[test]
fn day_plan_distinguishes_dated_and_trailing_requests() {
    // With a date: one calendar day at one-minute granularity, keyed by
    // date. Without: the trailing day, keyed `_day`. Two distinct cache
    // entries, two distinct provider query shapes.
    let cfg = default_config();
    let dated = plan_day(&b"TCS".to_vec(), &Some(b"2024-03-15".to_vec()), &cfg).unwrap();
    assert_eq!(dated.key, b"TCS.NS_2024-03-15".to_vec());
    match dated.query {
        DayQuery::ByDate { year, month, day, interval } => {
            assert_eq!((year, month, day), (2024, 3, 15));
            assert_eq!(interval, b"1m".to_vec());
        }
        DayQuery::Trailing { .. } => panic!("a dated request plans a by-date query"),
    }
    let trailing = plan_day(&b"TCS".to_vec(), &None, &cfg).unwrap();
    assert_eq!(trailing.key, b"TCS.NS_day".to_vec());
    match trailing.query {
        DayQuery::Trailing { interval, range } => {
            assert_eq!(interval, b"1m".to_vec());
            assert_eq!(range, b"1d".to_vec());
        }
        DayQuery::ByDate { .. } => panic!("an undated request plans a trailing query"),
    }
    assert_ne!(dated.key, trailing.key);
}
