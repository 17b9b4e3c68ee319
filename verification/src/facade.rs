//! The three service operations as pure protocol steps.
//!
//! The store and the market-data provider are external collaborators
//! reached over the network, so each operation is split into steps the
//! caller drives: plan the request (validate the inputs, build the key,
//! pick the time-to-live and the provider query), judge the store's
//! answer (hit, or fetch), and complete a fetch (build the record, and
//! the write that populates the cache). Within one request the caller
//! performs the store read first, fetches only on a miss, and writes only
//! what a completed fetch returned — a failed fetch returns an error and
//! no write.
//!
//! Two callers missing the same key concurrently may both fetch. That is
//! accepted: the provider query is a read without side effects, so
//! duplicate fetches are idempotent and cost only latency and upstream
//! load, never correctness — the later write simply overwrites the
//! earlier with equivalent data.

use vstd::prelude::*;

use crate::codec::{
    decode_quote, decode_series, encode_quote, encode_quote_spec, encode_series,
    encode_series_spec, quote_encoded, series_encoded,
};
use crate::dates::{parse_date, valid_date_bytes, DateParts};
use crate::keys::{
    build_current_key, build_day_agg_key, build_day_date_key, build_qualified, clone_bytes,
    current_key, day_agg_key, day_date_key, lemma_qualified_valid, qualified_symbol, Config,
};
use crate::model::{
    check_symbol, series_same_symbol, series_wf, valid_symbol, DaySeries, Quote, QuoteModel,
};

verus! {

/// A fault of the caller: the request never reaches the store or the
/// provider.
#[derive(Clone, Copy, Debug, PartialEq, Eq, Structural)]
pub enum ClientError {
    BadSymbol,
    BadDate,
}

/// A fault of a collaborator, surfaced as a server-side failure.
#[derive(Clone, Copy, Debug, PartialEq, Eq, Structural)]
pub enum ServerError {
    StoreUnavailable,
    UpstreamUnavailable,
}

/// How a provider fetch failed, as the caller reports it.
#[derive(Clone, Copy, Debug, PartialEq, Eq, Structural)]
pub enum FetchError {
    NotFound,
    Unavailable,
    InvalidRange,
}

/// One OHLCV observation as the provider hands it over, prices already
/// carried as fixed-point integers.
#[derive(Clone, Copy, Debug, PartialEq, Eq, Structural)]
pub struct ProviderQuote {
    pub open: u64,
    pub close: u64,
    pub volume: u64,
    pub high: u64,
    pub low: u64,
}

/// A write that populates the cache: value under key, expiring after
/// `ttl_seconds`.
pub struct StoreWrite {
    pub key: Vec<u8>,
    pub value: Vec<u8>,
    pub ttl_seconds: u64,
}

/// What the store's answer means: a fresh record, or the order to fetch.
pub enum CacheStep<T> {
    Hit(T),
    Fetch,
}

/// A planned current-quote request: key, time-to-live and the provider
/// query (latest quote of `qsym` over the trailing range).
pub struct CurrentPlan {
    pub qsym: Vec<u8>,
    pub key: Vec<u8>,
    pub ttl_seconds: u64,
    pub range: Vec<u8>,
}

/// The provider query shape of a day request.
pub enum DayQuery {
    /// One calendar day at one-minute granularity.
    ByDate { year: u64, month: u64, day: u64, interval: Vec<u8> },
    /// The trailing day at one-minute granularity.
    Trailing { interval: Vec<u8>, range: Vec<u8> },
}

/// A planned day-series request.
pub struct DayPlan {
    pub qsym: Vec<u8>,
    pub key: Vec<u8>,
    pub ttl_seconds: u64,
    pub query: DayQuery,
}

/// `1d` as bytes.
pub open spec fn range_1d() -> Seq<u8> {
    seq![49u8, 100u8]
}

/// `1m` as bytes.
pub open spec fn interval_1m() -> Seq<u8> {
    seq![49u8, 109u8]
}

fn range_1d_vec() -> (r: Vec<u8>)
    ensures
        r@ == range_1d(),
{
    let mut v: Vec<u8> = Vec::new();
    v.push(49);
    v.push(100);
    proof {
        assert(v@ =~= range_1d());
    }
    v
}

fn interval_1m_vec() -> (r: Vec<u8>)
    ensures
        r@ == interval_1m(),
{
    let mut v: Vec<u8> = Vec::new();
    v.push(49);
    v.push(109);
    proof {
        assert(v@ =~= interval_1m());
    }
    v
}

/// Plans a current-quote request. Succeeds exactly on well-formed
/// symbols; no store or provider access happens on a rejected input.
pub fn plan_current(symbol: &Vec<u8>, cfg: &Config) -> (r: Result<CurrentPlan, ClientError>)
    requires
        cfg.wf(),
    ensures
        r is Ok <==> valid_symbol(symbol@),
        match r {
            Ok(p) => {
                &&& p.qsym@ == qualified_symbol(symbol@, cfg.suffix@)
                &&& valid_symbol(p.qsym@)
                &&& p.key@ == current_key(symbol@, cfg.suffix@)
                &&& p.ttl_seconds == cfg.ttl_current_seconds
                &&& p.range@ == range_1d()
            },
            Err(e) => e == ClientError::BadSymbol,
        },
{
    if !check_symbol(symbol) {
        return Err(ClientError::BadSymbol);
    }
    proof {
        lemma_qualified_valid(symbol@, cfg.suffix@);
    }
    let qsym = build_qualified(symbol, cfg);
    let key = build_current_key(symbol, cfg);
    Ok(
        CurrentPlan {
            qsym,
            key,
            ttl_seconds: cfg.ttl_current_seconds,
            range: range_1d_vec(),
        },
    )
}

/// Judges the store's answer to a current-quote lookup: a present,
/// decodable value is a hit; an absent or undecodable one orders a fetch.
/// The canonical encoding of any record is always a hit on that record.
pub fn current_on_store(stored: &Option<Vec<u8>>) -> (r: CacheStep<Quote>)
    ensures
        stored is None ==> r is Fetch,
        (match r {
            CacheStep::Hit(q) => stored is Some && q@.wf(),
            CacheStep::Fetch => true,
        }),
        (match stored {
            Some(b) => forall|qm: QuoteModel| #[trigger] quote_encoded(b@, qm)
                ==> (r matches CacheStep::Hit(q) && q@ == qm),
            None => true,
        }),
{
    match stored {
        None => CacheStep::Fetch,
        Some(b) => match decode_quote(b) {
            Some(q) => CacheStep::Hit(q),
            None => CacheStep::Fetch,
        },
    }
}

/// Completes a current-quote fetch. A provider failure fails the request
/// and writes nothing; a provider answer becomes the record (symbol set to
/// the qualified form) and the write that caches its canonical encoding
/// under the planned key for the planned time-to-live.
pub fn complete_current(plan: &CurrentPlan, fetched: Result<ProviderQuote, FetchError>) -> (r:
    Result<(Quote, StoreWrite), ServerError>)
    requires
        valid_symbol(plan.qsym@),
    ensures
        r is Ok <==> fetched is Ok,
        match r {
            Ok((q, w)) => {
                &&& fetched matches Ok(pq)
                &&& q@ == (QuoteModel {
                    symbol: plan.qsym@,
                    open: pq.open,
                    close: pq.close,
                    volume: pq.volume,
                    high: pq.high,
                    low: pq.low,
                })
                &&& q@.wf()
                &&& w.key@ == plan.key@
                &&& w.value@ == encode_quote_spec(q@)
                &&& w.ttl_seconds == plan.ttl_seconds
            },
            Err(e) => e == ServerError::UpstreamUnavailable,
        },
{
    match fetched {
        Err(_) => Err(ServerError::UpstreamUnavailable),
        Ok(pq) => {
            let q = Quote {
                symbol: clone_bytes(&plan.qsym),
                open: pq.open,
                close: pq.close,
                volume: pq.volume,
                high: pq.high,
                low: pq.low,
            };
            let value = encode_quote(&q);
            let w = StoreWrite {
                key: clone_bytes(&plan.key),
                value,
                ttl_seconds: plan.ttl_seconds,
            };
            Ok((q, w))
        },
    }
}

/// Plans a day-series request. The symbol is judged first; a supplied
/// date must name a real calendar date. With a date the plan keys one
/// calendar day; without one it keys the trailing day.
pub fn plan_day(symbol: &Vec<u8>, date: &Option<Vec<u8>>, cfg: &Config) -> (r: Result<
    DayPlan,
    ClientError,
>)
    requires
        cfg.wf(),
    ensures
        r is Ok <==> (valid_symbol(symbol@) && (match date {
            Some(d) => valid_date_bytes(d@),
            None => true,
        })),
        match r {
            Ok(p) => {
                &&& p.qsym@ == qualified_symbol(symbol@, cfg.suffix@)
                &&& valid_symbol(p.qsym@)
                &&& p.ttl_seconds == cfg.ttl_day_seconds
                &&& (match date {
                    Some(d) => {
                        &&& p.key@ == day_date_key(symbol@, cfg.suffix@, d@)
                        &&& p.query matches DayQuery::ByDate { year, month, day, interval }
                            && year == crate::dates::four_val(d@, 0) && month
                            == crate::dates::two_val(d@, 5) && day == crate::dates::two_val(d@, 8)
                            && interval@ == interval_1m()
                    },
                    None => {
                        &&& p.key@ == day_agg_key(symbol@, cfg.suffix@)
                        &&& p.query matches DayQuery::Trailing { interval, range } && interval@
                            == interval_1m() && range@ == range_1d()
                    },
                })
            },
            Err(e) => e == (if !valid_symbol(symbol@) {
                ClientError::BadSymbol
            } else {
                ClientError::BadDate
            }),
        },
{
    if !check_symbol(symbol) {
        return Err(ClientError::BadSymbol);
    }
    proof {
        lemma_qualified_valid(symbol@, cfg.suffix@);
    }
    match date {
        Some(d) => {
            let parts: Option<DateParts> = parse_date(d);
            match parts {
                None => Err(ClientError::BadDate),
                Some(p) => {
                    let qsym = build_qualified(symbol, cfg);
                    let key = build_day_date_key(symbol, d, cfg);
                    Ok(
                        DayPlan {
                            qsym,
                            key,
                            ttl_seconds: cfg.ttl_day_seconds,
                            query: DayQuery::ByDate {
                                year: p.year,
                                month: p.month,
                                day: p.day,
                                interval: interval_1m_vec(),
                            },
                        },
                    )
                },
            }
        },
        None => {
            let qsym = build_qualified(symbol, cfg);
            let key = build_day_agg_key(symbol, cfg);
            Ok(
                DayPlan {
                    qsym,
                    key,
                    ttl_seconds: cfg.ttl_day_seconds,
                    query: DayQuery::Trailing {
                        interval: interval_1m_vec(),
                        range: range_1d_vec(),
                    },
                },
            )
        },
    }
}

/// Judges the store's answer to a day-series lookup, as
/// `current_on_store` does for a quote.
pub fn day_on_store(stored: &Option<Vec<u8>>) -> (r: CacheStep<DaySeries>)
    ensures
        stored is None ==> r is Fetch,
        (match r {
            CacheStep::Hit(d) => stored is Some && series_wf(d@),
            CacheStep::Fetch => true,
        }),
        (match stored {
            Some(b) => forall|qs: Seq<QuoteModel>| #[trigger] series_encoded(b@, qs)
                ==> (r matches CacheStep::Hit(d) && d@ == qs),
            None => true,
        }),
{
    match stored {
        None => CacheStep::Fetch,
        Some(b) => match decode_series(b) {
            Some(d) => CacheStep::Hit(d),
            None => CacheStep::Fetch,
        },
    }
}

/// Completes a day-series fetch: every provider observation becomes a
/// record carrying the qualified symbol (each observation is kept — the
/// series is a sequence, never a map that could collapse same-symbol
/// entries), and the write caches the canonical encoding.
pub fn complete_day(plan: &DayPlan, fetched: Result<Vec<ProviderQuote>, FetchError>) -> (r: Result<
    (DaySeries, StoreWrite),
    ServerError,
>)
    requires
        valid_symbol(plan.qsym@),
    ensures
        r is Ok <==> fetched is Ok,
        match r {
            Ok((d, w)) => {
                &&& fetched matches Ok(pqs)
                &&& d@.len() == pqs@.len()
                &&& forall|i: int|
                    0 <= i < pqs@.len() ==> #[trigger] d@[i] == (QuoteModel {
                        symbol: plan.qsym@,
                        open: pqs@[i].open,
                        close: pqs@[i].close,
                        volume: pqs@[i].volume,
                        high: pqs@[i].high,
                        low: pqs@[i].low,
                    })
                &&& series_wf(d@)
                &&& series_same_symbol(d@, plan.qsym@)
                &&& w.key@ == plan.key@
                &&& w.value@ == encode_series_spec(d@)
                &&& w.ttl_seconds == plan.ttl_seconds
            },
            Err(e) => e == ServerError::UpstreamUnavailable,
        },
{
    match fetched {
        Err(_) => Err(ServerError::UpstreamUnavailable),
        Ok(pqs) => {
            let mut data: Vec<Quote> = Vec::new();
            let mut i: usize = 0;
            while i < pqs.len()
                invariant
                    i <= pqs@.len(),
                    valid_symbol(plan.qsym@),
                    data@.len() == i,
                    forall|j: int|
                        0 <= j < i ==> (#[trigger] data@[j])@ == (QuoteModel {
                            symbol: plan.qsym@,
                            open: pqs@[j].open,
                            close: pqs@[j].close,
                            volume: pqs@[j].volume,
                            high: pqs@[j].high,
                            low: pqs@[j].low,
                        }),
                decreases pqs@.len() - i,
            {
                let pq = pqs[i];
                let q = Quote {
                    symbol: clone_bytes(&plan.qsym),
                    open: pq.open,
                    close: pq.close,
                    volume: pq.volume,
                    high: pq.high,
                    low: pq.low,
                };
                data.push(q);
                i = i + 1;
            }
            let d = DaySeries { data };
            let value = encode_series(&d);
            let w = StoreWrite {
                key: clone_bytes(&plan.key),
                value,
                ttl_seconds: plan.ttl_seconds,
            };
            proof {
                assert(forall|i: int| 0 <= i < d@.len() ==> #[trigger] d@[i] == d.data@[i]@);
            }
            Ok((d, w))
        },
    }
}

} // verus!
