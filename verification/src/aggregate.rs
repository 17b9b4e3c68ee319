//! Keyspace-scan aggregation: assembling every cached day-series.
//!
//! The caller enumerates the keys matching the `*_day` pattern (page by
//! page, concatenating the pages) and fetches each key's value; this
//! module turns the fetched values into the aggregate. The result depends
//! only on the flattened value list, never on the page size the scan
//! used. A missing or undecodable entry is skipped, never fatal; the
//! aggregation populates nothing and asks no provider for anything.

use vstd::prelude::*;

use crate::codec::{decode_series, series_encoded};
use crate::model::{series_wf, AggregateResult, DaySeries, QuoteModel};

verus! {

/// Every fetched value is present and canonically encodes the matching
/// series of `svs`.
pub open spec fn all_entries_encoded(
    vs: Seq<Option<Vec<u8>>>,
    svs: Seq<Seq<QuoteModel>>,
) -> bool {
    &&& svs.len() == vs.len()
    &&& forall|i: int|
        0 <= i < vs.len() ==> ((#[trigger] vs[i]) matches Some(b) && series_encoded(b@, svs[i]))
}

/// Decodes one scanned entry; `None` stands for a key evicted between
/// scan and fetch, and an undecodable value is skipped the same way.
pub fn decode_day_entry(v: &Option<Vec<u8>>) -> (r: Option<DaySeries>)
    ensures
        v is None ==> r is None,
        (match r {
            Some(d) => series_wf(d@),
            None => true,
        }),
        (match v {
            Some(b) => forall|qs: Seq<QuoteModel>| #[trigger] series_encoded(b@, qs)
                ==> (r matches Some(d) && d@ == qs),
            None => true,
        }),
{
    match v {
        None => None,
        Some(b) => decode_series(b),
    }
}

/// Assembles the aggregate from the scanned values, in scan order,
/// skipping missing and undecodable entries. When every value is the
/// canonical encoding of a series, the aggregate is exactly those series.
pub fn collect_day_series(values: &Vec<Option<Vec<u8>>>) -> (r: AggregateResult)
    ensures
        r@.len() <= values@.len(),
        forall|i: int| 0 <= i < r@.len() ==> series_wf(#[trigger] r@[i]),
        forall|svs: Seq<Seq<QuoteModel>>| #[trigger] all_entries_encoded(values@, svs) ==> r@
            == svs,
{
    let mut data: Vec<DaySeries> = Vec::new();
    let mut i: usize = 0;
    while i < values.len()
        invariant
            i <= values@.len(),
            data@.len() <= i,
            forall|k: int|
                0 <= k < data@.len() ==> series_wf(#[trigger] data@[k]@),
            forall|svs: Seq<Seq<QuoteModel>>| #[trigger] all_entries_encoded(values@, svs)
                ==> data@.map_values(|s: DaySeries| s@) == svs.take(i as int),
        decreases values@.len() - i,
    {
        let entry = decode_day_entry(&values[i]);
        let ghost data_before = data@;
        match entry {
            Some(d) => {
                data.push(d);
            },
            None => {},
        }
        proof {
            assert forall|svs: Seq<Seq<QuoteModel>>|
                #![trigger all_entries_encoded(values@, svs)]
                all_entries_encoded(values@, svs) implies data@.map_values(|s: DaySeries| s@)
                == svs.take(i + 1) by {
                assert(values@[i as int] matches Some(b) && series_encoded(b@, svs[i as int]));
                assert(entry matches Some(d) && d@ == svs[i as int]);
                assert(data@.map_values(|s: DaySeries| s@) =~= data_before.map_values(
                    |s: DaySeries| s@,
                ).push(svs[i as int]));
                assert(svs.take(i + 1) =~= svs.take(i as int).push(svs[i as int]));
            }
        }
        i = i + 1;
    }
    let r = AggregateResult { data };
    proof {
        assert forall|svs: Seq<Seq<QuoteModel>>|
            #![trigger all_entries_encoded(values@, svs)]
            all_entries_encoded(values@, svs) implies r@ == svs by {
            assert(svs.take(values@.len() as int) =~= svs);
        }
    }
    r
}

} // verus!
