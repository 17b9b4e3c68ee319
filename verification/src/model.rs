//! The quote record model: one OHLCV observation, a one-day series of
//! observations, and the all-symbols aggregate.
//!
//! Prices are carried as fixed-point integers (a scaled minor unit chosen
//! by the caller), so every field is a plain value and a record is equal
//! to another exactly when the fields are.

use vstd::prelude::*;

verus! {

/// A symbol byte is printable ASCII and stays clear of the characters the
/// codec and the key scheme give a meaning to: `"` and `\` (string
/// delimiters in the codec) and `_` (the key-segment separator).
pub open spec fn symbol_byte_ok(b: u8) -> bool {
    33 <= b && b <= 126 && b != 34 && b != 92 && b != 95
}

pub open spec fn symbol_bytes_ok(s: Seq<u8>) -> bool {
    forall|i: int| 0 <= i < s.len() ==> symbol_byte_ok(#[trigger] s[i])
}

/// A well-formed symbol is non-empty and made of symbol bytes.
pub open spec fn valid_symbol(s: Seq<u8>) -> bool {
    s.len() > 0 && symbol_bytes_ok(s)
}

/// Mathematical image of one OHLCV observation.
pub ghost struct QuoteModel {
    pub symbol: Seq<u8>,
    pub open: u64,
    pub close: u64,
    pub volume: u64,
    pub high: u64,
    pub low: u64,
}

impl QuoteModel {
    pub open spec fn wf(self) -> bool {
        valid_symbol(self.symbol)
    }
}

/// One OHLCV observation for a symbol over a trading period.
pub struct Quote {
    pub symbol: Vec<u8>,
    pub open: u64,
    pub close: u64,
    pub volume: u64,
    pub high: u64,
    pub low: u64,
}

impl View for Quote {
    type V = QuoteModel;

    open spec fn view(&self) -> QuoteModel {
        QuoteModel {
            symbol: self.symbol@,
            open: self.open,
            close: self.close,
            volume: self.volume,
            high: self.high,
            low: self.low,
        }
    }
}

pub open spec fn quotes_view(qs: Seq<Quote>) -> Seq<QuoteModel> {
    qs.map_values(|q: Quote| q@)
}

/// Every record of the sequence is well formed.
pub open spec fn series_wf(qs: Seq<QuoteModel>) -> bool {
    forall|i: int| 0 <= i < qs.len() ==> (#[trigger] qs[i]).wf()
}

/// Every record of the sequence carries the given symbol.
pub open spec fn series_same_symbol(qs: Seq<QuoteModel>, sym: Seq<u8>) -> bool {
    forall|i: int| 0 <= i < qs.len() ==> (#[trigger] qs[i]).symbol == sym
}

/// The intraday samples of one symbol over one day.
pub struct DaySeries {
    pub data: Vec<Quote>,
}

impl View for DaySeries {
    type V = Seq<QuoteModel>;

    open spec fn view(&self) -> Seq<QuoteModel> {
        quotes_view(self.data@)
    }
}

/// Every day-series found in the cache at scan time, one per matched key.
pub struct AggregateResult {
    pub data: Vec<DaySeries>,
}

impl View for AggregateResult {
    type V = Seq<Seq<QuoteModel>>;

    open spec fn view(&self) -> Seq<Seq<QuoteModel>> {
        self.data@.map_values(|s: DaySeries| s@)
    }
}

/// Checks whether `b` may appear in a symbol.
pub fn symbol_byte_allowed(b: u8) -> (r: bool)
    ensures
        r == symbol_byte_ok(b),
{
    33 <= b && b <= 126 && b != 34 && b != 92 && b != 95
}

/// Checks whether `s` is a well-formed symbol.
pub fn check_symbol(s: &Vec<u8>) -> (r: bool)
    ensures
        r == valid_symbol(s@),
{
    if s.len() == 0 {
        return false;
    }
    let mut i: usize = 0;
    while i < s.len()
        invariant
            i <= s@.len(),
            forall|j: int| 0 <= j < i ==> symbol_byte_ok(#[trigger] s@[j]),
        decreases s@.len() - i,
    {
        if !symbol_byte_allowed(s[i]) {
            return false;
        }
        i = i + 1;
    }
    true
}

} // verus!
