//! Deterministic cache-key construction, and the configuration the key
//! scheme and the freshness policy depend on.
//!
//! Three key shapes exist, one per cacheable unit: the suffix-qualified
//! symbol alone (current quote), `<qualified>_<date>` (one day's series by
//! date) and `<qualified>_day` (the trailing-day series, also the shape the
//! aggregation scan matches). Key construction is pure: equal inputs give
//! equal keys, and the uniqueness lemmas below show that distinct units
//! never share a key.

use vstd::prelude::*;

use crate::dates::valid_date_bytes;
use crate::digits::is_dec_digit;
use crate::model::{symbol_byte_ok, symbol_bytes_ok, valid_symbol};

verus! {

/// Service configuration: the market-suffix appended to every symbol and
/// the two time-to-live values, in seconds.
pub struct Config {
    pub suffix: Vec<u8>,
    pub ttl_current_seconds: u64,
    pub ttl_day_seconds: u64,
}

impl Config {
    /// The suffix is made of symbol bytes (so a qualified symbol is again
    /// a well-formed symbol); a current quote lives at most a minute, a
    /// day series at least one.
    pub open spec fn wf(self) -> bool {
        &&& symbol_bytes_ok(self.suffix@)
        &&& 1 <= self.ttl_current_seconds <= 60
        &&& self.ttl_day_seconds >= 60
    }
}

/// The `.NS` market suffix.
pub open spec fn nse_suffix() -> Seq<u8> {
    seq![46u8, 78u8, 83u8]
}

/// The default configuration: `.NS` suffix, five-second current-quote
/// time-to-live, sixty-second day-series time-to-live.
pub fn default_config() -> (c: Config)
    ensures
        c.wf(),
        c.suffix@ == nse_suffix(),
        c.ttl_current_seconds == 5,
        c.ttl_day_seconds == 60,
{
    let mut suffix: Vec<u8> = Vec::new();
    suffix.push(46);
    suffix.push(78);
    suffix.push(83);
    proof {
        assert(suffix@ =~= nse_suffix());
    }
    Config { suffix, ttl_current_seconds: 5, ttl_day_seconds: 60 }
}

/// The symbol with the market suffix appended.
pub open spec fn qualified_symbol(sym: Seq<u8>, sfx: Seq<u8>) -> Seq<u8> {
    sym + sfx
}

/// Key of the current-quote entry: the qualified symbol itself.
pub open spec fn current_key(sym: Seq<u8>, sfx: Seq<u8>) -> Seq<u8> {
    qualified_symbol(sym, sfx)
}

/// `_day` as a byte sequence.
pub open spec fn day_tag() -> Seq<u8> {
    seq![95u8, 100u8, 97u8, 121u8]
}

/// Key of the by-date day-series entry: `<qualified>_<date>`.
pub open spec fn day_date_key(sym: Seq<u8>, sfx: Seq<u8>, date: Seq<u8>) -> Seq<u8> {
    qualified_symbol(sym, sfx) + seq![95u8] + date
}

/// Key of the trailing-day series entry: `<qualified>_day`.
pub open spec fn day_agg_key(sym: Seq<u8>, sfx: Seq<u8>) -> Seq<u8> {
    qualified_symbol(sym, sfx) + day_tag()
}

/// The scan pattern matching every trailing-day key: `*_day`.
pub open spec fn day_pattern() -> Seq<u8> {
    seq![42u8, 95u8, 100u8, 97u8, 121u8]
}

/// A qualified well-formed symbol is again a well-formed symbol.
pub proof fn lemma_qualified_valid(sym: Seq<u8>, sfx: Seq<u8>)
    requires
        valid_symbol(sym),
        symbol_bytes_ok(sfx),
    ensures
        valid_symbol(qualified_symbol(sym, sfx)),
{
    assert forall|i: int| 0 <= i < (sym + sfx).len() implies symbol_byte_ok(
        #[trigger] (sym + sfx)[i],
    ) by {
        if i < sym.len() {
            assert((sym + sfx)[i] == sym[i]);
        } else {
            assert((sym + sfx)[i] == sfx[i - sym.len()]);
        }
    }
}

/// Copies a byte vector.
pub fn clone_bytes(src: &Vec<u8>) -> (r: Vec<u8>)
    ensures
        r@ == src@,
{
    let mut v: Vec<u8> = Vec::new();
    crate::codec::push_bytes(&mut v, src);
    proof {
        assert(v@ =~= src@);
    }
    v
}

/// Builds the qualified symbol.
pub fn build_qualified(symbol: &Vec<u8>, cfg: &Config) -> (r: Vec<u8>)
    ensures
        r@ == qualified_symbol(symbol@, cfg.suffix@),
{
    let mut v: Vec<u8> = Vec::new();
    crate::codec::push_bytes(&mut v, symbol);
    crate::codec::push_bytes(&mut v, &cfg.suffix);
    proof {
        assert(v@ =~= qualified_symbol(symbol@, cfg.suffix@));
    }
    v
}

/// Builds the current-quote key.
pub fn build_current_key(symbol: &Vec<u8>, cfg: &Config) -> (r: Vec<u8>)
    ensures
        r@ == current_key(symbol@, cfg.suffix@),
{
    build_qualified(symbol, cfg)
}

/// Builds the by-date day-series key.
pub fn build_day_date_key(symbol: &Vec<u8>, date: &Vec<u8>, cfg: &Config) -> (r: Vec<u8>)
    ensures
        r@ == day_date_key(symbol@, cfg.suffix@, date@),
{
    let mut v = build_qualified(symbol, cfg);
    v.push(95);
    crate::codec::push_bytes(&mut v, date);
    proof {
        assert(v@ =~= day_date_key(symbol@, cfg.suffix@, date@));
    }
    v
}

/// Builds the trailing-day series key.
pub fn build_day_agg_key(symbol: &Vec<u8>, cfg: &Config) -> (r: Vec<u8>)
    ensures
        r@ == day_agg_key(symbol@, cfg.suffix@),
{
    let mut v = build_qualified(symbol, cfg);
    v.push(95);
    v.push(100);
    v.push(97);
    v.push(121);
    proof {
        assert(v@ =~= day_agg_key(symbol@, cfg.suffix@));
    }
    v
}

/// Builds the `*_day` scan pattern.
pub fn build_day_pattern() -> (r: Vec<u8>)
    ensures
        r@ == day_pattern(),
{
    let mut v: Vec<u8> = Vec::new();
    v.push(42);
    v.push(95);
    v.push(100);
    v.push(97);
    v.push(121);
    proof {
        assert(v@ =~= day_pattern());
    }
    v
}

// --- Key uniqueness -------------------------------------------------------
//
// A cache key names exactly one cacheable unit: keys of different shapes
// never collide (symbol and suffix bytes exclude `_`, so only day keys
// hold one), and within a shape the key determines the symbol (and date).

/// Two symbols with the same suffix share their current-quote key only if
/// they are the same symbol.
pub proof fn lemma_current_key_injective(s1: Seq<u8>, s2: Seq<u8>, sfx: Seq<u8>)
    requires
        current_key(s1, sfx) == current_key(s2, sfx),
    ensures
        s1 == s2,
{
    assert((s1 + sfx).len() == (s2 + sfx).len());
    assert(s1.len() == s2.len());
    assert forall|i: int| 0 <= i < s1.len() implies s1[i] == s2[i] by {
        assert((s1 + sfx)[i] == s1[i]);
        assert((s2 + sfx)[i] == s2[i]);
    }
    assert(s1 =~= s2);
}

/// Two symbols with the same suffix share their trailing-day key only if
/// they are the same symbol.
pub proof fn lemma_day_agg_key_injective(s1: Seq<u8>, s2: Seq<u8>, sfx: Seq<u8>)
    requires
        day_agg_key(s1, sfx) == day_agg_key(s2, sfx),
    ensures
        s1 == s2,
{
    assert(day_agg_key(s1, sfx) == (s1 + sfx) + day_tag());
    assert(day_agg_key(s2, sfx) == (s2 + sfx) + day_tag());
    assert(((s1 + sfx) + day_tag()).len() == s1.len() + sfx.len() + 4);
    assert(((s2 + sfx) + day_tag()).len() == s2.len() + sfx.len() + 4);
    assert(s1.len() == s2.len());
    assert forall|i: int| 0 <= i < s1.len() implies s1[i] == s2[i] by {
        assert(day_agg_key(s1, sfx)[i] == s1[i]);
        assert(day_agg_key(s2, sfx)[i] == s2[i]);
    }
    assert(s1 =~= s2);
}

/// Two by-date keys with the same suffix agree only on the same symbol and
/// the same date.
pub proof fn lemma_day_date_key_injective(
    s1: Seq<u8>,
    d1: Seq<u8>,
    s2: Seq<u8>,
    d2: Seq<u8>,
    sfx: Seq<u8>,
)
    requires
        day_date_key(s1, sfx, d1) == day_date_key(s2, sfx, d2),
        valid_date_bytes(d1),
        valid_date_bytes(d2),
    ensures
        s1 == s2,
        d1 == d2,
{
    let k1 = day_date_key(s1, sfx, d1);
    let k2 = day_date_key(s2, sfx, d2);
    assert(k1.len() == k2.len());
    assert(s1.len() == s2.len());
    assert forall|i: int| 0 <= i < s1.len() implies s1[i] == s2[i] by {
        assert(k1[i] == s1[i]);
        assert(k2[i] == s2[i]);
    }
    assert(s1 =~= s2);
    let base = s1.len() + sfx.len() + 1;
    assert forall|i: int| 0 <= i < 10 implies d1[i] == d2[i] by {
        assert(k1[base + i] == d1[i]);
        assert(k2[base + i] == d2[i]);
    }
    assert(d1 =~= d2);
}

/// A current-quote key never names a day entry, and the two day shapes
/// never collide.
pub proof fn lemma_key_shapes_disjoint(
    s1: Seq<u8>,
    s2: Seq<u8>,
    sfx: Seq<u8>,
    date: Seq<u8>,
)
    requires
        valid_symbol(s1),
        valid_symbol(s2),
        symbol_bytes_ok(sfx),
        valid_date_bytes(date),
    ensures
        current_key(s1, sfx) != day_agg_key(s2, sfx),
        current_key(s1, sfx) != day_date_key(s2, sfx, date),
        day_agg_key(s2, sfx) != day_date_key(s1, sfx, date),
{
    let c = current_key(s1, sfx);
    let a = day_agg_key(s2, sfx);
    let dd = day_date_key(s2, sfx, date);
    // The current key holds no `_`; both day keys hold one.
    assert forall|i: int| 0 <= i < c.len() implies c[i] != 95 by {
        if i < s1.len() {
            assert(c[i] == s1[i]);
        } else {
            assert(c[i] == sfx[i - s1.len()]);
        }
    }
    if c == a {
        assert(c[s2.len() + sfx.len() as int] == 95) by {
            assert(a[s2.len() + sfx.len() as int] == day_tag()[0]);
        }
    }
    if c == dd {
        assert(c[s2.len() + sfx.len() as int] == 95) by {
            assert(dd[s2.len() + sfx.len() as int] == 95);
        }
    }
    // The two day shapes end differently: `y` against a date digit.
    if a == day_date_key(s1, sfx, date) {
        let la = a.len();
        assert(a[la - 1] == 121) by {
            assert(a[s2.len() + sfx.len() as int + 3] == day_tag()[3]);
        }
        assert(day_date_key(s1, sfx, date)[la - 1] == date[9]) by {
            assert(day_date_key(s1, sfx, date).len() == s1.len() + sfx.len() + 11);
        }
        assert(is_dec_digit(date[9]));
    }
}

} // verus!
