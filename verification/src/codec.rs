//! Canonical codec for the cached records.
//!
//! A record is stored as a JSON object with a fixed field set. The encoder
//! always emits the canonical form described by `encode_quote_spec` /
//! `encode_series_spec`; the decoder accepts that form exactly (and, as a
//! fallback, the same object with fields reordered, unknown scalar fields
//! added, or whitespace inserted). Decoding an encoded record is proved to
//! give back the record: see the quantified clause of `decode_quote` and
//! `decode_series`.

use vstd::prelude::*;

use crate::digits::{
    dec_digits, digit_run_end, digits_val, is_dec_digit, lemma_dec_digits_shape,
    lemma_dec_digits_val, lemma_digit_run_extent, parse_u64_at, push_u64,
};
use crate::model::{
    check_symbol, quotes_view, series_wf, symbol_byte_ok, valid_symbol, DaySeries, Quote,
    QuoteModel,
};

verus! {

// --- Literal fragments of the canonical form ------------------------------

/// `{"symbol":"`
pub open spec fn lit_head_sym() -> Seq<u8> {
    seq![123u8, 34u8, 115u8, 121u8, 109u8, 98u8, 111u8, 108u8, 34u8, 58u8, 34u8]
}

/// `,"open":`
pub open spec fn lit_open() -> Seq<u8> {
    seq![44u8, 34u8, 111u8, 112u8, 101u8, 110u8, 34u8, 58u8]
}

/// `,"close":`
pub open spec fn lit_close() -> Seq<u8> {
    seq![44u8, 34u8, 99u8, 108u8, 111u8, 115u8, 101u8, 34u8, 58u8]
}

/// `,"volume":`
pub open spec fn lit_volume() -> Seq<u8> {
    seq![44u8, 34u8, 118u8, 111u8, 108u8, 117u8, 109u8, 101u8, 34u8, 58u8]
}

/// `,"high":`
pub open spec fn lit_high() -> Seq<u8> {
    seq![44u8, 34u8, 104u8, 105u8, 103u8, 104u8, 34u8, 58u8]
}

/// `,"low":`
pub open spec fn lit_low() -> Seq<u8> {
    seq![44u8, 34u8, 108u8, 111u8, 119u8, 34u8, 58u8]
}

/// `{"data":[`
pub open spec fn lit_head_data() -> Seq<u8> {
    seq![123u8, 34u8, 100u8, 97u8, 116u8, 97u8, 34u8, 58u8, 91u8]
}

// --- Canonical encodings --------------------------------------------------

/// The canonical byte string of one quote record.
pub open spec fn encode_quote_spec(q: QuoteModel) -> Seq<u8> {
    lit_head_sym() + q.symbol + seq![34u8] + lit_open() + dec_digits(q.open as nat) + lit_close()
        + dec_digits(q.close as nat) + lit_volume() + dec_digits(q.volume as nat) + lit_high()
        + dec_digits(q.high as nat) + lit_low() + dec_digits(q.low as nat) + seq![125u8]
}

/// The comma-separated list of quote encodings.
pub open spec fn encode_quotes_list(qs: Seq<QuoteModel>) -> Seq<u8>
    decreases qs.len(),
{
    if qs.len() == 0 {
        Seq::empty()
    } else if qs.len() == 1 {
        encode_quote_spec(qs[0])
    } else {
        encode_quote_spec(qs[0]) + seq![44u8] + encode_quotes_list(qs.drop_first())
    }
}

/// The canonical byte string of a day-series record.
pub open spec fn encode_series_spec(qs: Seq<QuoteModel>) -> Seq<u8> {
    lit_head_data() + encode_quotes_list(qs) + seq![93u8, 125u8]
}

/// A well-formed quote's canonical encoding occupies `s` from `pos` on.
pub open spec fn quote_encoded_at(s: Seq<u8>, pos: int, qm: QuoteModel) -> bool {
    &&& qm.wf()
    &&& 0 <= pos
    &&& pos + encode_quote_spec(qm).len() <= s.len()
    &&& s.subrange(pos, pos + encode_quote_spec(qm).len()) == encode_quote_spec(qm)
}

/// `s` is exactly the canonical encoding of the well-formed series `qs`.
pub open spec fn series_encoded(s: Seq<u8>, qs: Seq<QuoteModel>) -> bool {
    &&& series_wf(qs)
    &&& s == encode_series_spec(qs)
}

// --- Sequence lemmas ------------------------------------------------------

/// Splitting a known concatenation inside a larger sequence.
pub proof fn lemma_split_at(s: Seq<u8>, p: int, a: Seq<u8>, b: Seq<u8>)
    requires
        0 <= p,
        p + a.len() + b.len() <= s.len(),
        s.subrange(p, p + a.len() + b.len()) == a + b,
    ensures
        s.subrange(p, p + a.len()) == a,
        s.subrange(p + a.len(), p + a.len() + b.len()) == b,
{
    let whole = s.subrange(p, p + a.len() + b.len());
    assert forall|i: int| 0 <= i < a.len() implies s.subrange(p, p + a.len())[i] == a[i] by {
        assert(whole[i] == (a + b)[i]);
    }
    assert(s.subrange(p, p + a.len()) =~= a);
    assert forall|i: int| 0 <= i < b.len() implies s.subrange(
        p + a.len(),
        p + a.len() + b.len(),
    )[i] == b[i] by {
        assert(whole[a.len() + i] == (a + b)[a.len() + i]);
    }
    assert(s.subrange(p + a.len(), p + a.len() + b.len()) =~= b);
}

/// The first index at or after `pos` that does not hold a symbol byte.
pub open spec fn sym_run_end(s: Seq<u8>, pos: int) -> int
    decreases s.len() - pos when 0 <= pos <= s.len()
{
    if pos == s.len() || !symbol_byte_ok(s[pos]) {
        pos
    } else {
        sym_run_end(s, pos + 1)
    }
}

/// Basic facts about the symbol run starting at `pos`.
pub proof fn lemma_sym_run_props(s: Seq<u8>, pos: int)
    requires
        0 <= pos <= s.len(),
    ensures
        pos <= sym_run_end(s, pos) <= s.len(),
        forall|k: int| pos <= k < sym_run_end(s, pos) ==> symbol_byte_ok(#[trigger] s[k]),
        sym_run_end(s, pos) == s.len() || !symbol_byte_ok(s[sym_run_end(s, pos)]),
    decreases s.len() - pos,
{
    if pos < s.len() && symbol_byte_ok(s[pos]) {
        lemma_sym_run_props(s, pos + 1);
    }
}

/// A run of symbol bytes bounded by a non-symbol byte (or the end) is the
/// whole symbol run.
pub proof fn lemma_sym_run_extent(s: Seq<u8>, p: int, e: int)
    requires
        0 <= p <= e <= s.len(),
        forall|i: int| p <= i < e ==> symbol_byte_ok(#[trigger] s[i]),
        e == s.len() || !symbol_byte_ok(s[e]),
    ensures
        sym_run_end(s, p) == e,
    decreases e - p,
{
    if p < e {
        lemma_sym_run_extent(s, p + 1, e);
    }
}

/// Appending one record to a quote list extends its encoding by a comma and
/// the record's encoding.
pub proof fn lemma_enc_list_push(qs: Seq<QuoteModel>, q: QuoteModel)
    ensures
        qs.len() == 0 ==> encode_quotes_list(qs.push(q)) == encode_quote_spec(q),
        qs.len() > 0 ==> encode_quotes_list(qs.push(q)) == encode_quotes_list(qs) + seq![44u8]
            + encode_quote_spec(q),
    decreases qs.len(),
{
    let w = qs.push(q);
    if qs.len() == 0 {
        assert(w.len() == 1);
        assert(w[0] == q);
    } else if qs.len() == 1 {
        assert(w.len() == 2);
        assert(w[0] == qs[0]);
        assert(w.drop_first() =~= seq![q]);
        assert(encode_quotes_list(seq![q]) == encode_quote_spec(q));
        assert(encode_quotes_list(w) == encode_quote_spec(qs[0]) + seq![44u8]
            + encode_quote_spec(q));
        assert(encode_quotes_list(qs) == encode_quote_spec(qs[0]));
    } else {
        lemma_enc_list_push(qs.drop_first(), q);
        assert(w.drop_first() =~= qs.drop_first().push(q));
        assert(w[0] == qs[0]);
        assert(encode_quotes_list(w) == encode_quote_spec(qs[0]) + seq![44u8]
            + encode_quotes_list(qs.drop_first().push(q)));
        assert(encode_quotes_list(qs.drop_first().push(q)) == encode_quotes_list(qs.drop_first())
            + seq![44u8] + encode_quote_spec(q));
        assert(encode_quotes_list(qs) + seq![44u8] + encode_quote_spec(q) == encode_quote_spec(
            qs[0],
        ) + seq![44u8] + (encode_quotes_list(qs.drop_first()) + seq![44u8] + encode_quote_spec(q)))
            by {
            assert(encode_quotes_list(qs) + seq![44u8] + encode_quote_spec(q) =~= encode_quote_spec(
                qs[0],
            ) + seq![44u8] + (encode_quotes_list(qs.drop_first()) + seq![44u8] + encode_quote_spec(
                q,
            )));
        }
    }
}

// --- Executable building blocks -------------------------------------------

/// Appends all of `src` to `v`.
pub fn push_bytes(v: &mut Vec<u8>, src: &Vec<u8>)
    ensures
        final(v)@ == old(v)@ + src@,
{
    let mut i: usize = 0;
    while i < src.len()
        invariant
            i <= src@.len(),
            v@ == old(v)@ + src@.take(i as int),
        decreases src@.len() - i,
    {
        v.push(src[i]);
        proof {
            assert(old(v)@ + src@.take(i + 1) =~= (old(v)@ + src@.take(i as int)).push(
                src@[i as int],
            ));
        }
        i = i + 1;
    }
    proof {
        assert(src@.take(src@.len() as int) =~= src@);
    }
}

/// Whether the bytes of `pat` stand in `s` at `pos`.
pub fn match_at(s: &Vec<u8>, pos: usize, pat: &Vec<u8>) -> (r: bool)
    requires
        pos <= s@.len(),
    ensures
        r == (pos + pat@.len() <= s@.len() && s@.subrange(pos as int, pos + pat@.len()) == pat@),
{
    if pat.len() > s.len() - pos {
        return false;
    }
    let limit: usize = pos + pat.len();
    let mut j: usize = pos;
    while j < limit
        invariant
            limit == pos + pat@.len(),
            pos + pat@.len() <= s@.len(),
            pos <= j <= limit,
            forall|k: int| 0 <= k < j - pos ==> s@[pos + k] == #[trigger] pat@[k],
        decreases limit - j,
    {
        if s[j] != pat[j - pos] {
            proof {
                assert(s@.subrange(pos as int, pos + pat@.len())[j - pos] == s@[j as int]);
            }
            return false;
        }
        j = j + 1;
    }
    proof {
        assert(s@.subrange(pos as int, pos + pat@.len()) =~= pat@);
    }
    true
}

/// The bytes of `{"symbol":"` as a vector.
pub fn lit_head_sym_vec() -> (r: Vec<u8>)
    ensures
        r@ == lit_head_sym(),
{
    let mut v: Vec<u8> = Vec::new();
    v.push(123);
    v.push(34);
    v.push(115);
    v.push(121);
    v.push(109);
    v.push(98);
    v.push(111);
    v.push(108);
    v.push(34);
    v.push(58);
    v.push(34);
    proof {
        assert(v@ =~= lit_head_sym());
    }
    v
}

/// The bytes of `,"open":` as a vector.
pub fn lit_open_vec() -> (r: Vec<u8>)
    ensures
        r@ == lit_open(),
{
    let mut v: Vec<u8> = Vec::new();
    v.push(44);
    v.push(34);
    v.push(111);
    v.push(112);
    v.push(101);
    v.push(110);
    v.push(34);
    v.push(58);
    proof {
        assert(v@ =~= lit_open());
    }
    v
}

/// The bytes of `,"close":` as a vector.
pub fn lit_close_vec() -> (r: Vec<u8>)
    ensures
        r@ == lit_close(),
{
    let mut v: Vec<u8> = Vec::new();
    v.push(44);
    v.push(34);
    v.push(99);
    v.push(108);
    v.push(111);
    v.push(115);
    v.push(101);
    v.push(34);
    v.push(58);
    proof {
        assert(v@ =~= lit_close());
    }
    v
}

/// The bytes of `,"volume":` as a vector.
pub fn lit_volume_vec() -> (r: Vec<u8>)
    ensures
        r@ == lit_volume(),
{
    let mut v: Vec<u8> = Vec::new();
    v.push(44);
    v.push(34);
    v.push(118);
    v.push(111);
    v.push(108);
    v.push(117);
    v.push(109);
    v.push(101);
    v.push(34);
    v.push(58);
    proof {
        assert(v@ =~= lit_volume());
    }
    v
}

/// The bytes of `,"high":` as a vector.
pub fn lit_high_vec() -> (r: Vec<u8>)
    ensures
        r@ == lit_high(),
{
    let mut v: Vec<u8> = Vec::new();
    v.push(44);
    v.push(34);
    v.push(104);
    v.push(105);
    v.push(103);
    v.push(104);
    v.push(34);
    v.push(58);
    proof {
        assert(v@ =~= lit_high());
    }
    v
}

/// The bytes of `,"low":` as a vector.
pub fn lit_low_vec() -> (r: Vec<u8>)
    ensures
        r@ == lit_low(),
{
    let mut v: Vec<u8> = Vec::new();
    v.push(44);
    v.push(34);
    v.push(108);
    v.push(111);
    v.push(119);
    v.push(34);
    v.push(58);
    proof {
        assert(v@ =~= lit_low());
    }
    v
}

/// The bytes of `{"data":[` as a vector.
pub fn lit_head_data_vec() -> (r: Vec<u8>)
    ensures
        r@ == lit_head_data(),
{
    let mut v: Vec<u8> = Vec::new();
    v.push(123);
    v.push(34);
    v.push(100);
    v.push(97);
    v.push(116);
    v.push(97);
    v.push(34);
    v.push(58);
    v.push(91);
    proof {
        assert(v@ =~= lit_head_data());
    }
    v
}

/// Encodes one quote record into its canonical byte string.
pub fn encode_quote(q: &Quote) -> (r: Vec<u8>)
    ensures
        r@ == encode_quote_spec(q@),
{
    let mut v: Vec<u8> = lit_head_sym_vec();
    push_bytes(&mut v, &q.symbol);
    v.push(34);
    let lo = lit_open_vec();
    push_bytes(&mut v, &lo);
    push_u64(&mut v, q.open);
    let lc = lit_close_vec();
    push_bytes(&mut v, &lc);
    push_u64(&mut v, q.close);
    let lv = lit_volume_vec();
    push_bytes(&mut v, &lv);
    push_u64(&mut v, q.volume);
    let lh = lit_high_vec();
    push_bytes(&mut v, &lh);
    push_u64(&mut v, q.high);
    let ll = lit_low_vec();
    push_bytes(&mut v, &ll);
    push_u64(&mut v, q.low);
    v.push(125);
    proof {
        assert(v@ =~= encode_quote_spec(q@));
    }
    v
}

/// Encodes a day-series record into its canonical byte string.
pub fn encode_series(d: &DaySeries) -> (r: Vec<u8>)
    ensures
        r@ == encode_series_spec(d@),
{
    let mut v: Vec<u8> = lit_head_data_vec();
    let mut i: usize = 0;
    while i < d.data.len()
        invariant
            i <= d.data@.len(),
            v@ == lit_head_data() + encode_quotes_list(d@.take(i as int)),
        decreases d.data@.len() - i,
    {
        if i > 0 {
            v.push(44);
        }
        let qb = encode_quote(&d.data[i]);
        push_bytes(&mut v, &qb);
        proof {
            let pre = d@.take(i as int);
            lemma_enc_list_push(pre, d.data@[i as int]@);
            assert(d@.take(i + 1) =~= pre.push(d.data@[i as int]@));
            if i == 0 {
                assert(v@ =~= lit_head_data() + encode_quotes_list(d@.take(i + 1)));
            } else {
                assert(v@ =~= lit_head_data() + encode_quotes_list(d@.take(i + 1)));
            }
        }
        i = i + 1;
    }
    v.push(93);
    v.push(125);
    proof {
        assert(d@.take(d.data@.len() as int) =~= d@);
        assert(v@ =~= encode_series_spec(d@));
    }
    v
}

/// Reads a symbol string starting at `pos` (just after an opening quote):
/// a non-empty run of symbol bytes closed by `"`. Returns the symbol and
/// the position after the closing quote.
pub fn parse_symbol_at(s: &Vec<u8>, pos: usize) -> (r: Option<(Vec<u8>, usize)>)
    requires
        pos <= s@.len(),
    ensures
        match r {
            Some((sym, p2)) => {
                let e = sym_run_end(s@, pos as int);
                &&& pos < e < s@.len()
                &&& s@[e] == 34
                &&& sym@ == s@.subrange(pos as int, e)
                &&& p2 == e + 1
                &&& valid_symbol(sym@)
            },
            None => {
                let e = sym_run_end(s@, pos as int);
                e == pos || e == s@.len() || s@[e] != 34
            },
        },
{
    proof {
        lemma_sym_run_props(s@, pos as int);
    }
    let ghost e: int = sym_run_end(s@, pos as int);
    let mut i: usize = pos;
    let mut sym: Vec<u8> = Vec::new();
    while i < s.len() && 33 <= s[i] && s[i] <= 126 && s[i] != 34 && s[i] != 92 && s[i] != 95
        invariant
            pos <= i <= s@.len(),
            i <= e <= s@.len(),
            e == sym_run_end(s@, pos as int),
            forall|k: int| pos <= k < e ==> symbol_byte_ok(#[trigger] s@[k]),
            e == s@.len() || !symbol_byte_ok(s@[e]),
            sym@ == s@.subrange(pos as int, i as int),
        decreases s@.len() - i,
    {
        proof {
            assert(symbol_byte_ok(s@[i as int]));
            assert(i < e) by {
                if i >= e {
                    assert(i == e);
                }
            }
        }
        sym.push(s[i]);
        proof {
            assert(s@.subrange(pos as int, i + 1) =~= s@.subrange(pos as int, i as int).push(
                s@[i as int],
            ));
        }
        i = i + 1;
    }
    proof {
        assert(i == e);
    }
    if i == pos {
        return None;
    }
    if i < s.len() && s[i] == 34 {
        proof {
            assert(valid_symbol(sym@)) by {
                assert(forall|k: int|
                    0 <= k < sym@.len() ==> #[trigger] sym@[k] == s@[pos + k]);
            }
        }
        Some((sym, i + 1))
    } else {
        None
    }
}

/// Where each fragment of a quote's canonical encoding stands in `s`, when
/// the encoding occupies `s` from `pos` on.
#[verifier::rlimit(100)]
#[verifier::spinoff_prover]
pub proof fn lemma_quote_layout(s: Seq<u8>, pos: int, q: QuoteModel)
    requires
        quote_encoded_at(s, pos, q),
    ensures
        ({
            let p0 = pos + lit_head_sym().len();
            let p1 = p0 + q.symbol.len();
            let p2 = p1 + 1 + lit_open().len();
            let p3 = p2 + dec_digits(q.open as nat).len();
            let p4 = p3 + lit_close().len();
            let p5 = p4 + dec_digits(q.close as nat).len();
            let p6 = p5 + lit_volume().len();
            let p7 = p6 + dec_digits(q.volume as nat).len();
            let p8 = p7 + lit_high().len();
            let p9 = p8 + dec_digits(q.high as nat).len();
            let p10 = p9 + lit_low().len();
            let p11 = p10 + dec_digits(q.low as nat).len();
            &&& pos + encode_quote_spec(q).len() == p11 + 1
            &&& p11 < s.len()
            &&& s.subrange(pos, p0) == lit_head_sym()
            &&& sym_run_end(s, p0) == p1
            &&& p1 < s.len()
            &&& s[p1] == 34
            &&& s.subrange(p0, p1) == q.symbol
            &&& s.subrange(p1 + 1, p2) == lit_open()
            &&& digit_run_end(s, p2) == p3
            &&& digits_val(s.subrange(p2, p3)) == q.open
            &&& s.subrange(p3, p4) == lit_close()
            &&& digit_run_end(s, p4) == p5
            &&& digits_val(s.subrange(p4, p5)) == q.close
            &&& s.subrange(p5, p6) == lit_volume()
            &&& digit_run_end(s, p6) == p7
            &&& digits_val(s.subrange(p6, p7)) == q.volume
            &&& s.subrange(p7, p8) == lit_high()
            &&& digit_run_end(s, p8) == p9
            &&& digits_val(s.subrange(p8, p9)) == q.high
            &&& s.subrange(p9, p10) == lit_low()
            &&& digit_run_end(s, p10) == p11
            &&& digits_val(s.subrange(p10, p11)) == q.low
            &&& s[p11] == 125
        }),
{
    let d1 = dec_digits(q.open as nat);
    let d2 = dec_digits(q.close as nat);
    let d3 = dec_digits(q.volume as nat);
    let d4 = dec_digits(q.high as nat);
    let d5 = dec_digits(q.low as nat);
    let rb = seq![125u8];
    let t5 = d5 + rb;
    let t5l = lit_low() + t5;
    let t4 = d4 + t5l;
    let t4l = lit_high() + t4;
    let t3 = d3 + t4l;
    let t3l = lit_volume() + t3;
    let t2 = d2 + t3l;
    let t2l = lit_close() + t2;
    let t1 = d1 + t2l;
    let t1l = lit_open() + t1;
    let tq = seq![34u8] + t1l;
    let ts = q.symbol + tq;
    assert(encode_quote_spec(q) =~= lit_head_sym() + ts);

    let p0 = pos + lit_head_sym().len();
    let p1 = p0 + q.symbol.len();
    let p2 = p1 + 1 + lit_open().len();
    let p3 = p2 + d1.len();
    let p4 = p3 + lit_close().len();
    let p5 = p4 + d2.len();
    let p6 = p5 + lit_volume().len();
    let p7 = p6 + d3.len();
    let p8 = p7 + lit_high().len();
    let p9 = p8 + d4.len();
    let p10 = p9 + lit_low().len();
    let p11 = p10 + d5.len();

    lemma_split_at(s, pos, lit_head_sym(), ts);
    lemma_split_at(s, p0, q.symbol, tq);
    lemma_split_at(s, p1, seq![34u8], t1l);
    assert(s[p1] == 34) by {
        assert(s.subrange(p1, p1 + 1)[0] == s[p1]);
    }
    lemma_split_at(s, p1 + 1, lit_open(), t1);
    lemma_split_at(s, p2, d1, t2l);
    lemma_split_at(s, p3, lit_close(), t2);
    lemma_split_at(s, p4, d2, t3l);
    lemma_split_at(s, p5, lit_volume(), t3);
    lemma_split_at(s, p6, d3, t4l);
    lemma_split_at(s, p7, lit_high(), t4);
    lemma_split_at(s, p8, d4, t5l);
    lemma_split_at(s, p9, lit_low(), t5);
    lemma_split_at(s, p10, d5, rb);
    assert(s[p11] == 125) by {
        assert(s.subrange(p11, p11 + 1)[0] == s[p11]);
    }

    // The symbol run ends exactly at the closing quote.
    assert(sym_run_end(s, p0) == p1) by {
        assert forall|i: int| p0 <= i < p1 implies symbol_byte_ok(#[trigger] s[i]) by {
            assert(s.subrange(p0, p1)[i - p0] == s[i]);
            assert(q.symbol[i - p0] == s[i]);
        }
        assert(!symbol_byte_ok(s[p1]));
        lemma_sym_run_extent(s, p0, p1);
    }

    // Each digit run ends exactly at the following literal.
    lemma_dec_digits_shape(q.open as nat);
    lemma_dec_digits_shape(q.close as nat);
    lemma_dec_digits_shape(q.volume as nat);
    lemma_dec_digits_shape(q.high as nat);
    lemma_dec_digits_shape(q.low as nat);
    lemma_dec_digits_val(q.open as nat);
    lemma_dec_digits_val(q.close as nat);
    lemma_dec_digits_val(q.volume as nat);
    lemma_dec_digits_val(q.high as nat);
    lemma_dec_digits_val(q.low as nat);

    assert(digit_run_end(s, p2) == p3) by {
        assert forall|i: int| p2 <= i < p3 implies is_dec_digit(#[trigger] s[i]) by {
            assert(s.subrange(p2, p3)[i - p2] == s[i]);
            assert(d1[i - p2] == s[i]);
        }
        assert(s[p3] == 44) by {
            assert(s.subrange(p3, p4)[0] == s[p3]);
        }
        lemma_digit_run_extent(s, p2, p3);
    }
    assert(digit_run_end(s, p4) == p5) by {
        assert forall|i: int| p4 <= i < p5 implies is_dec_digit(#[trigger] s[i]) by {
            assert(s.subrange(p4, p5)[i - p4] == s[i]);
            assert(d2[i - p4] == s[i]);
        }
        assert(s[p5] == 44) by {
            assert(s.subrange(p5, p6)[0] == s[p5]);
        }
        lemma_digit_run_extent(s, p4, p5);
    }
    assert(digit_run_end(s, p6) == p7) by {
        assert forall|i: int| p6 <= i < p7 implies is_dec_digit(#[trigger] s[i]) by {
            assert(s.subrange(p6, p7)[i - p6] == s[i]);
            assert(d3[i - p6] == s[i]);
        }
        assert(s[p7] == 44) by {
            assert(s.subrange(p7, p8)[0] == s[p7]);
        }
        lemma_digit_run_extent(s, p6, p7);
    }
    assert(digit_run_end(s, p8) == p9) by {
        assert forall|i: int| p8 <= i < p9 implies is_dec_digit(#[trigger] s[i]) by {
            assert(s.subrange(p8, p9)[i - p8] == s[i]);
            assert(d4[i - p8] == s[i]);
        }
        assert(s[p9] == 44) by {
            assert(s.subrange(p9, p10)[0] == s[p9]);
        }
        lemma_digit_run_extent(s, p8, p9);
    }
    assert(digit_run_end(s, p10) == p11) by {
        assert forall|i: int| p10 <= i < p11 implies is_dec_digit(#[trigger] s[i]) by {
            assert(s.subrange(p10, p11)[i - p10] == s[i]);
            assert(d5[i - p10] == s[i]);
        }
        assert(!is_dec_digit(s[p11]));
        lemma_digit_run_extent(s, p10, p11);
    }
}

/// Reads one quote record in canonical form starting at `pos`. A record in
/// canonical form is always read back as the record it encodes.
#[verifier::rlimit(100)]
#[verifier::spinoff_prover]
pub fn decode_quote_at(s: &Vec<u8>, pos: usize) -> (r: Option<(Quote, usize)>)
    requires
        pos <= s@.len(),
    ensures
        (match r {
            Some((q, p2)) => q@.wf() && pos < p2 <= s@.len(),
            None => true,
        }),
        forall|qm: QuoteModel| #[trigger] quote_encoded_at(s@, pos as int, qm) ==> (match r {
            Some((q, p2)) => q@ == qm && p2 == pos + encode_quote_spec(qm).len(),
            None => false,
        }),
{
    let n = s.len();
    let head = lit_head_sym_vec();
    if !match_at(s, pos, &head) {
        proof {
            assert forall|qm: QuoteModel| !quote_encoded_at(s@, pos as int, qm) by {
                if quote_encoded_at(s@, pos as int, qm) {
                    lemma_quote_layout(s@, pos as int, qm);
                    assert(false);
                }
            }
        }
        return None;
    }
    let p0 = pos + 11;
    let sym_res = parse_symbol_at(s, p0);
    if sym_res.is_none() {
        proof {
            assert forall|qm: QuoteModel| !quote_encoded_at(s@, pos as int, qm) by {
                if quote_encoded_at(s@, pos as int, qm) {
                    lemma_quote_layout(s@, pos as int, qm);
                    assert(false);
                }
            }
        }
        return None;
    }
    let (sym, q1) = sym_res.unwrap();
    let lo = lit_open_vec();
    if !match_at(s, q1, &lo) {
        proof {
            assert forall|qm: QuoteModel| !quote_encoded_at(s@, pos as int, qm) by {
                if quote_encoded_at(s@, pos as int, qm) {
                    lemma_quote_layout(s@, pos as int, qm);
                    assert(false);
                }
            }
        }
        return None;
    }
    let p2 = q1 + 8;
    let open_res = parse_u64_at(s, p2);
    if open_res.is_none() {
        proof {
            assert forall|qm: QuoteModel| !quote_encoded_at(s@, pos as int, qm) by {
                if quote_encoded_at(s@, pos as int, qm) {
                    lemma_quote_layout(s@, pos as int, qm);
                    assert(false);
                }
            }
        }
        return None;
    }
    let (n_open, p3) = open_res.unwrap();
    let lc = lit_close_vec();
    if !match_at(s, p3, &lc) {
        proof {
            assert forall|qm: QuoteModel| !quote_encoded_at(s@, pos as int, qm) by {
                if quote_encoded_at(s@, pos as int, qm) {
                    lemma_quote_layout(s@, pos as int, qm);
                    assert(false);
                }
            }
        }
        return None;
    }
    let p4 = p3 + 9;
    let close_res = parse_u64_at(s, p4);
    if close_res.is_none() {
        proof {
            assert forall|qm: QuoteModel| !quote_encoded_at(s@, pos as int, qm) by {
                if quote_encoded_at(s@, pos as int, qm) {
                    lemma_quote_layout(s@, pos as int, qm);
                    assert(false);
                }
            }
        }
        return None;
    }
    let (n_close, p5) = close_res.unwrap();
    let lv2 = lit_volume_vec();
    if !match_at(s, p5, &lv2) {
        proof {
            assert forall|qm: QuoteModel| !quote_encoded_at(s@, pos as int, qm) by {
                if quote_encoded_at(s@, pos as int, qm) {
                    lemma_quote_layout(s@, pos as int, qm);
                    assert(false);
                }
            }
        }
        return None;
    }
    let p6 = p5 + 10;
    let vol_res = parse_u64_at(s, p6);
    if vol_res.is_none() {
        proof {
            assert forall|qm: QuoteModel| !quote_encoded_at(s@, pos as int, qm) by {
                if quote_encoded_at(s@, pos as int, qm) {
                    lemma_quote_layout(s@, pos as int, qm);
                    assert(false);
                }
            }
        }
        return None;
    }
    let (n_volume, p7) = vol_res.unwrap();
    let lh2 = lit_high_vec();
    if !match_at(s, p7, &lh2) {
        proof {
            assert forall|qm: QuoteModel| !quote_encoded_at(s@, pos as int, qm) by {
                if quote_encoded_at(s@, pos as int, qm) {
                    lemma_quote_layout(s@, pos as int, qm);
                    assert(false);
                }
            }
        }
        return None;
    }
    let p8 = p7 + 8;
    let high_res = parse_u64_at(s, p8);
    if high_res.is_none() {
        proof {
            assert forall|qm: QuoteModel| !quote_encoded_at(s@, pos as int, qm) by {
                if quote_encoded_at(s@, pos as int, qm) {
                    lemma_quote_layout(s@, pos as int, qm);
                    assert(false);
                }
            }
        }
        return None;
    }
    let (n_high, p9) = high_res.unwrap();
    let ll2 = lit_low_vec();
    if !match_at(s, p9, &ll2) {
        proof {
            assert forall|qm: QuoteModel| !quote_encoded_at(s@, pos as int, qm) by {
                if quote_encoded_at(s@, pos as int, qm) {
                    lemma_quote_layout(s@, pos as int, qm);
                    assert(false);
                }
            }
        }
        return None;
    }
    let p10 = p9 + 7;
    let low_res = parse_u64_at(s, p10);
    if low_res.is_none() {
        proof {
            assert forall|qm: QuoteModel| !quote_encoded_at(s@, pos as int, qm) by {
                if quote_encoded_at(s@, pos as int, qm) {
                    lemma_quote_layout(s@, pos as int, qm);
                    assert(false);
                }
            }
        }
        return None;
    }
    let (n_low, p11) = low_res.unwrap();
    if p11 < n && s[p11] == 125 {
        let q = Quote {
            symbol: sym,
            open: n_open,
            close: n_close,
            volume: n_volume,
            high: n_high,
            low: n_low,
        };
        proof {
            assert forall|qm: QuoteModel| quote_encoded_at(s@, pos as int, qm) implies (q@ == qm
                && p11 + 1 == pos + encode_quote_spec(qm).len()) by {
                lemma_quote_layout(s@, pos as int, qm);
                assert(sym@ == qm.symbol);
                assert(q@ == qm);
            }
        }
        Some((q, p11 + 1))
    } else {
        proof {
            assert forall|qm: QuoteModel| !quote_encoded_at(s@, pos as int, qm) by {
                if quote_encoded_at(s@, pos as int, qm) {
                    lemma_quote_layout(s@, pos as int, qm);
                    assert(false);
                }
            }
        }
        None
    }
}

/// A well-formed quote's canonical encoding is exactly `s`.
pub open spec fn quote_encoded(s: Seq<u8>, qm: QuoteModel) -> bool {
    &&& qm.wf()
    &&& s == encode_quote_spec(qm)
}

/// The encodings of the records `qs`, comma-separated and closed by `]}`,
/// occupy `s` from `pos` on.
pub open spec fn quotes_rest_encoded_at(s: Seq<u8>, pos: int, qs: Seq<QuoteModel>) -> bool {
    &&& qs.len() >= 1
    &&& series_wf(qs)
    &&& 0 <= pos
    &&& pos + encode_quotes_list(qs).len() + 2 <= s.len()
    &&& s.subrange(pos, pos + encode_quotes_list(qs).len() + 2) == encode_quotes_list(qs)
        + seq![93u8, 125u8]
}

/// Peels the first record off an encoded quote list.
pub proof fn lemma_rest_layout(s: Seq<u8>, pos: int, qs: Seq<QuoteModel>)
    requires
        quotes_rest_encoded_at(s, pos, qs),
    ensures
        quote_encoded_at(s, pos, qs[0]),
        ({
            let p = pos + encode_quote_spec(qs[0]).len();
            if qs.len() == 1 {
                &&& pos + encode_quotes_list(qs).len() + 2 == p + 2
                &&& p + 1 < s.len()
                &&& s[p] == 93
                &&& s[p + 1] == 125
            } else {
                &&& p < s.len()
                &&& s[p] == 44
                &&& quotes_rest_encoded_at(s, p + 1, qs.drop_first())
                &&& pos + encode_quotes_list(qs).len() + 2 == p + 1 + encode_quotes_list(
                    qs.drop_first(),
                ).len() + 2
            }
        }),
{
    let e0 = encode_quote_spec(qs[0]);
    if qs.len() == 1 {
        assert(encode_quotes_list(qs) == e0);
        lemma_split_at(s, pos, e0, seq![93u8, 125u8]);
        assert(s[pos + e0.len()] == 93) by {
            assert(s.subrange(pos + e0.len(), pos + e0.len() + 2)[0] == s[pos + e0.len()]);
        }
        assert(s[pos + e0.len() + 1] == 125) by {
            assert(s.subrange(pos + e0.len(), pos + e0.len() + 2)[1] == s[pos + e0.len() + 1]);
        }
    } else {
        let restl = encode_quotes_list(qs.drop_first());
        assert(encode_quotes_list(qs) == e0 + seq![44u8] + restl);
        let tail1 = seq![44u8] + (restl + seq![93u8, 125u8]);
        assert(encode_quotes_list(qs) + seq![93u8, 125u8] =~= e0 + tail1);
        lemma_split_at(s, pos, e0, tail1);
        lemma_split_at(s, pos + e0.len(), seq![44u8], restl + seq![93u8, 125u8]);
        assert(s[pos + e0.len()] == 44) by {
            assert(s.subrange(pos + e0.len(), pos + e0.len() + 1)[0] == s[pos + e0.len()]);
        }
        assert(series_wf(qs.drop_first())) by {
            assert(forall|i: int|
                0 <= i < qs.drop_first().len() ==> #[trigger] qs.drop_first()[i] == qs[i + 1]);
        }
    }
}

/// Reads the remainder of a canonical series after `[`: one or more
/// records separated by commas, closed by `]}`. Appends the records to
/// `out`; returns the position after `}`.
#[verifier::rlimit(100)]
#[verifier::spinoff_prover]
pub fn parse_quotes_into(s: &Vec<u8>, pos: usize, out: &mut Vec<Quote>) -> (r: Option<usize>)
    requires
        pos <= s@.len(),
    ensures
        (match r {
            Some(p2) => {
                &&& pos < p2 <= s@.len()
                &&& final(out)@.len() >= old(out)@.len()
                &&& final(out)@.subrange(0, old(out)@.len() as int) == old(out)@
                &&& forall|i: int|
                    old(out)@.len() <= i < final(out)@.len() ==> (#[trigger] final(out)@[i])@.wf()
            },
            None => true,
        }),
        forall|qs: Seq<QuoteModel>| #[trigger] quotes_rest_encoded_at(s@, pos as int, qs)
            ==> (match r {
            Some(p2) => p2 == pos + encode_quotes_list(qs).len() + 2 && quotes_view(final(out)@)
                == quotes_view(old(out)@) + qs,
            None => false,
        }),
    decreases s@.len() - pos,
{
    let n = s.len();
    let qres = decode_quote_at(s, pos);
    if qres.is_none() {
        proof {
            assert forall|qs: Seq<QuoteModel>| !quotes_rest_encoded_at(s@, pos as int, qs) by {
                if quotes_rest_encoded_at(s@, pos as int, qs) {
                    lemma_rest_layout(s@, pos as int, qs);
                    assert(false);
                }
            }
        }
        return None;
    }
    let (q, p) = qres.unwrap();
    let ghost out_before = out@;
    out.push(q);
    if p < n && s[p] == 44 {
        let rec = parse_quotes_into(s, p + 1, out);
        match rec {
            None => {
                proof {
                    assert forall|qs: Seq<QuoteModel>| !quotes_rest_encoded_at(
                        s@,
                        pos as int,
                        qs,
                    ) by {
                        if quotes_rest_encoded_at(s@, pos as int, qs) {
                            lemma_rest_layout(s@, pos as int, qs);
                            assert(false);
                        }
                    }
                }
                None
            },
            Some(p2) => {
                proof {
                    let ob1 = out_before.push(q);
                    // The prefix written before the call is kept.
                    assert(out@[out_before.len() as int] == q) by {
                        assert(out@.subrange(0, ob1.len() as int)[out_before.len() as int]
                            == out@[out_before.len() as int]);
                    }
                    assert forall|i: int| 0 <= i < out_before.len() implies out@[i]
                        == out_before[i] by {
                        assert(out@.subrange(0, ob1.len() as int)[i] == out@[i]);
                        assert(ob1[i] == out_before[i]);
                    }
                    assert(out@.subrange(0, out_before.len() as int) =~= out_before);
                    assert forall|i: int| out_before.len() <= i < out@.len() implies (
                    #[trigger] out@[i])@.wf() by {
                        if i == out_before.len() {
                            assert(out@[i] == q);
                        }
                    }
                    assert forall|qs: Seq<QuoteModel>|
                        #![trigger quotes_rest_encoded_at(s@, pos as int, qs)]
                        quotes_rest_encoded_at(s@, pos as int, qs) implies (p2 == pos
                        + encode_quotes_list(qs).len() + 2 && quotes_view(out@) == quotes_view(
                        out_before,
                    ) + qs) by {
                        lemma_rest_layout(s@, pos as int, qs);
                        assert(qs.len() > 1) by {
                            if qs.len() == 1 {
                                assert(s@[p as int] == 93);
                            }
                        }
                        assert(q@ == qs[0]);
                        assert(p == pos + encode_quote_spec(qs[0]).len());
                        assert(quotes_rest_encoded_at(s@, p + 1, qs.drop_first()));
                        assert(quotes_view(out@) == quotes_view(ob1) + qs.drop_first());
                        assert(quotes_view(ob1) =~= quotes_view(out_before).push(q@));
                        assert(quotes_view(out_before).push(qs[0]) + qs.drop_first()
                            =~= quotes_view(out_before) + qs);
                    }
                }
                Some(p2)
            },
        }
    } else if p < n && s[p] == 93 {
        if p + 1 < n && s[p + 1] == 125 {
            proof {
                assert(out@.subrange(0, out_before.len() as int) =~= out_before);
                assert forall|qs: Seq<QuoteModel>|
                    #![trigger quotes_rest_encoded_at(s@, pos as int, qs)]
                    quotes_rest_encoded_at(s@, pos as int, qs) implies (p + 2 == pos
                    + encode_quotes_list(qs).len() + 2 && quotes_view(out@) == quotes_view(
                    out_before,
                ) + qs) by {
                    lemma_rest_layout(s@, pos as int, qs);
                    assert(qs.len() == 1) by {
                        if qs.len() > 1 {
                            assert(s@[p as int] == 44);
                        }
                    }
                    assert(q@ == qs[0]);
                    assert(quotes_view(out_before.push(q)) =~= quotes_view(out_before).push(q@));
                    assert(quotes_view(out_before).push(qs[0]) =~= quotes_view(out_before) + qs);
                }
            }
            Some(p + 2)
        } else {
            proof {
                assert forall|qs: Seq<QuoteModel>| !quotes_rest_encoded_at(s@, pos as int, qs) by {
                    if quotes_rest_encoded_at(s@, pos as int, qs) {
                        lemma_rest_layout(s@, pos as int, qs);
                        assert(false);
                    }
                }
            }
            None
        }
    } else {
        proof {
            assert forall|qs: Seq<QuoteModel>| !quotes_rest_encoded_at(s@, pos as int, qs) by {
                if quotes_rest_encoded_at(s@, pos as int, qs) {
                    lemma_rest_layout(s@, pos as int, qs);
                    assert(false);
                }
            }
        }
        None
    }
}

/// Whether two byte vectors hold the same bytes.
pub fn bytes_eq(a: &Vec<u8>, b: &Vec<u8>) -> (r: bool)
    ensures
        r == (a@ == b@),
{
    if a.len() != b.len() {
        proof {
            assert(a@.len() != b@.len());
        }
        return false;
    }
    let mut i: usize = 0;
    while i < a.len()
        invariant
            a@.len() == b@.len(),
            i <= a@.len(),
            forall|k: int| 0 <= k < i ==> a@[k] == #[trigger] b@[k],
        decreases a@.len() - i,
    {
        if a[i] != b[i] {
            return false;
        }
        i = i + 1;
    }
    proof {
        assert(a@ =~= b@);
    }
    true
}

// --- Tolerant fallback parsing --------------------------------------------
//
// The canonical reader above is exact. The functions below accept the same
// object with its fields in any order, with unknown scalar fields, or with
// whitespace between tokens; they promise only that what they return is
// well formed.

/// Position of the first non-whitespace byte at or after `pos`.
fn skip_ws(s: &Vec<u8>, pos: usize) -> (r: usize)
    requires
        pos <= s@.len(),
    ensures
        pos <= r <= s@.len(),
{
    let mut i: usize = pos;
    while i < s.len() && (s[i] == 32 || s[i] == 9 || s[i] == 10 || s[i] == 13)
        invariant
            pos <= i <= s@.len(),
        decreases s@.len() - i,
    {
        i = i + 1;
    }
    i
}

/// Reads a string body starting at `pos` (just after an opening quote), up
/// to and past the closing quote. Escapes are not accepted.
fn parse_string_any(s: &Vec<u8>, pos: usize) -> (r: Option<(Vec<u8>, usize)>)
    requires
        pos <= s@.len(),
    ensures
        match r {
            Some((_, p2)) => pos < p2 <= s@.len(),
            None => true,
        },
{
    let mut i: usize = pos;
    let mut body: Vec<u8> = Vec::new();
    while i < s.len() && s[i] != 34 && s[i] != 92 && s[i] >= 32
        invariant
            pos <= i <= s@.len(),
        decreases s@.len() - i,
    {
        body.push(s[i]);
        i = i + 1;
    }
    if i < s.len() && s[i] == 34 {
        Some((body, i + 1))
    } else {
        None
    }
}

fn name_symbol_vec() -> Vec<u8> {
    let mut v: Vec<u8> = Vec::new();
    v.push(115);
    v.push(121);
    v.push(109);
    v.push(98);
    v.push(111);
    v.push(108);
    v
}

fn name_open_vec() -> Vec<u8> {
    let mut v: Vec<u8> = Vec::new();
    v.push(111);
    v.push(112);
    v.push(101);
    v.push(110);
    v
}

fn name_close_vec() -> Vec<u8> {
    let mut v: Vec<u8> = Vec::new();
    v.push(99);
    v.push(108);
    v.push(111);
    v.push(115);
    v.push(101);
    v
}

fn name_volume_vec() -> Vec<u8> {
    let mut v: Vec<u8> = Vec::new();
    v.push(118);
    v.push(111);
    v.push(108);
    v.push(117);
    v.push(109);
    v.push(101);
    v
}

fn name_high_vec() -> Vec<u8> {
    let mut v: Vec<u8> = Vec::new();
    v.push(104);
    v.push(105);
    v.push(103);
    v.push(104);
    v
}

fn name_low_vec() -> Vec<u8> {
    let mut v: Vec<u8> = Vec::new();
    v.push(108);
    v.push(111);
    v.push(119);
    v
}

fn name_data_vec() -> Vec<u8> {
    let mut v: Vec<u8> = Vec::new();
    v.push(100);
    v.push(97);
    v.push(116);
    v.push(97);
    v
}

fn name_true_vec() -> (r: Vec<u8>)
    ensures
        r@.len() == 4,
{
    let mut v: Vec<u8> = Vec::new();
    v.push(116);
    v.push(114);
    v.push(117);
    v.push(101);
    v
}

fn name_false_vec() -> (r: Vec<u8>)
    ensures
        r@.len() == 5,
{
    let mut v: Vec<u8> = Vec::new();
    v.push(102);
    v.push(97);
    v.push(108);
    v.push(115);
    v.push(101);
    v
}

fn name_null_vec() -> (r: Vec<u8>)
    ensures
        r@.len() == 4,
{
    let mut v: Vec<u8> = Vec::new();
    v.push(110);
    v.push(117);
    v.push(108);
    v.push(108);
    v
}

/// Steps over one scalar value (string, number, `true`, `false`, `null`).
fn skip_scalar(s: &Vec<u8>, pos: usize) -> (r: Option<usize>)
    requires
        pos <= s@.len(),
    ensures
        match r {
            Some(p2) => pos < p2 <= s@.len(),
            None => true,
        },
{
    let n = s.len();
    if pos >= n {
        return None;
    }
    let b = s[pos];
    if b == 34 {
        match parse_string_any(s, pos + 1) {
            Some((_, p2)) => Some(p2),
            None => None,
        }
    } else if 48 <= b && b <= 57 {
        match parse_u64_at(s, pos) {
            Some((_, p2)) => Some(p2),
            None => None,
        }
    } else if b == 116 {
        let w = name_true_vec();
        if match_at(s, pos, &w) {
            Some(pos + w.len())
        } else {
            None
        }
    } else if b == 102 {
        let w = name_false_vec();
        if match_at(s, pos, &w) {
            Some(pos + w.len())
        } else {
            None
        }
    } else if b == 110 {
        let w = name_null_vec();
        if match_at(s, pos, &w) {
            Some(pos + w.len())
        } else {
            None
        }
    } else {
        None
    }
}

struct QuoteFields {
    symbol: Option<Vec<u8>>,
    open: Option<u64>,
    close: Option<u64>,
    volume: Option<u64>,
    high: Option<u64>,
    low: Option<u64>,
}

spec fn quote_fields_wf(f: QuoteFields) -> bool {
    match f.symbol {
        Some(v) => valid_symbol(v@),
        None => true,
    }
}

/// Reads the members of a quote object from `pos` (just after `{`) through
/// the closing `}`, in any order, skipping unknown scalar members.
fn parse_members_quote(s: &Vec<u8>, pos: usize, f: &mut QuoteFields) -> (r: Option<usize>)
    requires
        pos <= s@.len(),
        quote_fields_wf(*old(f)),
    ensures
        match r {
            Some(p2) => pos < p2 <= s@.len() && quote_fields_wf(*final(f)),
            None => true,
        },
    decreases s@.len() - pos,
{
    let i0 = skip_ws(s, pos);
    if !(i0 < s.len() && s[i0] == 34) {
        return None;
    }
    let kres = parse_string_any(s, i0 + 1);
    if kres.is_none() {
        return None;
    }
    let (key, kend) = kres.unwrap();
    let mut i = skip_ws(s, kend);
    if !(i < s.len() && s[i] == 58) {
        return None;
    }
    i = skip_ws(s, i + 1);
    if i >= s.len() {
        return None;
    }
    let b = s[i];
    if b == 34 {
        let vres = parse_string_any(s, i + 1);
        if vres.is_none() {
            return None;
        }
        let (val, vend) = vres.unwrap();
        let nsym = name_symbol_vec();
        if bytes_eq(&key, &nsym) {
            if !check_symbol(&val) {
                return None;
            }
            f.symbol = Some(val);
        }
        i = vend;
    } else if 48 <= b && b <= 57 {
        let vres = parse_u64_at(s, i);
        if vres.is_none() {
            return None;
        }
        let (nv, vend) = vres.unwrap();
        let n_open = name_open_vec();
        let n_close = name_close_vec();
        let n_volume = name_volume_vec();
        let n_high = name_high_vec();
        let n_low = name_low_vec();
        if bytes_eq(&key, &n_open) {
            f.open = Some(nv);
        } else if bytes_eq(&key, &n_close) {
            f.close = Some(nv);
        } else if bytes_eq(&key, &n_volume) {
            f.volume = Some(nv);
        } else if bytes_eq(&key, &n_high) {
            f.high = Some(nv);
        } else if bytes_eq(&key, &n_low) {
            f.low = Some(nv);
        }
        i = vend;
    } else {
        let skipped = skip_scalar(s, i);
        if skipped.is_none() {
            return None;
        }
        i = skipped.unwrap();
    }
    let j = skip_ws(s, i);
    if j < s.len() && s[j] == 44 {
        parse_members_quote(s, j + 1, f)
    } else if j < s.len() && s[j] == 125 {
        Some(j + 1)
    } else {
        None
    }
}

/// Reads one quote object starting at or after `pos`, tolerating reordered
/// fields, unknown scalar fields and whitespace.
fn decode_quote_any(s: &Vec<u8>, pos: usize) -> (r: Option<(Quote, usize)>)
    requires
        pos <= s@.len(),
    ensures
        match r {
            Some((q, p2)) => q@.wf() && pos < p2 <= s@.len(),
            None => true,
        },
{
    let i = skip_ws(s, pos);
    if !(i < s.len() && s[i] == 123) {
        return None;
    }
    let mut f = QuoteFields {
        symbol: None,
        open: None,
        close: None,
        volume: None,
        high: None,
        low: None,
    };
    let mres = parse_members_quote(s, i + 1, &mut f);
    if mres.is_none() {
        return None;
    }
    let p2 = mres.unwrap();
    let QuoteFields { symbol, open, close, volume, high, low } = f;
    match (symbol, open, close, volume, high, low) {
        (Some(sy), Some(o), Some(c), Some(v), Some(h), Some(l)) => Some(
            (
                Quote { symbol: sy, open: o, close: c, volume: v, high: h, low: l },
                p2,
            ),
        ),
        _ => None,
    }
}

/// Reads a `[...]` array of quote objects starting at or after `pos`.
fn parse_quote_array_any(s: &Vec<u8>, pos: usize) -> (r: Option<(Vec<Quote>, usize)>)
    requires
        pos <= s@.len(),
    ensures
        match r {
            Some((v, p2)) => pos < p2 <= s@.len() && forall|k: int|
                0 <= k < v@.len() ==> (#[trigger] v@[k])@.wf(),
            None => true,
        },
{
    let start = skip_ws(s, pos);
    if !(start < s.len() && s[start] == 91) {
        return None;
    }
    let mut i = skip_ws(s, start + 1);
    let mut out: Vec<Quote> = Vec::new();
    if i < s.len() && s[i] == 93 {
        return Some((out, i + 1));
    }
    loop
        invariant
            pos < i <= s@.len(),
            forall|k: int| 0 <= k < out@.len() ==> (#[trigger] out@[k])@.wf(),
        decreases s@.len() - i,
    {
        let qres = decode_quote_any(s, i);
        if qres.is_none() {
            return None;
        }
        let (q, p2) = qres.unwrap();
        out.push(q);
        let j = skip_ws(s, p2);
        if j < s.len() && s[j] == 44 {
            i = j + 1;
        } else if j < s.len() && s[j] == 93 {
            return Some((out, j + 1));
        } else {
            return None;
        }
    }
}

spec fn opt_quotes_wf(o: Option<Vec<Quote>>) -> bool {
    match o {
        Some(v) => forall|k: int| 0 <= k < v@.len() ==> (#[trigger] v@[k])@.wf(),
        None => true,
    }
}

/// Reads the members of a series object from `pos` (just after `{`)
/// through the closing `}`: the `data` array, plus unknown scalar members.
fn parse_members_series(s: &Vec<u8>, pos: usize, found: &mut Option<Vec<Quote>>) -> (r: Option<
    usize,
>)
    requires
        pos <= s@.len(),
        opt_quotes_wf(*old(found)),
    ensures
        match r {
            Some(p2) => pos < p2 <= s@.len() && opt_quotes_wf(*final(found)),
            None => true,
        },
    decreases s@.len() - pos,
{
    let i0 = skip_ws(s, pos);
    if !(i0 < s.len() && s[i0] == 34) {
        return None;
    }
    let kres = parse_string_any(s, i0 + 1);
    if kres.is_none() {
        return None;
    }
    let (key, kend) = kres.unwrap();
    let mut i = skip_ws(s, kend);
    if !(i < s.len() && s[i] == 58) {
        return None;
    }
    i = skip_ws(s, i + 1);
    let ndata = name_data_vec();
    if bytes_eq(&key, &ndata) {
        let ares = parse_quote_array_any(s, i);
        if ares.is_none() {
            return None;
        }
        let (arr, aend) = ares.unwrap();
        *found = Some(arr);
        i = aend;
    } else {
        let skipped = skip_scalar(s, i);
        if skipped.is_none() {
            return None;
        }
        i = skipped.unwrap();
    }
    let j = skip_ws(s, i);
    if j < s.len() && s[j] == 44 {
        parse_members_series(s, j + 1, found)
    } else if j < s.len() && s[j] == 125 {
        Some(j + 1)
    } else {
        None
    }
}

/// Reads one series object, tolerating reordered fields, unknown scalar
/// fields and whitespace.
fn decode_series_any(s: &Vec<u8>) -> (r: Option<DaySeries>)
    ensures
        match r {
            Some(d) => series_wf(d@),
            None => true,
        },
{
    let i = skip_ws(s, 0);
    if !(i < s.len() && s[i] == 123) {
        return None;
    }
    let mut found: Option<Vec<Quote>> = None;
    let mres = parse_members_series(s, i + 1, &mut found);
    if mres.is_none() {
        return None;
    }
    match found {
        Some(v) => {
            let d = DaySeries { data: v };
            proof {
                assert(forall|k: int| 0 <= k < d@.len() ==> #[trigger] d@[k] == d.data@[k]@);
            }
            Some(d)
        },
        None => None,
    }
}

// --- Public decoding entry points -----------------------------------------

/// Decodes one quote record. Whatever comes back is well formed, and the
/// canonical encoding of any well-formed record decodes to that record.
pub fn decode_quote(s: &Vec<u8>) -> (r: Option<Quote>)
    ensures
        (match r {
            Some(q) => q@.wf(),
            None => true,
        }),
        forall|qm: QuoteModel| #[trigger] quote_encoded(s@, qm) ==> (match r {
            Some(q) => q@ == qm,
            None => false,
        }),
{
    let n = s.len();
    let sres = decode_quote_at(s, 0);
    proof {
        assert forall|qm: QuoteModel|
            #![trigger quote_encoded(s@, qm)]
            quote_encoded(s@, qm) implies quote_encoded_at(s@, 0, qm) by {
            assert(s@.subrange(0, encode_quote_spec(qm).len() as int) =~= s@);
        }
    }
    match sres {
        Some((q, p2)) => {
            if p2 == n {
                return Some(q);
            }
        },
        None => {},
    }
    proof {
        assert forall|qm: QuoteModel| !quote_encoded(s@, qm) by {
            if quote_encoded(s@, qm) {
                assert(quote_encoded_at(s@, 0, qm));
                assert(false);
            }
        }
    }
    match decode_quote_any(s, 0) {
        Some((q, _)) => Some(q),
        None => None,
    }
}

/// Decodes one day-series record. Whatever comes back is a well-formed
/// series, and the canonical encoding of any well-formed series decodes to
/// that series.
#[verifier::rlimit(100)]
#[verifier::spinoff_prover]
pub fn decode_series(s: &Vec<u8>) -> (r: Option<DaySeries>)
    ensures
        (match r {
            Some(d) => series_wf(d@),
            None => true,
        }),
        forall|qs: Seq<QuoteModel>| #[trigger] series_encoded(s@, qs) ==> (match r {
            Some(d) => d@ == qs,
            None => false,
        }),
{
    let n = s.len();
    let head = lit_head_data_vec();
    if match_at(s, 0, &head) {
        if 9 < n && s[9] == 93 {
            if n == 11 && s[10] == 125 {
                let d = DaySeries { data: Vec::new() };
                proof {
                    assert forall|qs: Seq<QuoteModel>|
                        #![trigger series_encoded(s@, qs)]
                        series_encoded(s@, qs) implies d@ == qs by {
                        if qs.len() >= 1 {
                            assert(s@[9] == encode_quotes_list(qs)[0]) by {
                                assert(encode_quotes_list(qs).len() > 0);
                            }
                            assert(encode_quotes_list(qs)[0] == 123) by {
                                lemma_first_byte(qs);
                            }
                        } else {
                            assert(d@ =~= qs);
                        }
                    }
                }
                return Some(d);
            }
        } else {
            let mut acc: Vec<Quote> = Vec::new();
            let rres = parse_quotes_into(s, 9, &mut acc);
            proof {
                assert forall|qs: Seq<QuoteModel>| series_encoded(s@, qs) && qs.len() >= 1
                    implies quotes_rest_encoded_at(s@, 9, qs) by {
                    let w = encode_quotes_list(qs) + seq![93u8, 125u8];
                    assert(s@ =~= lit_head_data() + w);
                    assert(s@.subrange(0, s@.len() as int) =~= s@);
                    lemma_split_at(s@, 0, lit_head_data(), w);
                }
            }
            match rres {
                Some(p2) => {
                    if p2 == n {
                        let d = DaySeries { data: acc };
                        proof {
                            assert forall|qs: Seq<QuoteModel>|
                                #![trigger series_encoded(s@, qs)]
                                series_encoded(s@, qs) implies d@ == qs by {
                                lemma_series_shape(s@, qs);
                                if qs.len() == 0 {
                                    assert(s@.len() == 11);
                                    assert(s@[9] == 93);
                                } else {
                                    assert(quotes_view(acc@) == quotes_view(
                                        Seq::<Quote>::empty(),
                                    ) + qs);
                                    assert(quotes_view(Seq::<Quote>::empty()) + qs =~= qs);
                                }
                            }
                            assert(forall|k: int|
                                0 <= k < d@.len() ==> #[trigger] d@[k] == d.data@[k]@);
                        }
                        return Some(d);
                    }
                },
                None => {},
            }
        }
    }
    proof {
        assert forall|qs: Seq<QuoteModel>| !series_encoded(s@, qs) by {
            if series_encoded(s@, qs) {
                lemma_series_shape(s@, qs);
                assert(false);
            }
        }
    }
    decode_series_any(s)
}

/// The first byte of an encoded quote list is `{`.
proof fn lemma_first_byte(qs: Seq<QuoteModel>)
    requires
        qs.len() >= 1,
    ensures
        encode_quotes_list(qs).len() > 0,
        encode_quotes_list(qs)[0] == encode_quote_spec(qs[0])[0],
        encode_quote_spec(qs[0])[0] == 123,
{
    let e0 = encode_quote_spec(qs[0]);
    assert(e0.len() >= lit_head_sym().len());
    assert(e0[0] == 123) by {
        assert(e0 =~= lit_head_sym() + (qs[0].symbol + seq![34u8] + lit_open() + dec_digits(
            qs[0].open as nat,
        ) + lit_close() + dec_digits(qs[0].close as nat) + lit_volume() + dec_digits(
            qs[0].volume as nat,
        ) + lit_high() + dec_digits(qs[0].high as nat) + lit_low() + dec_digits(qs[0].low as nat)
            + seq![125u8]));
        assert(lit_head_sym()[0] == 123);
    }
    if qs.len() > 1 {
        assert(encode_quotes_list(qs)[0] == (e0 + seq![44u8])[0]);
    }
}

/// What must hold of `s` when it is a canonical series encoding: used to
/// rule the canonical path's failures out.
proof fn lemma_series_shape(s: Seq<u8>, qs: Seq<QuoteModel>)
    requires
        series_encoded(s, qs),
    ensures
        s.len() >= 11,
        s.subrange(0, 9) == lit_head_data(),
        qs.len() == 0 ==> s.len() == 11 && s[9] == 93 && s[10] == 125,
        qs.len() >= 1 ==> quotes_rest_encoded_at(s, 9, qs) && s[9] == 123 && s.len() == 11
            + encode_quotes_list(qs).len(),
{
    let w = encode_quotes_list(qs) + seq![93u8, 125u8];
    assert(s =~= lit_head_data() + w);
    assert(s.subrange(0, s.len() as int) =~= s);
    lemma_split_at(s, 0, lit_head_data(), w);
    if qs.len() == 0 {
        assert(encode_quotes_list(qs).len() == 0);
        assert(s[9] == w[0]);
        assert(s[10] == w[1]);
    } else {
        lemma_first_byte(qs);
        assert(s[9] == w[0]);
        assert(w[0] == encode_quotes_list(qs)[0]);
    }
}

} // verus!
