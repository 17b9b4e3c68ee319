//! Decimal rendering and parsing of unsigned integers, the number form
//! used by the record codec.

use vstd::prelude::*;

verus! {

pub open spec fn is_dec_digit(b: u8) -> bool {
    48 <= b && b <= 57
}

/// The decimal digit string of `n`, most significant digit first.
pub open spec fn dec_digits(n: nat) -> Seq<u8>
    decreases n,
{
    if n < 10 {
        seq![(48 + n) as u8]
    } else {
        dec_digits(n / 10).push((48 + n % 10) as u8)
    }
}

/// The value of a digit string, most significant digit first.
pub open spec fn digits_val(s: Seq<u8>) -> nat
    decreases s.len(),
{
    if s.len() == 0 {
        0
    } else {
        (digits_val(s.drop_last()) * 10 + (s.last() - 48)) as nat
    }
}

/// The first index at or after `pos` that does not hold a decimal digit.
pub open spec fn digit_run_end(s: Seq<u8>, pos: int) -> int
    decreases s.len() - pos when 0 <= pos <= s.len()
{
    if pos == s.len() || !is_dec_digit(s[pos]) {
        pos
    } else {
        digit_run_end(s, pos + 1)
    }
}

pub proof fn lemma_dec_digits_shape(n: nat)
    ensures
        dec_digits(n).len() >= 1,
        forall|i: int| 0 <= i < dec_digits(n).len() ==> is_dec_digit(#[trigger] dec_digits(n)[i]),
    decreases n,
{
    if n >= 10 {
        lemma_dec_digits_shape(n / 10);
        assert forall|i: int| 0 <= i < dec_digits(n).len() implies is_dec_digit(
            #[trigger] dec_digits(n)[i],
        ) by {
            if i < dec_digits(n / 10).len() {
                assert(dec_digits(n)[i] == dec_digits(n / 10)[i]);
            }
        }
    }
}

/// Rendering and then reading back a decimal string is the identity.
pub proof fn lemma_dec_digits_val(n: nat)
    ensures
        digits_val(dec_digits(n)) == n,
    decreases n,
{
    if n < 10 {
        assert(dec_digits(n).drop_last() =~= Seq::<u8>::empty());
        assert(digits_val(Seq::<u8>::empty()) == 0);
        assert(dec_digits(n).last() == (48 + n) as u8);
        assert(digits_val(dec_digits(n)) == (digits_val(dec_digits(n).drop_last()) * 10 + (
        dec_digits(n).last() - 48)) as nat);
    } else {
        lemma_dec_digits_val(n / 10);
        assert(dec_digits(n).drop_last() =~= dec_digits(n / 10));
        assert(dec_digits(n).last() == (48 + n % 10) as u8);
    }
}

/// The value of a digit-string prefix never exceeds the whole string's value.
pub proof fn lemma_digits_val_prefix_le(s: Seq<u8>, j: int)
    requires
        0 <= j <= s.len(),
        forall|i: int| 0 <= i < s.len() ==> is_dec_digit(#[trigger] s[i]),
    ensures
        digits_val(s.take(j)) <= digits_val(s),
    decreases s.len() - j,
{
    if j < s.len() {
        assert(s.take(j + 1).drop_last() =~= s.take(j));
        assert(s.take(j + 1).last() == s[j]);
        assert(digits_val(s.take(j)) <= digits_val(s.take(j + 1)));
        lemma_digits_val_prefix_le(s, j + 1);
        assert(s.take(s.len() as int) =~= s);
    } else {
        assert(s.take(j) =~= s);
    }
}

/// A run of digits bounded by a non-digit (or the end) is the whole digit run.
pub proof fn lemma_digit_run_extent(s: Seq<u8>, p: int, e: int)
    requires
        0 <= p <= e <= s.len(),
        forall|i: int| p <= i < e ==> is_dec_digit(#[trigger] s[i]),
        e == s.len() || !is_dec_digit(s[e]),
    ensures
        digit_run_end(s, p) == e,
    decreases e - p,
{
    if p < e {
        lemma_digit_run_extent(s, p + 1, e);
    }
}

/// Appends the decimal digit string of `n` to `v`.
pub fn push_u64(v: &mut Vec<u8>, n: u64)
    ensures
        final(v)@ == old(v)@ + dec_digits(n as nat),
    decreases n,
{
    if n < 10 {
        let d: u8 = 48 + (n as u8);
        v.push(d);
        proof {
            assert(v@ =~= old(v)@ + dec_digits(n as nat));
        }
    } else {
        push_u64(v, n / 10);
        let d: u8 = 48 + ((n % 10) as u8);
        v.push(d);
        proof {
            assert(v@ =~= old(v)@ + dec_digits(n as nat));
        }
    }
}

/// Reads the decimal digit run starting at `pos`. Returns the value and the
/// position after the run; fails when no digit stands at `pos` or the run's
/// value does not fit in a `u64`.
pub fn parse_u64_at(s: &Vec<u8>, pos: usize) -> (r: Option<(u64, usize)>)
    requires
        pos <= s@.len(),
    ensures
        match r {
            Some((n, p2)) => {
                &&& p2 == digit_run_end(s@, pos as int)
                &&& pos < p2 <= s@.len()
                &&& n == digits_val(s@.subrange(pos as int, p2 as int))
            },
            None => {
                let e = digit_run_end(s@, pos as int);
                e == pos || digits_val(s@.subrange(pos as int, e)) > u64::MAX
            },
        },
{
    proof {
        lemma_digit_run_props(s@, pos as int);
    }
    let ghost e: int = digit_run_end(s@, pos as int);
    let mut i: usize = pos;
    let mut acc: u64 = 0;
    while i < s.len() && 48 <= s[i] && s[i] <= 57
        invariant
            pos <= i <= s@.len(),
            i <= e <= s@.len(),
            e == digit_run_end(s@, pos as int),
            forall|k: int| pos <= k < e ==> is_dec_digit(#[trigger] s@[k]),
            e == s@.len() || !is_dec_digit(s@[e]),
            i < e ==> is_dec_digit(s@[i as int]),
            i == e || is_dec_digit(s@[i as int]),
            acc == digits_val(s@.subrange(pos as int, i as int)),
        decreases s@.len() - i,
    {
        proof {
            assert(i < e) by {
                if i >= e {
                    assert(i == e);
                    assert(e < s@.len() && is_dec_digit(s@[e as int]));
                }
            }
        }
        let d: u64 = (s[i] - 48) as u64;
        if acc > (u64::MAX - d) / 10 {
            proof {
                assert(s@.subrange(pos as int, i as int + 1).drop_last() =~= s@.subrange(
                    pos as int,
                    i as int,
                ));
                assert(s@.subrange(pos as int, i as int + 1).last() == s@[i as int]);
                assert(acc * 10 + d > u64::MAX) by (nonlinear_arith)
                    requires
                        acc > (u64::MAX - d) / 10,
                        d <= 9,
                {}
                assert(digits_val(s@.subrange(pos as int, i as int + 1)) > u64::MAX);
                let run = s@.subrange(pos as int, e);
                assert(run.take(i + 1 - pos) =~= s@.subrange(pos as int, i as int + 1));
                assert(forall|k: int| 0 <= k < run.len() ==> is_dec_digit(#[trigger] run[k]));
                lemma_digits_val_prefix_le(run, i + 1 - pos);
            }
            return None;
        }
        proof {
            assert(acc * 10 + d <= u64::MAX) by (nonlinear_arith)
                requires
                    acc <= (u64::MAX - d) / 10,
                    d <= 9,
            {}
            assert(s@.subrange(pos as int, i as int + 1).drop_last() =~= s@.subrange(
                pos as int,
                i as int,
            ));
            assert(s@.subrange(pos as int, i as int + 1).last() == s@[i as int]);
        }
        acc = acc * 10 + d;
        i = i + 1;
    }
    proof {
        assert(i == e);
    }
    if i == pos {
        None
    } else {
        Some((acc, i))
    }
}

/// Basic facts about the digit run starting at `pos`.
pub proof fn lemma_digit_run_props(s: Seq<u8>, pos: int)
    requires
        0 <= pos <= s.len(),
    ensures
        pos <= digit_run_end(s, pos) <= s.len(),
        forall|k: int| pos <= k < digit_run_end(s, pos) ==> is_dec_digit(#[trigger] s[k]),
        digit_run_end(s, pos) == s.len() || !is_dec_digit(s[digit_run_end(s, pos)]),
    decreases s.len() - pos,
{
    if pos < s.len() && is_dec_digit(s[pos]) {
        lemma_digit_run_props(s, pos + 1);
    }
}

} // verus!
