//! Calendar-date validation for the `YYYY-MM-DD` request parameter.

use vstd::prelude::*;

use crate::digits::is_dec_digit;

verus! {

/// Value of the two digits at `i` and `i + 1`.
pub open spec fn two_val(s: Seq<u8>, i: int) -> int {
    (s[i] - 48) * 10 + (s[i + 1] - 48)
}

/// Value of the four digits starting at `i`.
pub open spec fn four_val(s: Seq<u8>, i: int) -> int {
    (s[i] - 48) * 1000 + (s[i + 1] - 48) * 100 + (s[i + 2] - 48) * 10 + (s[i + 3] - 48)
}

pub open spec fn is_leap_year(y: int) -> bool {
    (y % 4 == 0 && y % 100 != 0) || y % 400 == 0
}

pub open spec fn days_in_month(y: int, m: int) -> int {
    if m == 2 {
        if is_leap_year(y) {
            29
        } else {
            28
        }
    } else if m == 4 || m == 6 || m == 9 || m == 11 {
        30
    } else {
        31
    }
}

/// A well-formed `YYYY-MM-DD` byte string naming a real calendar date.
pub open spec fn valid_date_bytes(d: Seq<u8>) -> bool {
    &&& d.len() == 10
    &&& forall|i: int|
        (0 <= i < 4 || 5 <= i < 7 || 8 <= i < 10) ==> is_dec_digit(#[trigger] d[i])
    &&& d[4] == 45
    &&& d[7] == 45
    &&& 1 <= two_val(d, 5) <= 12
    &&& 1 <= two_val(d, 8) <= days_in_month(four_val(d, 0), two_val(d, 5))
}

/// The fields of a parsed calendar date.
#[derive(Clone, Copy, Debug, PartialEq, Eq, Structural)]
pub struct DateParts {
    pub year: u64,
    pub month: u64,
    pub day: u64,
}

/// Parses and validates a `YYYY-MM-DD` byte string. Succeeds exactly on
/// well-formed strings naming a real calendar date (leap years included).
pub fn parse_date(d: &Vec<u8>) -> (r: Option<DateParts>)
    ensures
        r is Some <==> valid_date_bytes(d@),
        match r {
            Some(p) => p.year == four_val(d@, 0) && p.month == two_val(d@, 5) && p.day == two_val(
                d@,
                8,
            ),
            None => true,
        },
{
    if d.len() != 10 {
        return None;
    }
    let mut i: usize = 0;
    while i < 10
        invariant
            i <= 10,
            d@.len() == 10,
            forall|j: int|
                (0 <= j < i && j != 4 && j != 7) ==> is_dec_digit(#[trigger] d@[j]),
            forall|j: int| (0 <= j < i && (j == 4 || j == 7)) ==> d@[j] == 45,
        decreases 10 - i,
    {
        if i == 4 || i == 7 {
            if d[i] != 45 {
                return None;
            }
        } else {
            if !(48 <= d[i] && d[i] <= 57) {
                return None;
            }
        }
        i = i + 1;
    }
    let year: u64 = (d[0] - 48) as u64 * 1000 + (d[1] - 48) as u64 * 100 + (d[2] - 48) as u64 * 10
        + (d[3] - 48) as u64;
    let month: u64 = (d[5] - 48) as u64 * 10 + (d[6] - 48) as u64;
    let day: u64 = (d[8] - 48) as u64 * 10 + (d[9] - 48) as u64;
    if month < 1 || month > 12 {
        return None;
    }
    let leap: bool = (year % 4 == 0 && year % 100 != 0) || year % 400 == 0;
    let month_days: u64 = if month == 2 {
        if leap {
            29
        } else {
            28
        }
    } else if month == 4 || month == 6 || month == 9 || month == 11 {
        30
    } else {
        31
    };
    if day < 1 || day > month_days {
        return None;
    }
    Some(DateParts { year, month, day })
}

} // verus!
