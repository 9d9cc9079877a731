//! Timestamps of translation units. A `creationdate` value carries a
//! compact form `YYYYMMDDTHHMMSSZ`; its first 15 characters are read as a
//! proleptic-Gregorian UTC instant and turned into seconds since the epoch.
//! An absent or unparseable value counts as instant 0.

use vstd::prelude::*;

verus! {

pub open spec fn is_digit(b: u8) -> bool {
    48 <= b <= 57
}

pub open spec fn dval(b: u8) -> int {
    b - 48
}

/// The two-digit number at offset `i`.
pub open spec fn num2(s: Seq<u8>, i: int) -> int {
    dval(s[i]) * 10 + dval(s[i + 1])
}

/// The four-digit number at offset `i`.
pub open spec fn num4(s: Seq<u8>, i: int) -> int {
    dval(s[i]) * 1000 + dval(s[i + 1]) * 100 + dval(s[i + 2]) * 10 + dval(s[i + 3])
}

pub open spec fn is_leap(y: int) -> bool {
    (y % 4 == 0 && y % 100 != 0) || y % 400 == 0
}

pub open spec fn days_in_month(y: int, m: int) -> int {
    if m == 2 {
        if is_leap(y) {
            29
        } else {
            28
        }
    } else if m == 4 || m == 6 || m == 9 || m == 11 {
        30
    } else {
        31
    }
}

/// Whether the value parses: 15 characters, all digits but for a literal
/// `T` between date and time, with month, day, hour, minute and second in
/// range.
pub open spec fn ts_valid(s: Seq<u8>) -> bool {
    &&& s.len() >= 15
    &&& s[8] == 84
    &&& forall|i: int| 0 <= i < 15 && i != 8 ==> is_digit(#[trigger] s[i])
    &&& 1 <= num2(s, 4) <= 12
    &&& 1 <= num2(s, 6) <= days_in_month(num4(s, 0), num2(s, 4))
    &&& num2(s, 9) <= 23
    &&& num2(s, 11) <= 59
    &&& num2(s, 13) <= 59
}

/// Days from the epoch to the civil date, proleptic Gregorian. The year is
/// shifted by one 400-year era so that every intermediate value stays
/// non-negative for years 0 through 9999.
pub open spec fn days_from_civil(y: int, m: int, d: int) -> int {
    let z = if m <= 2 {
        y + 399
    } else {
        y + 400
    };
    let era = z / 400;
    let yoe = z - era * 400;
    let mp = if m > 2 {
        m - 3
    } else {
        m + 9
    };
    let doy = (153 * mp + 2) / 5 + d - 1;
    let doe = yoe * 365 + yoe / 4 - yoe / 100 + doy;
    era * 146097 + doe - 719468 - 146097
}

/// Seconds since the epoch of a valid 15-character value.
pub open spec fn epoch_of(s: Seq<u8>) -> int {
    days_from_civil(num4(s, 0), num2(s, 4), num2(s, 6)) * 86400 + num2(s, 9) * 3600 + num2(s, 11)
        * 60 + num2(s, 13)
}

/// The timestamp of a unit given its raw `creationdate` value: the parsed
/// instant, or 0 when the value is absent or does not parse.
pub open spec fn ts_of(v: Option<Seq<u8>>) -> int {
    match v {
        None => 0,
        Some(s) => if ts_valid(s) {
            epoch_of(s)
        } else {
            0
        },
    }
}

fn digit_at(s: &Vec<u8>, i: usize) -> (r: Option<u64>)
    requires
        i < s@.len(),
    ensures
        r is Some <==> is_digit(s@[i as int]),
        r is Some ==> r->Some_0 == dval(s@[i as int]),
{
    let b = s[i];
    if 48 <= b && b <= 57 {
        Some((b - 48) as u64)
    } else {
        None
    }
}

fn read_num2(s: &Vec<u8>, i: usize) -> (r: Option<u64>)
    requires
        i + 1 < s@.len(),
        s@.len() <= usize::MAX,
    ensures
        r is Some <==> is_digit(s@[i as int]) && is_digit(s@[i as int + 1]),
        r is Some ==> r->Some_0 == num2(s@, i as int),
{
    match (digit_at(s, i), digit_at(s, i + 1)) {
        (Some(a), Some(b)) => Some(a * 10 + b),
        _ => None,
    }
}

fn read_num4(s: &Vec<u8>, i: usize) -> (r: Option<u64>)
    requires
        i + 3 < s@.len(),
        s@.len() <= usize::MAX,
    ensures
        r is Some <==> is_digit(s@[i as int]) && is_digit(s@[i as int + 1]) && is_digit(
            s@[i as int + 2],
        ) && is_digit(s@[i as int + 3]),
        r is Some ==> r->Some_0 == num4(s@, i as int),
{
    match (digit_at(s, i), digit_at(s, i + 1), digit_at(s, i + 2), digit_at(s, i + 3)) {
        (Some(a), Some(b), Some(c), Some(d)) => Some(a * 1000 + b * 100 + c * 10 + d),
        _ => None,
    }
}

fn month_days(y: u64, m: u64) -> (r: u64)
    requires
        1 <= m <= 12,
    ensures
        r == days_in_month(y as int, m as int),
{
    if m == 2 {
        if (y % 4 == 0 && y % 100 != 0) || y % 400 == 0 {
            29
        } else {
            28
        }
    } else if m == 4 || m == 6 || m == 9 || m == 11 {
        30
    } else {
        31
    }
}

/// Parses a raw `creationdate` value; 0 when absent or unparseable.
pub fn parse_timestamp(v: &Option<Vec<u8>>) -> (r: i64)
    ensures
        r as int == ts_of(v.deep_view()),
{
    let s = match v {
        None => {
            return 0;
        },
        Some(s) => s,
    };
    proof {
        assert(v.deep_view() == Some(s@));
        assert(s.deep_view() =~= s@);
    }
    if s.len() < 15 {
        return 0;
    }
    if s[8] != 84 {
        return 0;
    }
    let y = match read_num4(s, 0) {
        Some(x) => x,
        None => {
            return 0;
        },
    };
    let mo = match read_num2(s, 4) {
        Some(x) => x,
        None => {
            return 0;
        },
    };
    let d = match read_num2(s, 6) {
        Some(x) => x,
        None => {
            return 0;
        },
    };
    let h = match read_num2(s, 9) {
        Some(x) => x,
        None => {
            return 0;
        },
    };
    let mi = match read_num2(s, 11) {
        Some(x) => x,
        None => {
            return 0;
        },
    };
    let sec = match read_num2(s, 13) {
        Some(x) => x,
        None => {
            return 0;
        },
    };
    if !(1 <= mo && mo <= 12) {
        return 0;
    }
    if !(1 <= d && d <= month_days(y, mo)) {
        return 0;
    }
    if !(h <= 23 && mi <= 59 && sec <= 59) {
        return 0;
    }
    proof {
        assert(ts_valid(s@));
    }
    // The era-shifted civil-to-days computation; every value is
    // non-negative, so machine division matches the mathematical one.
    let z: u64 = if mo <= 2 {
        y + 399
    } else {
        y + 400
    };
    let era: u64 = z / 400;
    let yoe: u64 = z - era * 400;
    let mp: u64 = if mo > 2 {
        mo - 3
    } else {
        mo + 9
    };
    let doy: u64 = (153 * mp + 2) / 5 + d - 1;
    let doe: u64 = yoe * 365 + yoe / 4 - yoe / 100 + doy;
    let shifted: u64 = era * 146097 + doe;
    proof {
        assert(z <= 10399);
        assert(z as int / 400 <= 26) by (nonlinear_arith)
            requires
                z <= 10399,
        ;
        assert(z as int - (z as int / 400) * 400 < 400) by (nonlinear_arith);
        assert(doy <= 365);
        assert(doe <= 399 * 365 + 99 + 365);
    }
    let days: i64 = (shifted as i64) - 865565;
    let secs: i64 = days * 86400 + (h as i64) * 3600 + (mi as i64) * 60 + (sec as i64);
    proof {
        assert(days as int == days_from_civil(y as int, mo as int, d as int));
        assert(secs as int == epoch_of(s@));
    }
    secs
}

} // verus!
