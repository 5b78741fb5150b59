//! Dates as the diary speaks them: seconds since the epoch to a civil
//! date and hour (proleptic Gregorian calendar), and "the 6th of July, in
//! the evening".

use vstd::prelude::*;
use crate::num::{dec_digits, fmt_u64};
use crate::text::{push_str, string_of};

verus! {

broadcast use vstd::string::group_string_axioms;

/// Year of era, day of year (from March 1st) and month index (March = 0)
/// of a day of a 400-year era.
pub open spec fn era_parts(doe: int) -> (int, int, int) {
    let yoe = (doe - doe / 1460 + doe / 36524 - doe / 146096) / 365;
    let doy = doe - (365 * yoe + yoe / 4 - yoe / 100);
    let mp = (5 * doy + 2) / 153;
    (yoe, doy, mp)
}

/// The civil date of day `z` since 1970-01-01: (year, month, day).
pub open spec fn date_of_day(z: int) -> (int, int, int) {
    let zz = z + 719468;
    let era = zz / 146097;
    let doe = zz % 146097;
    let (yoe, doy, mp) = era_parts(doe);
    let y = yoe + era * 400;
    let d = doy - (153 * mp + 2) / 5 + 1;
    let m = if mp < 10 {
        mp + 3
    } else {
        mp - 9
    };
    (if m <= 2 {
        y + 1
    } else {
        y
    }, m, d)
}

/// Seconds since the epoch to (year, month, day, hour), in UTC.
pub open spec fn civil_spec(secs: int) -> (int, int, int, int) {
    let (y, m, d) = date_of_day(secs / 86400);
    (y, m, d, (secs % 86400) / 3600)
}

pub proof fn lemma_era_parts(doe: int)
    requires
        0 <= doe < 146097,
    ensures
        0 <= era_parts(doe).0 <= 399,
        0 <= era_parts(doe).1 <= 365,
        0 <= era_parts(doe).2 <= 11,
        1 <= era_parts(doe).1 - (153 * era_parts(doe).2 + 2) / 5 + 1 <= 31,
{
}

/// Law: every day has a month in 1..=12 and a day in 1..=31, and every
/// second an hour in 0..=23.
pub proof fn lemma_civil_ranges(secs: int)
    ensures
        1 <= civil_spec(secs).1 <= 12,
        1 <= civil_spec(secs).2 <= 31,
        0 <= civil_spec(secs).3 <= 23,
{
    let z = secs / 86400 + 719468;
    lemma_era_parts(z % 146097);
}

/// `a / b` rounded down, for `b > 0`.
fn floor_div(a: i64, b: i64) -> (q: i64)
    requires
        b > 0,
    ensures
        q == a / b,
{
    if a >= 0 {
        let q = (a as u64 / b as u64) as i64;
        assert(q == a / b) by (nonlinear_arith)
            requires
                a >= 0,
                b > 0,
                q == a / b,
        ;
        q
    } else {
        let a1: i64 = -(a + 1);
        let q1: i64 = (a1 as u64 / b as u64) as i64;
        let r1: i64 = a1 - q1 * b;
        proof {
            assert(0 <= r1 < b) by (nonlinear_arith)
                requires
                    a1 >= 0,
                    b > 0,
                    q1 == a1 / b,
                    r1 == a1 - q1 * b,
            ;
            assert(q1 * b <= a1) by (nonlinear_arith)
                requires
                    r1 == a1 - q1 * b,
                    r1 >= 0,
            ;
            assert(a == (-q1 - 1) * b + (b - r1 - 1)) by (nonlinear_arith)
                requires
                    a1 == -(a + 1),
                    r1 == a1 - q1 * b,
            ;
            vstd::arithmetic::div_mod::lemma_fundamental_div_mod_converse(
                a as int,
                b as int,
                -q1 - 1,
                b - r1 - 1,
            );
        }
        -q1 - 1
    }
}

/// `a` modulo `b`, in `0..b`, for `b > 0`.
fn floor_rem(a: i64, b: i64) -> (r: i64)
    requires
        b > 0,
    ensures
        r == a % b,
{
    if a >= 0 {
        let r = (a as u64 % b as u64) as i64;
        r
    } else {
        let a1: i64 = -(a + 1);
        let q1: i64 = (a1 as u64 / b as u64) as i64;
        let r1: i64 = (a1 as u64 % b as u64) as i64;
        proof {
            assert(a1 == q1 * b + r1 && 0 <= r1 < b) by (nonlinear_arith)
                requires
                    a1 >= 0,
                    b > 0,
                    q1 == a1 / b,
                    r1 == a1 % b,
            ;
            assert(a == (-q1 - 1) * b + (b - r1 - 1)) by (nonlinear_arith)
                requires
                    a1 == -(a + 1),
                    a1 == q1 * b + r1,
            ;
            vstd::arithmetic::div_mod::lemma_fundamental_div_mod_converse(
                a as int,
                b as int,
                -q1 - 1,
                b - r1 - 1,
            );
        }
        b - r1 - 1
    }
}

/// Seconds since the epoch to (year, month, day, hour), in UTC
/// (days-to-civil after Howard Hinnant).
pub fn civil(secs: i64) -> (r: (i64, i64, i64, i64))
    ensures
        (r.0 as int, r.1 as int, r.2 as int, r.3 as int) == civil_spec(secs as int),
{
    let days = floor_div(secs, 86400);
    let sod = floor_rem(secs, 86400);
    let hour = sod / 3600;
    assert(days >= -106751991167301) by (nonlinear_arith)
        requires
            days == secs / 86400,
            secs >= i64::MIN,
    ;
    assert(days <= 106751991167300) by (nonlinear_arith)
        requires
            days == secs / 86400,
            secs <= i64::MAX,
    ;
    let z = days + 719468;
    let era = floor_div(z, 146097);
    proof {
        assert(era * 146097 <= z) by (nonlinear_arith)
            requires
                era == z / 146097,
        ;
        assert(z < era * 146097 + 146097) by (nonlinear_arith)
            requires
                era == z / 146097,
        ;
    }
    let doe = z - era * 146097;
    assert(doe == z % 146097) by (nonlinear_arith)
        requires
            era == z / 146097,
            doe == z - era * 146097,
    ;
    proof {
        lemma_era_parts(doe as int);
    }
    let yoe = (doe - doe / 1460 + doe / 36524 - doe / 146096) / 365;
    let y = yoe + era * 400;
    let doy = doe - (365 * yoe + yoe / 4 - yoe / 100);
    let mp = (5 * doy + 2) / 153;
    let d = doy - (153 * mp + 2) / 5 + 1;
    let m = if mp < 10 {
        mp + 3
    } else {
        mp - 9
    };
    (if m <= 2 {
        y + 1
    } else {
        y
    }, m, d, hour)
}

// ---------------------------------------------------------------------------
// Spoken dates.
// ---------------------------------------------------------------------------

pub open spec fn month_name(m: int) -> Seq<char> {
    if m == 1 {
        "January"@
    } else if m == 2 {
        "February"@
    } else if m == 3 {
        "March"@
    } else if m == 4 {
        "April"@
    } else if m == 5 {
        "May"@
    } else if m == 6 {
        "June"@
    } else if m == 7 {
        "July"@
    } else if m == 8 {
        "August"@
    } else if m == 9 {
        "September"@
    } else if m == 10 {
        "October"@
    } else if m == 11 {
        "November"@
    } else {
        "December"@
    }
}

/// The ordinal suffix of a day of the month.
pub open spec fn day_suffix(d: int) -> Seq<char> {
    if 11 <= d <= 13 {
        "th"@
    } else if d % 10 == 1 {
        "st"@
    } else if d % 10 == 2 {
        "nd"@
    } else if d % 10 == 3 {
        "rd"@
    } else {
        "th"@
    }
}

/// The time of day an hour falls in.
pub open spec fn time_of_day(h: int) -> Seq<char> {
    if 0 <= h <= 4 {
        "in the small hours"@
    } else if 5 <= h <= 11 {
        "in the morning"@
    } else if 12 <= h <= 17 {
        "in the afternoon"@
    } else if 18 <= h <= 21 {
        "in the evening"@
    } else {
        "late at night"@
    }
}

/// The local moment of memory `id` (Unix seconds) shifted by `offset` seconds.
pub open spec fn local_secs(id: u64, offset: i64) -> int {
    (id as i64) as int + offset as int
}

/// "the 6th of July, in the evening".
pub open spec fn spoken_date_spec(id: u64, offset: i64) -> Seq<char> {
    let (y, m, d, h) = civil_spec(local_secs(id, offset));
    "the "@ + dec_digits(d as nat) + day_suffix(d) + " of "@ + month_name(m) + ", "@
        + time_of_day(h)
}

fn month_name_exec(m: i64) -> (s: &'static str)
    ensures
        s@ == month_name(m as int),
{
    if m == 1 {
        "January"
    } else if m == 2 {
        "February"
    } else if m == 3 {
        "March"
    } else if m == 4 {
        "April"
    } else if m == 5 {
        "May"
    } else if m == 6 {
        "June"
    } else if m == 7 {
        "July"
    } else if m == 8 {
        "August"
    } else if m == 9 {
        "September"
    } else if m == 10 {
        "October"
    } else if m == 11 {
        "November"
    } else {
        "December"
    }
}

/// How the diary speaks of a moment: "the 6th of July, in the evening".
/// `offset` shifts the memory's Unix time into the writer's local time.
pub fn spoken_date(id: u64, offset: i64) -> (s: String)
    requires
        i64::MIN <= local_secs(id, offset) <= i64::MAX,
    ensures
        s@ == spoken_date_spec(id, offset),
{
    let t = id as i64 + offset;
    let (_y, mo, d, h) = civil(t);
    proof {
        lemma_civil_ranges(t as int);
    }
    let suffix = if 11 <= d && d <= 13 {
        "th"
    } else if d % 10 == 1 {
        "st"
    } else if d % 10 == 2 {
        "nd"
    } else if d % 10 == 3 {
        "rd"
    } else {
        "th"
    };
    let tod = if 0 <= h && h <= 4 {
        "in the small hours"
    } else if 5 <= h && h <= 11 {
        "in the morning"
    } else if 12 <= h && h <= 17 {
        "in the afternoon"
    } else if 18 <= h && h <= 21 {
        "in the evening"
    } else {
        "late at night"
    };
    let mut out: Vec<char> = Vec::new();
    push_str(&mut out, "the ");
    let digits = fmt_u64(d as u64);
    crate::text::extend_chars(&mut out, &digits);
    push_str(&mut out, suffix);
    push_str(&mut out, " of ");
    push_str(&mut out, month_name_exec(mo));
    push_str(&mut out, ", ");
    push_str(&mut out, tod);
    assert(out@ =~= spoken_date_spec(id, offset));
    string_of(&out)
}

/// The last written digit of a numeral is the number modulo ten.
proof fn lemma_last_digit(n: nat)
    ensures
        dec_digits(n).len() > 0,
        dec_digits(n).last() == crate::num::digit_char(n % 10),
{
    crate::num::lemma_dec_digits(n);
}

/// Law: the diary speaks a day with its English ordinal: "the ", the
/// numeral of the day of the month, then `st`, `nd` or `rd` when that
/// numeral ends in 1, 2 or 3 (but `th` for the 11th, 12th and 13th), and
/// `th` for every other day.
pub proof fn lemma_spoken_ordinal(id: u64, offset: i64)
    ensures
        ({
            let d = civil_spec(local_secs(id, offset)).2;
            let n = dec_digits(d as nat);
            let k = n.len() as int;
            let s = spoken_date_spec(id, offset);
            let suffix = s.subrange(4 + k, 6 + k);
            &&& s.len() >= 6 + k
            &&& s.subrange(0, 4 + k) == "the "@ + n
            &&& (d == 11 || d == 12 || d == 13) ==> suffix == "th"@
            &&& !(d == 11 || d == 12 || d == 13) && n.last() == '1' ==> suffix == "st"@
            &&& !(d == 11 || d == 12 || d == 13) && n.last() == '2' ==> suffix == "nd"@
            &&& !(d == 11 || d == 12 || d == 13) && n.last() == '3' ==> suffix == "rd"@
            &&& n.last() != '1' && n.last() != '2' && n.last() != '3' ==> suffix == "th"@
        }),
{
    lemma_civil_ranges(local_secs(id, offset));
    let (y, m, d, h) = civil_spec(local_secs(id, offset));
    let n = dec_digits(d as nat);
    lemma_last_digit(d as nat);
    reveal_strlit("the ");
    reveal_strlit("th");
    reveal_strlit("st");
    reveal_strlit("nd");
    reveal_strlit("rd");
    let suf = day_suffix(d);
    assert(suf.len() == 2);
    let s = spoken_date_spec(id, offset);
    let head = "the "@ + n;
    let rest = " of "@ + month_name(m) + ", "@ + time_of_day(h);
    assert(s =~= head + suf + rest);
    let k = n.len() as int;
    assert(s.subrange(0, 4 + k) =~= head);
    assert(s.subrange(4 + k, 6 + k) =~= suf);
    let r = (d % 10) as nat;
    assert(crate::num::digit_char(r) == n.last());
    assert(r == 1 <==> n.last() == '1');
    assert(r == 2 <==> n.last() == '2');
    assert(r == 3 <==> n.last() == '3');
}

} // verus!
