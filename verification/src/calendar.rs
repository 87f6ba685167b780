//! The proleptic Gregorian calendar, counted from 1970-01-01.

use vstd::arithmetic::div_mod::{
    lemma_fundamental_div_mod, lemma_fundamental_div_mod_converse, lemma_hoist_over_denominator,
    lemma_mod_mod, lemma_mod_multiples_vanish, lemma_mod_pos_bound,
};
use vstd::prelude::*;

verus! {

/// Whether `y` is a leap year in the proleptic Gregorian calendar.
pub open spec fn is_leap_year(y: nat) -> bool {
    (y % 4 == 0 && y % 100 != 0) || y % 400 == 0
}

/// The number of days in year `y`.
pub open spec fn days_in_year(y: nat) -> nat {
    if is_leap_year(y) {
        366
    } else {
        365
    }
}

/// The number of days in month `m` (1 to 12) of year `y`.
pub open spec fn days_in_month(y: nat, m: nat) -> nat {
    if m == 2 {
        if is_leap_year(y) {
            29
        } else {
            28
        }
    } else if m == 4 || m == 6 || m == 9 || m == 11 {
        30
    } else {
        31
    }
}

/// Counting `z` days forward from January 1 of year `y`: the year reached and the
/// day within it (0-based).
pub open spec fn year_and_day(z: nat, y: nat) -> (nat, nat)
    decreases z,
{
    if z < days_in_year(y) {
        (y, z)
    } else {
        year_and_day((z - days_in_year(y)) as nat, y + 1)
    }
}

/// Counting `doy` days forward from the first of month `m` of year `y`: the month
/// reached and the day of the month (1-based).
pub open spec fn month_and_day(doy: nat, y: nat, m: nat) -> (nat, nat)
    decreases 12 - m,
{
    if m >= 12 || doy < days_in_month(y, m) {
        (m, doy + 1)
    } else {
        month_and_day((doy - days_in_month(y, m)) as nat, y, m + 1)
    }
}

/// The calendar date (year, month, day) `z` days after 1970-01-01.
pub open spec fn civil_date(z: nat) -> (nat, nat, nat) {
    let (y, doy) = year_and_day(z, 1970);
    let (m, d) = month_and_day(doy, y, 1);
    (y, m, d)
}

/// Days before month `m` (1 to 12) in year `y`.
pub open spec fn days_before_month(y: nat, m: nat) -> nat {
    let base: nat = if m <= 1 {
        0
    } else if m == 2 {
        31
    } else if m == 3 {
        59
    } else if m == 4 {
        90
    } else if m == 5 {
        120
    } else if m == 6 {
        151
    } else if m == 7 {
        181
    } else if m == 8 {
        212
    } else if m == 9 {
        243
    } else if m == 10 {
        273
    } else if m == 11 {
        304
    } else {
        334
    };
    base + if m > 2 && is_leap_year(y) {
        1nat
    } else {
        0nat
    }
}

/// Leap days in years 1 through `x`.
pub open spec fn leaps_through(x: int) -> int {
    x / 4 - x / 100 + x / 400
}

/// Days from 1970-01-01 to January 1 of year `y`.
pub open spec fn days_to_year(y: int) -> int {
    365 * (y - 1970) + leaps_through(y - 1) - leaps_through(1969)
}

/// Days from 1970-01-01 to day `d` of month `m` of year `y`.
pub open spec fn days_from_civil(y: nat, m: nat, d: nat) -> int {
    days_to_year(y as int) + days_before_month(y, m) + d - 1
}

proof fn lemma_div_step(x: int, k: int)
    requires
        x >= 1,
        k >= 1,
    ensures
        x / k - (x - 1) / k == if x % k == 0 {
            1int
        } else {
            0int
        },
{
    lemma_fundamental_div_mod(x, k);
    lemma_mod_pos_bound(x, k);
    let q = x / k;
    let r = x % k;
    assert(x == q * k + r) by (nonlinear_arith)
        requires
            x == k * q + r,
    ;
    if r > 0 {
        lemma_fundamental_div_mod_converse(x - 1, k, q, r - 1);
    } else {
        assert(x - 1 == (q - 1) * k + (k - 1)) by (nonlinear_arith)
            requires
                x == q * k + r,
                r == 0,
        ;
        lemma_fundamental_div_mod_converse(x - 1, k, q - 1, k - 1);
    }
}

proof fn lemma_leaps_step(x: int)
    requires
        x >= 1,
    ensures
        leaps_through(x) - leaps_through(x - 1) == if is_leap_year(x as nat) {
            1int
        } else {
            0int
        },
{
    lemma_div_step(x, 4);
    lemma_div_step(x, 100);
    lemma_div_step(x, 400);
    lemma_mod_mod(x, 100, 4);
    lemma_mod_mod(x, 4, 25);
}

proof fn lemma_days_to_year_step(y: int)
    requires
        y >= 1,
    ensures
        days_to_year(y + 1) == days_to_year(y) + days_in_year(y as nat),
{
    lemma_leaps_step(y);
}

proof fn lemma_days_to_year_monotone(a: int, b: int)
    requires
        1 <= a <= b,
    ensures
        days_to_year(a) <= days_to_year(b),
        a < b ==> days_to_year(a) + days_in_year(a as nat) <= days_to_year(b),
    decreases b - a,
{
    if a < b {
        lemma_days_to_year_step(a);
        lemma_days_to_year_monotone(a + 1, b);
    }
}

proof fn lemma_year_and_day(z: nat, y0: nat, y: nat, doy: nat)
    requires
        1 <= y0 <= y,
        doy < days_in_year(y),
        z == days_to_year(y as int) - days_to_year(y0 as int) + doy,
    ensures
        year_and_day(z, y0) == (y, doy),
    decreases y - y0,
{
    if y0 < y {
        lemma_days_to_year_monotone(y0 as int, y as int);
        lemma_days_to_year_step(y0 as int);
        lemma_year_and_day((z - days_in_year(y0)) as nat, y0 + 1, y, doy);
    }
}

proof fn lemma_month_and_day(doy: nat, y: nat, m0: nat, m: nat, d: nat)
    requires
        1 <= m0 <= m <= 12,
        1 <= d <= days_in_month(y, m),
        doy == days_before_month(y, m) - days_before_month(y, m0) + d - 1,
    ensures
        month_and_day(doy, y, m0) == (m, d),
    decreases m - m0,
{
    if m0 < m {
        assert(days_before_month(y, m0 + 1) == days_before_month(y, m0) + days_in_month(y, m0));
        assert(days_before_month(y, m) >= days_before_month(y, m0 + 1)) by {
            if m0 + 1 < m {
                lemma_days_before_month_monotone(y, m0 + 1, m);
            }
        }
        lemma_month_and_day((doy - days_in_month(y, m0)) as nat, y, m0 + 1, m, d);
    }
}

proof fn lemma_days_before_month_monotone(y: nat, a: nat, b: nat)
    requires
        1 <= a <= b <= 12,
    ensures
        days_before_month(y, a) <= days_before_month(y, b),
{
}

/// A valid date `z` days after 1970-01-01 is what `civil_date` gives for `z`.
proof fn lemma_civil_date(z: nat, y: nat, m: nat, d: nat)
    requires
        y >= 1970,
        1 <= m <= 12,
        1 <= d <= days_in_month(y, m),
        z == days_to_year(y as int) + days_before_month(y, m) + d - 1,
    ensures
        civil_date(z) == (y, m, d),
{
    let doy = (days_before_month(y, m) + d - 1) as nat;
    assert(doy < days_in_year(y));
    assert(days_to_year(1970) == 0);
    lemma_year_and_day(z, 1970, y, doy);
    lemma_month_and_day(doy, y, 1, m, d);
}


/// Within a 400-year era that starts on March 1, day `doe` falls in year `yoe`
/// of the era, and days before that year are counted by `365 * yoe + yoe / 4 - yoe / 100`.
proof fn lemma_year_of_era(doe: u64, yoe: u64, y1: u64)
    by (bit_vector)
    requires
        doe < 146097,
        yoe == ((doe - doe / 1460 + doe / 36524 - doe / 146096) / 365) as u64,
        y1 == (yoe + 1) as u64,
    ensures
        yoe <= 399,
        365 * yoe + yoe / 4 - yoe / 100 <= doe,
        doe < 365 * y1 + y1 / 4 - y1 / 100 + y1 / 400,
{
}

/// In a year that starts on March 1, day `doy` falls in month `mp` (0 = March),
/// which starts on day `(153 * mp + 2) / 5`.
proof fn lemma_month_of_year(doy: u64, mp: u64, start: u64, next: u64)
    by (bit_vector)
    requires
        doy < 366,
        mp == ((5 * doy + 2) / 153) as u64,
        start == ((153 * mp + 2) / 5) as u64,
        next == ((153 * mp + 155) / 5) as u64,
    ensures
        mp <= 11,
        start <= doy,
        mp <= 10 ==> doy < next,
{
}

/// The day count `z` from 1970-01-01, taken apart by counting 400-year eras and
/// March-based years from 0000-03-01, gives the calendar date `civil_date(z)`.
#[verifier::spinoff_prover]
#[verifier::rlimit(40)]
pub proof fn lemma_days_to_civil(
    z: int,
    era: int,
    doe: int,
    yoe: int,
    doy: int,
    mp: int,
    d: int,
    m: int,
    y: int,
)
    requires
        z >= 0,
        era == (z + 719468) / 146097,
        doe == (z + 719468) - era * 146097,
        yoe == (doe - doe / 1460 + doe / 36524 - doe / 146096) / 365,
        doy == doe - (365 * yoe + yoe / 4 - yoe / 100),
        mp == (5 * doy + 2) / 153,
        d == doy - (153 * mp + 2) / 5 + 1,
        m == if mp < 10 {
            mp + 3
        } else {
            mp - 9
        },
        y == yoe + era * 400 + if m <= 2 {
            1int
        } else {
            0int
        },
    ensures
        y >= 1970,
        1 <= m <= 12,
        1 <= d <= days_in_month(y as nat, m as nat),
        civil_date(z as nat) == (y as nat, m as nat, d as nat),
        z == days_from_civil(y as nat, m as nat, d as nat),
{
    lemma_fundamental_div_mod(z + 719468, 146097);
    lemma_mod_pos_bound(z + 719468, 146097);
    assert(era >= 4);
    assert(0 <= doe < 146097);
    let y1 = yoe + 1;
    lemma_year_of_era(doe as u64, yoe as u64, y1 as u64);
    assert(0 <= yoe <= 399);
    // The leap day at the end of the era year: February of year `y1` of the era.
    let lf = (y1 / 4 - yoe / 4) - (y1 / 100 - yoe / 100) + y1 / 400;
    lemma_leaps_step(y1);
    assert(yoe / 400 == 0);
    assert(lf == if is_leap_year(y1 as nat) { 1int } else { 0int });
    assert(0 <= doy < 365 + lf);
    lemma_month_of_year(doy as u64, mp as u64, ((153 * mp + 2) / 5) as u64, ((153 * mp + 155) / 5) as u64);
    assert(0 <= mp <= 11);
    let base = era * 400;
    // leaps_through(400 * era + k) == 97 * era + k / 4 - k / 100 for k < 400
    lemma_hoist_over_denominator(yoe, era * 100, 4);
    lemma_hoist_over_denominator(yoe, era * 4, 100);
    lemma_hoist_over_denominator(yoe, era, 400);
    assert(leaps_through(base + yoe) == 97 * era + yoe / 4 - yoe / 100);
    // Leap years repeat every 400 years.
    lemma_mod_multiples_vanish(era * 100, y1, 4);
    lemma_mod_multiples_vanish(era * 4, y1, 100);
    lemma_mod_multiples_vanish(era, y1, 400);
    assert(is_leap_year((base + y1) as nat) == is_leap_year(y1 as nat));
    if mp <= 9 {
        assert(y == base + yoe);
        lemma_leaps_step(y);
        assert(days_to_year(y) == 365 * (y - 1970) + leaps_through(y) - (if is_leap_year(y as nat) {
            1int
        } else {
            0int
        }) - leaps_through(1969));
    } else {
        assert(y == base + y1);
    }
    // the month table against the March-based month starts
    if mp == 0 {
        assert((153 * mp + 2) / 5 == 0 && (153 * mp + 155) / 5 == 31);
    } else if mp == 1 {
        assert((153 * mp + 2) / 5 == 31 && (153 * mp + 155) / 5 == 61);
    } else if mp == 2 {
        assert((153 * mp + 2) / 5 == 61 && (153 * mp + 155) / 5 == 92);
    } else if mp == 3 {
        assert((153 * mp + 2) / 5 == 92 && (153 * mp + 155) / 5 == 122);
    } else if mp == 4 {
        assert((153 * mp + 2) / 5 == 122 && (153 * mp + 155) / 5 == 153);
    } else if mp == 5 {
        assert((153 * mp + 2) / 5 == 153 && (153 * mp + 155) / 5 == 184);
    } else if mp == 6 {
        assert((153 * mp + 2) / 5 == 184 && (153 * mp + 155) / 5 == 214);
    } else if mp == 7 {
        assert((153 * mp + 2) / 5 == 214 && (153 * mp + 155) / 5 == 245);
    } else if mp == 8 {
        assert((153 * mp + 2) / 5 == 245 && (153 * mp + 155) / 5 == 275);
    } else if mp == 9 {
        assert((153 * mp + 2) / 5 == 275 && (153 * mp + 155) / 5 == 306);
    } else if mp == 10 {
        assert((153 * mp + 2) / 5 == 306 && (153 * mp + 155) / 5 == 337);
    } else {
        assert((153 * mp + 2) / 5 == 337);
    }
    assert(1 <= d <= days_in_month(y as nat, m as nat));
    assert(z == days_to_year(y) + days_before_month(y as nat, m as nat) + d - 1);
    assert(y >= 1970) by {
        if y < 1970 {
            lemma_days_to_year_step(y);
            lemma_days_to_year_monotone(y + 1, 1970);
            assert(days_before_month(y as nat, m as nat) + d - 1 < days_in_year(y as nat));
        }
    }
    lemma_civil_date(z as nat, y as nat, m as nat, d as nat);
}

/// Every day count from 1970-01-01 names a valid calendar date that counts back
/// to the same day.
pub proof fn lemma_civil_date_valid(z: nat)
    ensures
        ({
            let (y, m, d) = civil_date(z);
            &&& y >= 1970
            &&& 1 <= m <= 12
            &&& 1 <= d <= days_in_month(y, m)
            &&& days_from_civil(y, m, d) == z
        }),
{
    let z = z as int;
    let era = (z + 719468) / 146097;
    let doe = (z + 719468) - era * 146097;
    let yoe = (doe - doe / 1460 + doe / 36524 - doe / 146096) / 365;
    let doy = doe - (365 * yoe + yoe / 4 - yoe / 100);
    let mp = (5 * doy + 2) / 153;
    let d = doy - (153 * mp + 2) / 5 + 1;
    let m = if mp < 10 {
        mp + 3
    } else {
        mp - 9
    };
    let y = yoe + era * 400 + if m <= 2 {
        1int
    } else {
        0int
    };
    lemma_days_to_civil(z, era, doe, yoe, doy, mp, d, m, y);
}

/// A time `secs` seconds after the epoch splits into a valid UTC calendar date and
/// a time of day, and the two count back to `secs`.
pub proof fn lemma_civil_time_round_trip(secs: nat)
    ensures
        ({
            let (y, m, d) = civil_date(secs / 86400);
            let tod = secs % 86400;
            let (h, mi, s) = (tod / 3600, (tod % 3600) / 60, tod % 60);
            &&& 1 <= m <= 12
            &&& 1 <= d <= days_in_month(y, m)
            &&& h < 24 && mi < 60 && s < 60
            &&& days_from_civil(y, m, d) * 86400 + h * 3600 + mi * 60 + s == secs
        }),
{
    lemma_civil_date_valid(secs / 86400);
    lemma_fundamental_div_mod(secs as int, 86400);
    let tod = secs % 86400;
    lemma_fundamental_div_mod(tod as int, 3600);
    lemma_fundamental_div_mod((tod % 3600) as int, 60);
}

} // verus!
