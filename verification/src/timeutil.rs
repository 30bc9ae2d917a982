//! Time stamps without dependencies: UTC in RFC 3339.

use vstd::arithmetic::div_mod::*;
use vstd::prelude::*;

use crate::text::{padded_decimal, push_padded_decimal, push_str};

verus! {

/// `y` is a leap year of the Gregorian calendar.
pub open spec fn is_leap(y: int) -> bool {
    y % 4 == 0 && (y % 100 != 0 || y % 400 == 0)
}

/// Days in month `m` of year `y`.
pub open spec fn month_length(y: int, m: int) -> int {
    if m == 2 {
        if is_leap(y) {
            29
        } else {
            28
        }
    } else if m == 4 || m == 6 || m == 9 || m == 11 {
        30
    } else {
        31
    }
}

/// `y-m-d` is a date of the proleptic Gregorian calendar.
pub open spec fn valid_date(y: int, m: int, d: int) -> bool {
    1 <= m <= 12 && 1 <= d <= month_length(y, m)
}

/// Days of the months of year `y` before month `m`.
pub open spec fn days_before_month(y: int, m: int) -> int
    decreases m,
{
    if m <= 1 {
        0
    } else {
        days_before_month(y, m - 1) + month_length(y, m - 1)
    }
}

/// Leap years among the years `1..=n`.
pub open spec fn leap_years_upto(n: int) -> int {
    n / 4 - n / 100 + n / 400
}

/// Days from 1970-01-01 to January 1 of year `y`: 365 per year and one more per leap year.
pub open spec fn days_before_year(y: int) -> int {
    365 * (y - 1970) + leap_years_upto(y - 1) - leap_years_upto(1969)
}

/// Days from 1970-01-01 to `y-m-d`.
pub open spec fn days_from_civil(y: int, m: int, d: int) -> int {
    days_before_year(y) + days_before_month(y, m) + d - 1
}

/// Within an era of 400 March-based years, the year that holds day `doe`, where it starts, and
/// that it lasts 366 days exactly when the February it ends with is a leap one.
proof fn lemma_year_of_era(doe: u32)
    requires
        doe < 146_097,
    ensures
        ({
            let yoe = (doe - doe / 1460 + doe / 36524 - doe / 146096) / 365;
            let start = 365 * yoe + yoe / 4 - yoe / 100;
            &&& yoe < 400
            &&& start <= doe
            &&& doe - start < 365 + if (yoe + 1) % 4 == 0 && ((yoe + 1) % 100 != 0 || (yoe + 1) % 400
                == 0) {
                1u32
            } else {
                0u32
            }
        }),
{
    assert({
        let yoe = (doe - doe / 1460 + doe / 36524 - doe / 146096) / 365;
        let start = 365 * yoe + yoe / 4 - yoe / 100;
        &&& yoe < 400
        &&& start <= doe
        &&& doe - start < 365 + if (yoe + 1) % 4 == 0 && ((yoe + 1) % 100 != 0 || (yoe + 1) % 400
            == 0) {
            1u32
        } else {
            0u32
        }
    }) by (bit_vector)
        requires
            doe < 146_097,
    ;
}

/// Within a March-based year, the month and the day of day `doy`.
proof fn lemma_month_of_year(doy: u32)
    requires
        doy < 366,
    ensures
        ({
            let mp = (5 * doy + 2) / 153;
            let d = doy - (153 * mp + 2) / 5 + 1;
            &&& mp < 12
            &&& 1 <= d
            &&& mp < 11 ==> d <= (153 * (mp + 1) + 2) / 5 - (153 * mp + 2) / 5
            &&& mp == 11 ==> d <= 29 && (d == 29 <==> doy == 365)
        }),
{
    assert({
        let mp = (5 * doy + 2) / 153;
        let d = doy - (153 * mp + 2) / 5 + 1;
        &&& mp < 12
        &&& 1 <= d
        &&& mp < 11 ==> d <= (153 * (mp + 1) + 2) / 5 - (153 * mp + 2) / 5
        &&& mp == 11 ==> d <= 29 && (d == 29 <==> doy == 365)
    }) by (bit_vector)
        requires
            doy < 366,
    ;
}

/// Leap years up to `y` are those up to `y − 1` and `y` itself when it is leap.
proof fn lemma_leap_step(y: int)
    ensures
        leap_years_upto(y) == leap_years_upto(y - 1) + if is_leap(y) {
            1int
        } else {
            0int
        },
{
    lemma_fundamental_div_mod(y, 4);
    lemma_fundamental_div_mod(y - 1, 4);
    lemma_fundamental_div_mod(y, 100);
    lemma_fundamental_div_mod(y - 1, 100);
    lemma_fundamental_div_mod(y, 400);
    lemma_fundamental_div_mod(y - 1, 400);
}

/// Days from 0000-03-01 to the first of March of the March-based year `y`.
spec fn march_start(y: int) -> int {
    365 * y + leap_years_upto(y)
}

/// The first day of March-based year `yoe` of era `era`, from 0000-03-01.
proof fn lemma_era_start(era: int, yoe: int)
    requires
        era >= 0,
        0 <= yoe < 400,
    ensures
        march_start(400 * era + yoe) == 146_097 * era + 365 * yoe + yoe / 4 - yoe / 100,
{
    let y = 400 * era + yoe;
    lemma_fundamental_div_mod(yoe, 4);
    lemma_fundamental_div_mod(yoe, 100);
    lemma_fundamental_div_mod_converse(y, 4, 100 * era + yoe / 4, yoe % 4);
    lemma_fundamental_div_mod_converse(y, 100, 4 * era + yoe / 100, yoe % 100);
    lemma_fundamental_div_mod_converse(y, 400, era, yoe);
}

/// A March-based date, given by its year and the day within that year, as a calendar date.
proof fn lemma_march_date(ym: int, doy: int, mp: int, d: int)
    requires
        ym >= 0,
        0 <= mp < 12,
        doy == (153 * mp + 2) / 5 + d - 1,
    ensures
        ({
            let m = if mp < 10 {
                mp + 3
            } else {
                mp - 9
            };
            let y = if m <= 2 {
                ym + 1
            } else {
                ym
            };
            days_from_civil(y, m, d) == march_start(ym) + doy - 719_468
        }),
{
    lemma_leap_step(ym);
    lemma_leap_step(ym + 1);
    reveal_with_fuel(days_before_month, 12);
    assert(leap_years_upto(1969) == 477);
    if mp == 0 {
    } else if mp == 1 {
    } else if mp == 2 {
    } else if mp == 3 {
    } else if mp == 4 {
    } else if mp == 5 {
    } else if mp == 6 {
    } else if mp == 7 {
    } else if mp == 8 {
    } else if mp == 9 {
    } else if mp == 10 {
    } else {
    }
}

/// The day of an era falls in year `yoe` of the era, on day `doy` of that year.
proof fn lemma_day_of_era(doe: int, yoe: int, doy: int)
    requires
        0 <= doe < 146_097,
        yoe == (doe - doe / 1460 + doe / 36524 - doe / 146096) / 365,
        doy == doe - (365 * yoe + yoe / 4 - yoe / 100),
    ensures
        0 <= yoe < 400,
        0 <= doy < 365 + if (yoe + 1) % 4 == 0 && ((yoe + 1) % 100 != 0 || (yoe + 1) % 400 == 0) {
            1int
        } else {
            0int
        },
{
    let e = doe as u32;
    lemma_year_of_era(e);
    assert(e / 1460 == doe / 1460 && e / 36524 == doe / 36524 && e / 146096 == doe / 146096);
    let ye = (e - e / 1460 + e / 36524 - e / 146096) / 365;
    assert(ye == yoe);
    assert(ye / 4 == yoe / 4 && ye / 100 == yoe / 100);
}

/// The day of a March-based year falls in month `mp` (counted from March) on day `d`.
proof fn lemma_day_of_year(doy: int, mp: int, d: int)
    requires
        0 <= doy < 366,
        mp == (5 * doy + 2) / 153,
        d == doy - (153 * mp + 2) / 5 + 1,
    ensures
        0 <= mp < 12,
        1 <= d <= 31,
        mp < 11 ==> d <= (153 * (mp + 1) + 2) / 5 - (153 * mp + 2) / 5,
        mp == 11 ==> d <= 29 && (d == 29 <==> doy == 365),
{
    let e = doy as u32;
    lemma_month_of_year(e);
    assert((5 * e + 2) / 153 == mp);
    let me = (5 * e + 2) / 153;
    assert((153 * me + 2) / 5 == (153 * mp + 2) / 5);
    assert((153 * (me + 1) + 2) / 5 == (153 * (mp + 1) + 2) / 5);
}

/// The date that the era, the year of the era and the day of the year stand for.
proof fn lemma_civil_date(days: int, era: int, doe: int, yoe: int, doy: int, mp: int, d: int)
    requires
        days >= 0,
        era >= 0,
        days + 719_468 == 146_097 * era + doe,
        0 <= doe < 146_097,
        yoe == (doe - doe / 1460 + doe / 36524 - doe / 146096) / 365,
        doy == doe - (365 * yoe + yoe / 4 - yoe / 100),
        mp == (5 * doy + 2) / 153,
        d == doy - (153 * mp + 2) / 5 + 1,
    ensures
        ({
            let m = if mp < 10 {
                mp + 3
            } else {
                mp - 9
            };
            let y = if m <= 2 {
                400 * era + yoe + 1
            } else {
                400 * era + yoe
            };
            &&& y >= 0
            &&& valid_date(y, m, d)
            &&& days_from_civil(y, m, d) == days
        }),
{
    lemma_day_of_era(doe, yoe, doy);
    lemma_day_of_year(doy, mp, d);
    lemma_era_start(era, yoe);
    let ym = 400 * era + yoe;
    lemma_march_date(ym, doy, mp, d);
    if mp == 11 && d == 29 {
        let k = yoe + 1;
        lemma_mod_multiples_vanish(100 * era, k, 4);
        lemma_mod_multiples_vanish(4 * era, k, 100);
        lemma_mod_multiples_vanish(era, k, 400);
        assert(4 * (100 * era) + k == ym + 1);
        assert(100 * (4 * era) + k == ym + 1);
        assert(400 * era + k == ym + 1);
        assert(is_leap(ym + 1));
    }
}

/// Year, month and day of the date `days` days after 1970-01-01 (Howard Hinnant's civil-days
/// algorithm, valid for every date of the proleptic Gregorian calendar).
fn civil_from_days(days_since_epoch: i64) -> (r: (i64, u32, u32))
    requires
        0 <= days_since_epoch <= 0x0100_0000_0000_0000,
    ensures
        r.0 >= 0,
        valid_date(r.0 as int, r.1 as int, r.2 as int),
        days_from_civil(r.0 as int, r.1 as int, r.2 as int) == days_since_epoch,
{
    let z = days_since_epoch + 719_468;
    let era = z / 146_097;
    let doe = z % 146_097;
    proof {
        lemma_fundamental_div_mod(z as int, 146_097);
    }
    let yoe = (doe - doe / 1_460 + doe / 36_524 - doe / 146_096) / 365;
    proof {
        lemma_day_of_era(doe as int, yoe as int, doe - (365 * yoe + yoe / 4 - yoe / 100));
    }
    let y = yoe + era * 400;
    let doy = doe - (365 * yoe + yoe / 4 - yoe / 100);
    let mp = (5 * doy + 2) / 153;
    proof {
        lemma_day_of_year(doy as int, mp as int, doy - (153 * mp + 2) / 5 + 1);
    }
    let d = (doy - (153 * mp + 2) / 5 + 1) as u32;
    let m = (if mp < 10 {
        mp + 3
    } else {
        mp - 9
    }) as u32;
    let year = if m <= 2 {
        y + 1
    } else {
        y
    };
    proof {
        lemma_civil_date(
            days_since_epoch as int,
            era as int,
            doe as int,
            yoe as int,
            doy as int,
            mp as int,
            d as int,
        );
    }
    (year, m, d)
}

/// Converts seconds since the Unix epoch to RFC 3339 in UTC (`2026-09-24T18:03:11Z`).
pub fn utc_rfc3339_from_unix(unix_seconds: u64) -> (r: String)
    ensures
        exists|y: int, m: int, d: int|
            #![trigger days_from_civil(y, m, d)]
            valid_date(y, m, d) && days_from_civil(y, m, d) == unix_seconds / 86_400 && y >= 0
                && r@ == padded_decimal(y as nat, 4) + "-"@ + padded_decimal(m as nat, 2) + "-"@
                + padded_decimal(d as nat, 2) + "T"@ + padded_decimal(
                (unix_seconds % 86_400 / 3_600) as nat,
                2,
            ) + ":"@ + padded_decimal((unix_seconds % 3_600 / 60) as nat, 2) + ":"@
                + padded_decimal((unix_seconds % 60) as nat, 2) + "Z"@,
{
    let days = unix_seconds / 86_400;
    let secs_of_day = unix_seconds % 86_400;
    let (year, month, day) = civil_from_days(days as i64);
    let hour = secs_of_day / 3_600;
    let minute = (secs_of_day % 3_600) / 60;
    let second = secs_of_day % 60;
    proof {
        lemma_fundamental_div_mod(unix_seconds as int, 86_400);
        lemma_fundamental_div_mod(unix_seconds as int, 3_600);
        lemma_mod_mod(unix_seconds as int, 3_600, 24);
        lemma_mod_mod(unix_seconds as int, 60, 1_440);
    }
    let mut t = String::new();
    push_padded_decimal(&mut t, year as u64, 4);
    push_str(&mut t, "-");
    push_padded_decimal(&mut t, month as u64, 2);
    push_str(&mut t, "-");
    push_padded_decimal(&mut t, day as u64, 2);
    push_str(&mut t, "T");
    push_padded_decimal(&mut t, hour, 2);
    push_str(&mut t, ":");
    push_padded_decimal(&mut t, minute, 2);
    push_str(&mut t, ":");
    push_padded_decimal(&mut t, second, 2);
    push_str(&mut t, "Z");
    proof {
        assert(days_from_civil(year as int, month as int, day as int) == unix_seconds / 86_400);
    }
    t
}

} // verus!
