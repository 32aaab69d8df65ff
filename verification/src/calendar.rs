//! The proleptic Gregorian calendar.
use crate::number::floor_div;
use vstd::arithmetic::div_mod::*;
use vstd::prelude::*;

verus! {

/// A leap year.
pub open spec fn leap(y: int) -> bool {
    y % 4 == 0 && (y % 100 != 0 || y % 400 == 0)
}

/// The days of month `m` of year `y`.
pub open spec fn month_days(y: int, m: int) -> int {
    if m == 2 {
        if leap(y) {
            29
        } else {
            28
        }
    } else if m == 4 || m == 6 || m == 9 || m == 11 {
        30
    } else {
        31
    }
}

/// The days of year `y` before its month `m`.
pub open spec fn days_before_month(y: int, m: int) -> int
    decreases m,
{
    if m <= 1 {
        0
    } else {
        days_before_month(y, m - 1) + month_days(y, m - 1)
    }
}

/// The days before year `y`, counted from the first of January of year 0.
pub open spec fn days_before_year(y: int) -> int {
    365 * y + (y + 3) / 4 - (y + 99) / 100 + (y + 399) / 400
}

/// A date that is in the calendar.
pub open spec fn is_date(y: int, m: int, d: int) -> bool {
    1 <= m <= 12 && 1 <= d <= month_days(y, m)
}

/// The days from the first of January 1970 to a date.
pub open spec fn epoch_day(y: int, m: int, d: int) -> int {
    days_before_year(y) + days_before_month(y, m) + d - 1 - 719_528
}

/// The date that lies `days` days after the first of January 1970.
pub open spec fn date_of(days: int) -> (int, int, int) {
    choose|p: (int, int, int)|
        is_date(p.0, p.1, p.2) && #[trigger] epoch_day(p.0, p.1, p.2) == days
}

proof fn lemma_months(y: int)
    ensures
        ({
            let k = if leap(y) {
                1int
            } else {
                0
            };
            &&& days_before_month(y, 1) == 0
            &&& days_before_month(y, 2) == 31
            &&& days_before_month(y, 3) == 59 + k
            &&& days_before_month(y, 4) == 90 + k
            &&& days_before_month(y, 5) == 120 + k
            &&& days_before_month(y, 6) == 151 + k
            &&& days_before_month(y, 7) == 181 + k
            &&& days_before_month(y, 8) == 212 + k
            &&& days_before_month(y, 9) == 243 + k
            &&& days_before_month(y, 10) == 273 + k
            &&& days_before_month(y, 11) == 304 + k
            &&& days_before_month(y, 12) == 334 + k
        }),
{
    reveal_with_fuel(days_before_month, 13);
}

proof fn lemma_year(y: int)
    ensures
        days_before_year(y + 1) == days_before_year(y) + 365 + (if leap(y) {
            1int
        } else {
            0
        }),
{
    assert((y + 4) / 4 == (y + 3) / 4 + if y % 4 == 0 {
        1int
    } else {
        0
    });
    assert((y + 100) / 100 == (y + 99) / 100 + if y % 100 == 0 {
        1int
    } else {
        0
    });
    assert((y + 400) / 400 == (y + 399) / 400 + if y % 400 == 0 {
        1int
    } else {
        0
    });
    assert(y % 100 == 0 ==> y % 4 == 0);
    assert(y % 400 == 0 ==> y % 100 == 0);
}

proof fn lemma_years(a: int, b: int)
    requires
        a < b,
    ensures
        days_before_year(a) + 365 + (if leap(a) {
            1int
        } else {
            0
        }) <= days_before_year(b),
    decreases b - a,
{
    lemma_year(b - 1);
    if a + 1 < b {
        lemma_years(a, b - 1);
    }
}

/// Two dates of the calendar are never the same day.
pub proof fn days_are_told_apart(y: int, m: int, d: int, y1: int, m1: int, d1: int)
    requires
        is_date(y, m, d),
        is_date(y1, m1, d1),
        epoch_day(y, m, d) == epoch_day(y1, m1, d1),
    ensures
        (y, m, d) == (y1, m1, d1),
{
    lemma_months(y);
    lemma_months(y1);
    if y < y1 {
        lemma_years(y, y1);
    } else if y1 < y {
        lemma_years(y1, y);
    }
}

/// One date lies before another.
pub open spec fn earlier(p: (int, int, int), q: (int, int, int)) -> bool {
    p.0 < q.0 || (p.0 == q.0 && (p.1 < q.1 || (p.1 == q.1 && p.2 < q.2)))
}

proof fn lemma_earlier(p: (int, int, int), q: (int, int, int))
    requires
        is_date(p.0, p.1, p.2),
        is_date(q.0, q.1, q.2),
        earlier(p, q),
    ensures
        epoch_day(p.0, p.1, p.2) < epoch_day(q.0, q.1, q.2),
{
    lemma_months(p.0);
    lemma_months(q.0);
    if p.0 < q.0 {
        lemma_years(p.0, q.0);
    }
}

/// Later days have later dates.
pub proof fn dates_follow_days(a: int, b: int)
    requires
        a < b,
    ensures
        earlier(date_of(a), date_of(b)),
{
    let p = date_of(a);
    let q = date_of(b);
    day_has_its_date(a);
    day_has_its_date(b);
    if earlier(q, p) {
        lemma_earlier(q, p);
    }
}

/// The days of the years from 0 to 9999.
pub proof fn years_of_four_digits(days: int)
    requires
        -719_528 <= days <= 2_932_896,
    ensures
        0 <= date_of(days).0 <= 9999,
{
    let p = date_of(days);
    day_has_its_date(days);
    if p.0 < 0 {
        lemma_earlier(p, (0, 1, 1));
        lemma_months(0);
    } else if p.0 > 9999 {
        lemma_months(10_000);
        if p != (10_000int, 1int, 1int) {
            lemma_earlier((10_000, 1, 1), p);
        }
    }
}

proof fn lemma_date_of(y: int, m: int, d: int)
    requires
        is_date(y, m, d),
    ensures
        date_of(epoch_day(y, m, d)) == (y, m, d),
{
    let p = (y, m, d);
    assert(is_date(p.0, p.1, p.2) && epoch_day(p.0, p.1, p.2) == epoch_day(y, m, d));
    let q = date_of(epoch_day(y, m, d));
    days_are_told_apart(y, m, d, q.0, q.1, q.2);
}

/// The year of a 400-year era, counted from March.
proof fn lemma_year_of_era(doe: int, yoe: int)
    requires
        0 <= doe < 146_097,
        yoe == (doe - doe / 1_460 + doe / 36_524 - doe / 146_096) / 365,
    ensures
        0 <= yoe < 400,
        ({
            let doy = doe - (365 * yoe + yoe / 4 - yoe / 100);
            0 <= doy <= 365 && (doy == 365 ==> (yoe + 1) % 4 == 0 && ((yoe + 1) % 100 != 0 || yoe
                == 399))
        }),
{
}

/// The month and the day of a year that is counted from March.
proof fn lemma_month_of_year(doy: int)
    requires
        0 <= doy <= 365,
    ensures
        ({
            let mp = (5 * doy + 2) / 153;
            let d = doy - (153 * mp + 2) / 5 + 1;
            &&& 0 <= mp <= 11
            &&& 1 <= d <= 31
            &&& mp == 1 || mp == 3 || mp == 6 || mp == 8 ==> d <= 30
            &&& mp == 11 ==> d <= 29 && (d == 29 ==> doy == 365)
        }),
{
}

/// A leap day lies at the end of a year that is counted from March.
proof fn lemma_march(y: int)
    ensures
        days_before_year(y) + 59 + (if leap(y) {
            1int
        } else {
            0
        }) == 365 * y + y / 4 - y / 100 + y / 400 + 60,
{
    assert((y + 3) / 4 == y / 4 + if y % 4 == 0 {
        0int
    } else {
        1
    });
    assert((y + 99) / 100 == y / 100 + if y % 100 == 0 {
        0int
    } else {
        1
    });
    assert((y + 399) / 400 == y / 400 + if y % 400 == 0 {
        0int
    } else {
        1
    });
    assert(y % 100 == 0 ==> y % 4 == 0);
    assert(y % 400 == 0 ==> y % 100 == 0);
}

/// The days of the eras before one, and of the years before one in it.
#[verifier::spinoff_prover]
proof fn lemma_era(era: int, yoe: int)
    requires
        0 <= yoe < 400,
    ensures
        ({
            let y = yoe + era * 400;
            &&& 365 * y + y / 4 - y / 100 + y / 400 == 146_097 * era + 365 * yoe + yoe / 4 - yoe
                / 100
            &&& leap(y + 1) == ((yoe + 1) % 4 == 0 && ((yoe + 1) % 100 != 0 || yoe == 399))
        }),
{
    let y = yoe + era * 400;
    lemma_hoist_over_denominator(yoe, 100 * era, 4);
    lemma_hoist_over_denominator(yoe, 4 * era, 100);
    lemma_hoist_over_denominator(yoe, era, 400);
    lemma_mod_multiples_vanish(100 * era, yoe + 1, 4);
    lemma_mod_multiples_vanish(4 * era, yoe + 1, 100);
    lemma_mod_multiples_vanish(era, yoe + 1, 400);
    assert(y / 4 == yoe / 4 + 100 * era);
    assert(y / 100 == yoe / 100 + 4 * era);
    assert(y / 400 == era);
    assert((y + 1) % 4 == (yoe + 1) % 4);
    assert((y + 1) % 100 == (yoe + 1) % 100);
    assert((y + 1) % 400 == (yoe + 1) % 400);
}

/// The date of day `doe` of an era.
#[verifier::spinoff_prover]
proof fn lemma_civil(days: int, era: int, doe: int)
    requires
        days + 719_468 == era * 146_097 + doe,
        0 <= doe < 146_097,
    ensures
        ({
            let yoe = (doe - doe / 1_460 + doe / 36_524 - doe / 146_096) / 365;
            let doy = doe - (365 * yoe + yoe / 4 - yoe / 100);
            let mp = (5 * doy + 2) / 153;
            let d = doy - (153 * mp + 2) / 5 + 1;
            let m = if mp < 10 {
                mp + 3
            } else {
                mp - 9
            };
            let y = yoe + era * 400 + if m <= 2 {
                1int
            } else {
                0
            };
            &&& 0 <= yoe < 400
            &&& 0 <= doy <= 365
            &&& is_date(y, m, d)
            &&& epoch_day(y, m, d) == days
            &&& date_of(days) == (y, m, d)
        }),
{
    let yoe = (doe - doe / 1_460 + doe / 36_524 - doe / 146_096) / 365;
    lemma_year_of_era(doe, yoe);
    let doy = doe - (365 * yoe + yoe / 4 - yoe / 100);
    lemma_month_of_year(doy);
    let mp = (5 * doy + 2) / 153;
    let d = doy - (153 * mp + 2) / 5 + 1;
    let m = if mp < 10 {
        mp + 3
    } else {
        mp - 9
    };
    let march = yoe + era * 400;
    let y = march + if m <= 2 {
        1int
    } else {
        0
    };
    lemma_era(era, yoe);
    lemma_march(march);
    lemma_year(march);
    lemma_months(y);
    lemma_date_of(y, m, d);
}

/// The date `days` days after the first of January 1970.
pub fn civil_date(days: i64) -> (r: (i64, i64, i64))
    requires
        -1_000_000_000_000 <= days <= 1_000_000_000_000,
    ensures
        is_date(r.0 as int, r.1 as int, r.2 as int),
        epoch_day(r.0 as int, r.1 as int, r.2 as int) == days,
        (r.0 as int, r.1 as int, r.2 as int) == date_of(days as int),
{
    let z: i64 = days + 719_468;  // days from 0000-03-01 to 1970-01-01
    let era: i64 = floor_div(z, 146_097);
    let doe: i64 = z - era * 146_097;
    proof {
        lemma_civil(days as int, era as int, doe as int);
    }
    let yoe: i64 = (doe - doe / 1_460 + doe / 36_524 - doe / 146_096) / 365;
    let doy: i64 = doe - (365 * yoe + yoe / 4 - yoe / 100);
    let mp: i64 = (5 * doy + 2) / 153;
    let d: i64 = doy - (153 * mp + 2) / 5 + 1;
    let m: i64 = if mp < 10 {
        mp + 3
    } else {
        mp - 9
    };
    let y: i64 = yoe + era * 400 + if m <= 2 {
        1
    } else {
        0
    };
    (y, m, d)
}

// ---------------------------------------------------------------------
// Laws.
// ---------------------------------------------------------------------
/// Every day has a date of the calendar.
pub proof fn day_has_its_date(days: int)
    ensures
        ({
            let (y, m, d) = date_of(days);
            is_date(y, m, d) && epoch_day(y, m, d) == days
        }),
{
    let z = days + 719_468;
    lemma_civil(days, z / 146_097, z % 146_097);
}

/// Every date of the calendar is the date of its day.
pub proof fn date_has_its_day(y: int, m: int, d: int)
    requires
        is_date(y, m, d),
    ensures
        date_of(epoch_day(y, m, d)) == (y, m, d),
{
    lemma_date_of(y, m, d);
}

/// The calendar from day to day: it begins with the first of January 1970 as
/// day zero, and each day is followed by the next of its month, the last of
/// a month by the first of the next, and the last of December by the first
/// of January.
pub proof fn day_follows_day(days: int)
    ensures
        date_of(0) == (1970int, 1int, 1int),
        ({
            let (y, m, d) = date_of(days);
            let leaps = y % 4 == 0 && (y % 100 != 0 || y % 400 == 0);
            let last = if m == 2 && leaps {
                29int
            } else if m == 2 {
                28
            } else if m == 4 || m == 6 || m == 9 || m == 11 {
                30
            } else {
                31
            };
            &&& 1 <= m <= 12
            &&& 1 <= d <= last
            &&& d < last ==> date_of(days + 1) == (y, m, d + 1)
            &&& d == last && m < 12 ==> date_of(days + 1) == (y, m + 1, 1int)
            &&& d == last && m == 12 ==> date_of(days + 1) == (y + 1, 1int, 1int)
        }),
{
    let (y, m, d) = date_of(days);
    day_has_its_date(days);
    lemma_months(1970);
    lemma_date_of(1970, 1, 1);
    lemma_months(y);
    lemma_months(y + 1);
    lemma_year(y);
    if d < month_days(y, m) {
        lemma_date_of(y, m, d + 1);
    } else if m < 12 {
        lemma_date_of(y, m + 1, 1);
    } else {
        lemma_date_of(y + 1, 1, 1);
    }
}

} // verus!
