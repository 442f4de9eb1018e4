//! The civil calendar: which day of which month a day number is.
use vstd::prelude::*;

verus! {

/// `y` has a 29th of February.
pub open spec fn is_leap(y: int) -> bool {
    (y % 4 == 0 && y % 100 != 0) || y % 400 == 0
}

/// The number of leap years among the years 1 to `y`.
pub open spec fn leap_years(y: int) -> int {
    y / 4 - y / 100 + y / 400
}

/// The number of days in a month.
pub open spec fn month_days(y: int, m: int) -> int {
    if m == 2 {
        if is_leap(y) {
            29
        } else {
            28
        }
    } else if m == 4 || m == 6 || m == 9 || m == 11 {
        30
    } else {
        31
    }
}

/// The number of days of a year before a month.
pub open spec fn days_before_month(y: int, m: int) -> int
    decreases m,
{
    if m <= 1 {
        0
    } else {
        days_before_month(y, m - 1) + month_days(y, m - 1)
    }
}

/// There is such a day.
pub open spec fn is_date(y: int, m: int, d: int) -> bool {
    1 <= m <= 12 && 1 <= d <= month_days(y, m)
}

/// The number of a day, counted from 1970-01-01.
pub open spec fn day_number(y: int, m: int, d: int) -> int {
    365 * (y - 1970) + leap_years(y - 1) - leap_years(1969) + days_before_month(y, m) + (d - 1)
}

/// A day of the civil calendar.
#[derive(Clone, Copy, PartialEq, Eq, Debug, Structural)]
pub struct Date {
    pub year: i64,
    pub month: i64,
    pub day: i64,
}

/// The months' cumulative lengths, January and February apart.
proof fn lemma_months(y: int)
    ensures
        days_before_month(y, 1) == 0,
        days_before_month(y, 2) == 31,
        ({
            let b = 31 + month_days(y, 2);
            &&& days_before_month(y, 3) == b
            &&& days_before_month(y, 4) == b + 31
            &&& days_before_month(y, 5) == b + 61
            &&& days_before_month(y, 6) == b + 92
            &&& days_before_month(y, 7) == b + 122
            &&& days_before_month(y, 8) == b + 153
            &&& days_before_month(y, 9) == b + 184
            &&& days_before_month(y, 10) == b + 214
            &&& days_before_month(y, 11) == b + 245
            &&& days_before_month(y, 12) == b + 275
        }),
{
    reveal_with_fuel(days_before_month, 13);
}

/// Where the year that starts in March stands in its era of 400 years.
proof fn lemma_year_of_era(doe: int)
    requires
        0 <= doe <= 146096,
    ensures
        ({
            let yoe = (doe - doe / 1460 + doe / 36524 - doe / 146096) / 365;
            let doy = doe - (365 * yoe + yoe / 4 - yoe / 100);
            &&& 0 <= yoe <= 399
            &&& 0 <= doy <= 365
            &&& doy == 365 ==> (yoe + 1) % 4 == 0 && ((yoe + 1) % 100 != 0 || yoe == 399)
        }),
{
    let a = doe / 1460;
    let c = doe / 36524;
    let e = doe / 146096;
    let yoe = (doe - a + c - e) / 365;
    let q = yoe / 4;
    let h = yoe / 100;
    // Centuries first: within one, leap days come every 1461 days.
    let r = doe - 36524 * c;
    assert(0 <= r < 36524);
    assert(0 <= c <= 4);
    assert(c == 4 ==> r == 0 && e == 1);
    assert(c < 4 ==> e == 0);
    assert(1460 * a <= doe < 1460 * a + 1460);
    assert(365 * yoe <= doe - a + c - e < 365 * yoe + 365);
    assert(4 * q <= yoe < 4 * q + 4);
    assert(100 * h <= yoe < 100 * h + 100);
}

/// Where the month stands in a year that starts in March: `mp` months and `d - 1` days in.
proof fn lemma_month_of_year(doy: int, mp: int, d: int)
    requires
        0 <= doy <= 365,
        mp == (5 * doy + 2) / 153,
        d == doy - (153 * mp + 2) / 5 + 1,
    ensures
        0 <= mp <= 11,
        1 <= d,
        mp == 0 ==> doy == d - 1 && d <= 31,
        mp == 1 ==> doy == 31 + d - 1 && d <= 30,
        mp == 2 ==> doy == 61 + d - 1 && d <= 31,
        mp == 3 ==> doy == 92 + d - 1 && d <= 30,
        mp == 4 ==> doy == 122 + d - 1 && d <= 31,
        mp == 5 ==> doy == 153 + d - 1 && d <= 31,
        mp == 6 ==> doy == 184 + d - 1 && d <= 30,
        mp == 7 ==> doy == 214 + d - 1 && d <= 31,
        mp == 8 ==> doy == 245 + d - 1 && d <= 30,
        mp == 9 ==> doy == 275 + d - 1 && d <= 31,
        mp == 10 ==> doy == 306 + d - 1 && d <= 31,
        mp == 11 ==> doy == 337 + d - 1 && d <= 29,
{
}

/// A leap year adds one to the count of leap years.
proof fn lemma_leap_step(y: int)
    ensures
        leap_years(y) == leap_years(y - 1) + if is_leap(y) {
            1int
        } else {
            0int
        },
{
}

/// Leap years in terms of an era and the year within it.
proof fn lemma_leap_era(yoe: int, era: int)
    requires
        0 <= yoe <= 399,
    ensures
        leap_years(yoe + 400 * era) == yoe / 4 - yoe / 100 + 97 * era,
        is_leap(yoe + 400 * era + 1) == ((yoe + 1) % 4 == 0 && ((yoe + 1) % 100 != 0 || yoe == 399)),
{
}

/// The date that stands `doy` days into the March-based year `y` has the day number that the
/// position in the era gives.
proof fn lemma_civil(days: int, era: int, yoe: int, doy: int, mp: int, d: int)
    requires
        0 <= yoe <= 399,
        0 <= doy <= 365,
        doy == 365 ==> (yoe + 1) % 4 == 0 && ((yoe + 1) % 100 != 0 || yoe == 399),
        days + 719468 == 146097 * era + doy + 365 * yoe + yoe / 4 - yoe / 100,
        mp == (5 * doy + 2) / 153,
        d == doy - (153 * mp + 2) / 5 + 1,
    ensures
        ({
            let y = yoe + 400 * era;
            let m = if mp < 10 {
                mp + 3
            } else {
                mp - 9
            };
            let year = if m <= 2 {
                y + 1
            } else {
                y
            };
            is_date(year, m, d) && day_number(year, m, d) == days
        }),
{
    let y = yoe + 400 * era;
    lemma_month_of_year(doy, mp, d);
    lemma_leap_era(yoe, era);
    lemma_leap_step(y);
    lemma_months(y);
    lemma_months(y + 1);
    assert(leap_years(1969) == 477);
}

/// The civil date with the given day number.
pub fn civil_from_days(days: i64) -> (date: Date)
    requires
        0 <= days <= 0x1_0000_0000_0000,
    ensures
        is_date(date.year as int, date.month as int, date.day as int),
        day_number(date.year as int, date.month as int, date.day as int) == days,
        0 < date.year,
{
    let z: i64 = days + 719_468;
    let era: i64 = z / 146_097;
    let doe: i64 = z % 146_097;
    let yoe: i64 = (doe - doe / 1460 + doe / 36_524 - doe / 146_096) / 365;
    proof {
        lemma_year_of_era(doe as int);
    }
    let y: i64 = yoe + era * 400;
    let doy: i64 = doe - (365 * yoe + yoe / 4 - yoe / 100);
    let mp: i64 = (5 * doy + 2) / 153;
    let d: i64 = doy - (153 * mp + 2) / 5 + 1;
    let m: i64 = if mp < 10 {
        mp + 3
    } else {
        mp - 9
    };
    proof {
        lemma_civil(days as int, era as int, yoe as int, doy as int, mp as int, d as int);
    }
    let year: i64 = if m <= 2 {
        y + 1
    } else {
        y
    };
    Date { year, month: m, day: d }
}

/// The day number of the first of January of `y`.
spec fn year_start(y: int) -> int {
    365 * (y - 1970) + leap_years(y - 1) - leap_years(1969)
}

proof fn lemma_day_of_year(y: int, m: int, d: int)
    requires
        is_date(y, m, d),
    ensures
        year_start(y) <= day_number(y, m, d) < year_start(y + 1),
{
    lemma_months(y);
    lemma_leap_step(y);
}

proof fn lemma_years_grow(y: int, z: int)
    requires
        y <= z,
    ensures
        year_start(y) <= year_start(z),
    decreases z - y,
{
    if y < z {
        lemma_years_grow(y, z - 1);
        lemma_leap_step(z - 1);
    }
}

/// Different days have different numbers.
pub proof fn law_day_numbers_are_distinct(y: int, m: int, d: int, y2: int, m2: int, d2: int)
    requires
        is_date(y, m, d),
        is_date(y2, m2, d2),
        day_number(y, m, d) == day_number(y2, m2, d2),
    ensures
        y == y2 && m == m2 && d == d2,
{
    lemma_day_of_year(y, m, d);
    lemma_day_of_year(y2, m2, d2);
    if y < y2 {
        lemma_years_grow(y + 1, y2);
    } else if y2 < y {
        lemma_years_grow(y2 + 1, y);
    }
    lemma_months(y);
}

/// The months have the lengths that everyone knows, and February has a 29th in every fourth year
/// but for three centuries out of four.
pub proof fn law_months_have_their_lengths(y: int)
    ensures
        month_days(y, 1) == 31 && month_days(y, 3) == 31 && month_days(y, 5) == 31 && month_days(
            y,
            7,
        ) == 31 && month_days(y, 8) == 31 && month_days(y, 10) == 31 && month_days(y, 12) == 31,
        month_days(y, 4) == 30 && month_days(y, 6) == 30 && month_days(y, 9) == 30 && month_days(
            y,
            11,
        ) == 30,
        y % 400 == 0 ==> month_days(y, 2) == 29,
        y % 100 == 0 && y % 400 != 0 ==> month_days(y, 2) == 28,
        y % 4 == 0 && y % 100 != 0 ==> month_days(y, 2) == 29,
        y % 4 != 0 ==> month_days(y, 2) == 28,
        forall|m: int, d: int| #[trigger]
            is_date(y, m, d) <==> 1 <= m <= 12 && 1 <= d <= month_days(y, m),
{
    assert(y % 4 != 0 ==> y % 100 != 0 && y % 400 != 0);
}

/// The first day of 1970 has the number 0, and every day the number after that of the day before
/// it, at the end of a month and of a year too.
pub proof fn law_days_are_counted_one_by_one(y: int, m: int, d: int)
    requires
        is_date(y, m, d),
    ensures
        day_number(1970, 1, 1) == 0,
        d < month_days(y, m) ==> is_date(y, m, d + 1) && day_number(y, m, d + 1) == day_number(
            y,
            m,
            d,
        ) + 1,
        d == month_days(y, m) && m < 12 ==> is_date(y, m + 1, 1) && day_number(y, m + 1, 1)
            == day_number(y, m, d) + 1,
        d == month_days(y, m) && m == 12 ==> is_date(y + 1, 1, 1) && day_number(y + 1, 1, 1)
            == day_number(y, m, d) + 1,
{
    lemma_months(y);
    lemma_months(y + 1);
    lemma_months(1970);
    lemma_leap_step(y);
}

} // verus!
