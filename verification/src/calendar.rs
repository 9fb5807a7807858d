//! Civil date-times on the proleptic Gregorian calendar, to the second.
//!
//! A [`Timestamp`] is plain data: six fields. Its meaning is the number of
//! seconds between 1970-01-01 00:00:00 and it, [`Timestamp::unix_seconds`],
//! and every contract that orders or measures timestamps speaks of that
//! number.

use vstd::prelude::*;

verus! {

/// First year that the stored text form can hold.
pub const MIN_YEAR: i32 = 0;

/// Last year that the stored text form can hold.
pub const MAX_YEAR: i32 = 9999;

/// `unix_seconds` of 0000-01-01 00:00:00, the earliest valid timestamp.
pub const MIN_SECONDS: i64 = -62_167_219_200;

/// `unix_seconds` of 9999-12-31 23:59:59, the latest valid timestamp.
pub const MAX_SECONDS: i64 = 253_402_300_799;

/// A date and a time of day, without a zone.
#[derive(Clone, Copy, Debug, PartialEq, Eq, Structural)]
pub struct Timestamp {
    pub year: i32,
    pub month: u32,
    pub day: u32,
    pub hour: u32,
    pub minute: u32,
    pub second: u32,
}

pub open spec fn is_leap_year(year: int) -> bool {
    year % 4 == 0 && (year % 100 != 0 || year % 400 == 0)
}

pub open spec fn days_in_year(year: int) -> int {
    if is_leap_year(year) {
        366
    } else {
        365
    }
}

pub open spec fn days_in_month(year: int, month: int) -> int {
    if month == 2 {
        if is_leap_year(year) {
            29
        } else {
            28
        }
    } else if month == 4 || month == 6 || month == 9 || month == 11 {
        30
    } else {
        31
    }
}

/// Days of `year` that lie before the first of `month`.
pub open spec fn days_before_month(year: int, month: int) -> int
    decreases month,
{
    if month <= 1 {
        0
    } else {
        days_before_month(year, month - 1) + days_in_month(year, month - 1)
    }
}

/// Days between 0001-01-01 and the first of January of `year`; negative
/// for the years before.
pub open spec fn days_before_year(year: int) -> int {
    let y = year - 1;
    365 * y + y / 4 - y / 100 + y / 400
}

/// Days between 1970-01-01 and the given date.
pub open spec fn day_number(year: int, month: int, day: int) -> int {
    days_before_year(year) + days_before_month(year, month) + (day - 1) - 719_162
}

impl Timestamp {
    /// The fields name a day that exists and a time of day on the clock.
    pub open spec fn is_civil(self) -> bool {
        &&& 1 <= self.month <= 12
        &&& 1 <= self.day <= days_in_month(self.year as int, self.month as int)
        &&& self.hour < 24
        &&& self.minute < 60
        &&& self.second < 60
    }

    /// Civil, and in a year that the stored text form can hold.
    pub open spec fn is_valid(self) -> bool {
        self.is_civil() && MIN_YEAR <= self.year <= MAX_YEAR
    }

    /// Earlier by the fields: the year decides, then the month, and so on
    /// down to the second.
    pub open spec fn precedes(self, other: Timestamp) -> bool {
        self.year < other.year || (self.year == other.year && (self.month < other.month || (
        self.month == other.month && (self.day < other.day || (self.day == other.day && (self.hour
            < other.hour || (self.hour == other.hour && (self.minute < other.minute || (self.minute
            == other.minute && self.second < other.second)))))))))
    }

    /// The valid timestamp `seconds` after this one (before it, where
    /// `seconds` is negative), if there is one.
    pub open spec fn shifted(self, seconds: int) -> Option<Timestamp> {
        at_seconds(self.unix_seconds() + seconds)
    }

    /// Seconds from 1970-01-01 00:00:00 to this timestamp.
    pub open spec fn unix_seconds(self) -> int {
        day_number(self.year as int, self.month as int, self.day as int) * 86_400
            + self.hour * 3_600 + self.minute * 60 + self.second
    }
}

/// The closed form of `days_before_year` counts every year at its length.
pub proof fn lemma_days_before_next_year(year: int)
    ensures
        days_before_year(year + 1) == days_before_year(year) + days_in_year(year),
{
}

/// A later year starts after the whole of an earlier one.
pub proof fn lemma_years_in_order(earlier: int, later: int)
    requires
        earlier < later,
    ensures
        days_before_year(earlier) + days_in_year(earlier) <= days_before_year(later),
    decreases later - earlier,
{
    lemma_days_before_next_year(earlier);
    if earlier + 1 < later {
        lemma_years_in_order(earlier + 1, later);
    }
}

/// The days before each month, month by month.
pub proof fn lemma_days_before_month_table(year: int, month: int)
    requires
        1 <= month <= 13,
    ensures
        days_before_month(year, month) == (if month == 1 {
            0int
        } else if month == 2 {
            31
        } else {
            let leap: int = if is_leap_year(year) { 1 } else { 0 };
            leap + (if month == 3 {
                59int
            } else if month == 4 {
                90
            } else if month == 5 {
                120
            } else if month == 6 {
                151
            } else if month == 7 {
                181
            } else if month == 8 {
                212
            } else if month == 9 {
                243
            } else if month == 10 {
                273
            } else if month == 11 {
                304
            } else if month == 12 {
                334
            } else {
                365
            })
        }),
    decreases month,
{
    if month > 1 {
        lemma_days_before_month_table(year, month - 1);
    }
}

/// The second on the clock, counted from midnight.
pub open spec fn second_of_day(t: Timestamp) -> int {
    t.hour * 3_600 + t.minute * 60 + t.second
}

/// Timestamps are ordered by their seconds exactly as by their fields,
/// year first and second last, and two that share their seconds are one.
pub proof fn lemma_order_by_fields(a: Timestamp, b: Timestamp)
    requires
        a.is_civil(),
        b.is_civil(),
    ensures
        a.precedes(b) <==> a.unix_seconds() < b.unix_seconds(),
        a == b <==> a.unix_seconds() == b.unix_seconds(),
{
    let da = day_number(a.year as int, a.month as int, a.day as int);
    let db = day_number(b.year as int, b.month as int, b.day as int);
    lemma_days_before_month_table(a.year as int, a.month as int);
    lemma_days_before_month_table(b.year as int, b.month as int);
    lemma_days_before_month_table(a.year as int, a.month as int + 1);
    lemma_days_before_month_table(b.year as int, b.month as int + 1);
    lemma_days_before_month_table(a.year as int, 13);
    lemma_days_before_month_table(b.year as int, 13);
    if a.year < b.year {
        lemma_years_in_order(a.year as int, b.year as int);
        assert(da < db);
    } else if b.year < a.year {
        lemma_years_in_order(b.year as int, a.year as int);
        assert(db < da);
    } else if a.month < b.month {
        assert(da < db);
    } else if b.month < a.month {
        assert(db < da);
    }
    assert(0 <= second_of_day(a) < 86_400);
    assert(0 <= second_of_day(b) < 86_400);
    assert(a.unix_seconds() == da * 86_400 + second_of_day(a));
    assert(b.unix_seconds() == db * 86_400 + second_of_day(b));
}

/// Every valid timestamp lies between the first second of year 0 and the
/// last second of year 9999.
pub proof fn lemma_valid_seconds_bounded(t: Timestamp)
    requires
        t.is_valid(),
    ensures
        MIN_SECONDS <= t.unix_seconds() <= MAX_SECONDS,
{
    let first = Timestamp { year: 0, month: 1, day: 1, hour: 0, minute: 0, second: 0 };
    let last = Timestamp { year: 9999, month: 12, day: 31, hour: 23, minute: 59, second: 59 };
    lemma_days_before_month_table(0, 1);
    lemma_days_before_month_table(9999, 12);
    assert(first.unix_seconds() == MIN_SECONDS);
    assert(last.unix_seconds() == MAX_SECONDS);
    lemma_order_by_fields(first, t);
    lemma_order_by_fields(t, last);
}

/// The valid timestamp that lies `seconds` from 1970-01-01 00:00:00, if
/// there is one.
pub open spec fn at_seconds(seconds: int) -> Option<Timestamp> {
    if exists|t: Timestamp| t.is_valid() && t.unix_seconds() == seconds {
        Some(choose|t: Timestamp| t.is_valid() && t.unix_seconds() == seconds)
    } else {
        None
    }
}

/// A valid timestamp is the one that `at_seconds` finds at its seconds.
pub proof fn lemma_at_own_seconds(t: Timestamp)
    requires
        t.is_valid(),
    ensures
        at_seconds(t.unix_seconds()) == Some(t),
{
    let found = choose|u: Timestamp| u.is_valid() && u.unix_seconds() == t.unix_seconds();
    lemma_order_by_fields(found, t);
}

/// What `at_seconds` finds is valid and lies at the seconds asked for, and
/// it finds nothing only outside the valid range.
pub proof fn lemma_at_seconds_found(seconds: int)
    ensures
        at_seconds(seconds) matches Some(t) ==> t.is_valid() && t.unix_seconds() == seconds,
        at_seconds(seconds) is Some ==> MIN_SECONDS <= seconds <= MAX_SECONDS,
{
    if let Some(t) = at_seconds(seconds) {
        lemma_valid_seconds_bounded(t);
    }
}

/// The second after `t`.
pub open spec fn next_second(t: Timestamp) -> Timestamp {
    if t.second < 59 {
        Timestamp { second: (t.second + 1) as u32, ..t }
    } else if t.minute < 59 {
        Timestamp { minute: (t.minute + 1) as u32, second: 0, ..t }
    } else if t.hour < 23 {
        Timestamp { hour: (t.hour + 1) as u32, minute: 0, second: 0, ..t }
    } else if t.day < days_in_month(t.year as int, t.month as int) {
        Timestamp { day: (t.day + 1) as u32, hour: 0, minute: 0, second: 0, ..t }
    } else if t.month < 12 {
        Timestamp { month: (t.month + 1) as u32, day: 1, hour: 0, minute: 0, second: 0, ..t }
    } else {
        Timestamp { year: (t.year + 1) as i32, month: 1, day: 1, hour: 0, minute: 0, second: 0 }
    }
}

/// `next_second` names a moment on the calendar, one second on.
pub proof fn lemma_next_second(t: Timestamp)
    requires
        t.is_civil(),
        t.year < i32::MAX,
    ensures
        next_second(t).is_civil(),
        next_second(t).unix_seconds() == t.unix_seconds() + 1,
{
    lemma_days_before_month_table(t.year as int, t.month as int);
    lemma_days_before_month_table(t.year as int, t.month as int + 1);
    lemma_days_before_month_table(t.year as int + 1, 1);
    lemma_days_before_next_year(t.year as int);
}

/// Every second from the first of year 0 to the last of year 9999 is the
/// second of a valid timestamp.
pub proof fn lemma_every_second_has_a_time(seconds: int)
    requires
        MIN_SECONDS <= seconds <= MAX_SECONDS,
    ensures
        at_seconds(seconds) is Some,
    decreases seconds - MIN_SECONDS,
{
    if seconds == MIN_SECONDS {
        let first = Timestamp { year: 0, month: 1, day: 1, hour: 0, minute: 0, second: 0 };
        lemma_days_before_month_table(0, 1);
        assert(first.is_valid() && first.unix_seconds() == seconds);
    } else {
        lemma_every_second_has_a_time(seconds - 1);
        lemma_at_seconds_found(seconds - 1);
        let before = at_seconds(seconds - 1)->0;
        let last = Timestamp { year: 9999, month: 12, day: 31, hour: 23, minute: 59, second: 59 };
        lemma_days_before_month_table(9999, 12);
        assert(last.unix_seconds() == MAX_SECONDS);
        lemma_order_by_fields(before, last);
        lemma_next_second(before);
        let next = next_second(before);
        assert(next.is_valid() && next.unix_seconds() == seconds);
    }
}

/// There is a valid timestamp `seconds` after `t` exactly where that
/// moment lies in the years 0 to 9999, and it lies `seconds` after `t`.
pub proof fn lemma_shifted(t: Timestamp, seconds: int)
    requires
        t.is_valid(),
    ensures
        t.shifted(seconds) is Some <==> MIN_SECONDS <= t.unix_seconds() + seconds <= MAX_SECONDS,
        t.shifted(seconds) matches Some(moved) ==> moved.is_valid() && moved.unix_seconds()
            == t.unix_seconds() + seconds,
{
    lemma_at_seconds_found(t.unix_seconds() + seconds);
    if MIN_SECONDS <= t.unix_seconds() + seconds <= MAX_SECONDS {
        lemma_every_second_has_a_time(t.unix_seconds() + seconds);
    }
}

/// Whether `year` has a 29th of February.
pub fn leap_year(year: i32) -> (r: bool)
    ensures
        r == is_leap_year(year as int),
{
    let size: i64 = if year < 0 {
        -(year as i64)
    } else {
        year as i64
    };
    size % 4 == 0 && (size % 100 != 0 || size % 400 == 0)
}

/// The number of days of `month` in `year`.
pub fn month_length(year: i32, month: u32) -> (r: u32)
    ensures
        r == days_in_month(year as int, month as int),
{
    if month == 2 {
        if leap_year(year) {
            29
        } else {
            28
        }
    } else if month == 4 || month == 6 || month == 9 || month == 11 {
        30
    } else {
        31
    }
}

impl Timestamp {
    /// Whether the fields make a valid timestamp.
    pub fn check_valid(&self) -> (r: bool)
        ensures
            r == self.is_valid(),
    {
        MIN_YEAR <= self.year && self.year <= MAX_YEAR && 1 <= self.month && self.month <= 12 && 1
            <= self.day && self.day <= month_length(self.year, self.month) && self.hour < 24
            && self.minute < 60 && self.second < 60
    }

    /// The timestamp with these fields, if they make a valid one.
    pub fn new(year: i32, month: u32, day: u32, hour: u32, minute: u32, second: u32) -> (r: Option<
        Timestamp,
    >)
        ensures
            r == (if (Timestamp { year, month, day, hour, minute, second }).is_valid() {
                Some(Timestamp { year, month, day, hour, minute, second })
            } else {
                None
            }),
    {
        let t = Timestamp { year, month, day, hour, minute, second };
        if t.check_valid() {
            Some(t)
        } else {
            None
        }
    }

    /// Whether this timestamp is strictly earlier than `other`.
    pub fn is_before(&self, other: &Timestamp) -> (r: bool)
        requires
            self.is_civil(),
            other.is_civil(),
        ensures
            r == (self.unix_seconds() < other.unix_seconds()),
    {
        proof {
            lemma_order_by_fields(*self, *other);
        }
        self.year < other.year || (self.year == other.year && (self.month < other.month || (
        self.month == other.month && (self.day < other.day || (self.day == other.day && (self.hour
            < other.hour || (self.hour == other.hour && (self.minute < other.minute || (self.minute
            == other.minute && self.second < other.second)))))))))
    }
}

} // verus!
