//! Civil (time zone free) dates and times, as the `jiff` crate models them.
//!
//! The values hold plain integers; the calendar arithmetic that the cron
//! logic needs is done by `jiff` behind a few trusted wrappers.

use vstd::prelude::*;

verus! {

/// The proleptic Gregorian leap year rule.
pub open spec fn is_leap_year(year: int) -> bool {
    year % 4 == 0 && (year % 100 != 0 || year % 400 == 0)
}

/// The number of days in `month` (1 to 12) of `year`.
pub open spec fn days_in_month(year: int, month: int) -> int {
    if month == 2 {
        if is_leap_year(year) { 29 } else { 28 }
    } else if month == 4 || month == 6 || month == 9 || month == 11 {
        30
    } else {
        31
    }
}

/// A civil date: year, month (1 = January) and day of the month.
#[derive(Clone, Copy, Debug, PartialEq, Eq, PartialOrd, Ord, Hash, Structural)]
pub struct Date {
    pub year: i16,
    pub month: i8,
    pub day: i8,
}

/// A civil time of day.
#[derive(Clone, Copy, Debug, PartialEq, Eq, PartialOrd, Ord, Hash, Structural)]
pub struct Time {
    pub hour: i8,
    pub minute: i8,
    pub second: i8,
    pub subsec_nanosecond: i32,
}

/// A civil date together with a time of day.
#[derive(Clone, Copy, Debug, PartialEq, Eq, PartialOrd, Ord, Hash, Structural)]
pub struct DateTime {
    pub date: Date,
    pub time: Time,
}

impl Date {
    /// The date exists in the calendar and lies in the range `-9999-01-01` to `9999-12-31`.
    pub open spec fn is_valid(self) -> bool {
        &&& -9999 <= self.year <= 9999
        &&& 1 <= self.month <= 12
        &&& 1 <= self.day <= days_in_month(self.year as int, self.month as int)
    }

    /// The last representable date, `9999-12-31`.
    pub open spec fn spec_max() -> Date {
        Date { year: 9999, month: 12, day: 31 }
    }

    /// Strictly earlier, comparing year, then month, then day.
    pub open spec fn is_before(self, other: Date) -> bool {
        ||| self.year < other.year
        ||| self.year == other.year && self.month < other.month
        ||| self.year == other.year && self.month == other.month && self.day < other.day
    }

    /// The following day in the calendar (for any date but the last one).
    pub open spec fn successor(self) -> Date {
        if (self.day as int) < days_in_month(self.year as int, self.month as int) {
            Date { day: (self.day + 1) as i8, ..self }
        } else if self.month < 12 {
            Date { year: self.year, month: (self.month + 1) as i8, day: 1 }
        } else {
            Date { year: (self.year + 1) as i16, month: 1, day: 1 }
        }
    }

    /// The day of the week, 0 for Sunday to 6 for Saturday.
    pub open spec fn weekday(self) -> int {
        let y: int = if self.month < 3 { self.year - 1 } else { self.year as int };
        let t: int = if self.month == 1 { 0 } else if self.month == 2 { 3 } else if self.month == 3 {
            2
        } else if self.month == 4 { 5 } else if self.month == 5 { 0 } else if self.month == 6 {
            3
        } else if self.month == 7 { 5 } else if self.month == 8 { 1 } else if self.month == 9 {
            4
        } else if self.month == 10 { 6 } else if self.month == 11 { 2 } else { 4 };
        (y + y / 4 - y / 100 + y / 400 + t + self.day) % 7
    }

    /// A measure that every later valid date makes strictly smaller.
    pub open spec fn rank(self) -> int {
        (9999 - self.year) * 384 + (12 - self.month) * 32 + (31 - self.day)
    }

    /// The last representable date, `9999-12-31`.
    pub fn max() -> (r: Date)
        ensures
            r == Date::spec_max(),
    {
        Date { year: 9999, month: 12, day: 31 }
    }
}

impl Time {
    /// Every field lies in its range.
    pub open spec fn is_valid(self) -> bool {
        &&& 0 <= self.hour <= 23
        &&& 0 <= self.minute <= 59
        &&& 0 <= self.second <= 59
        &&& 0 <= self.subsec_nanosecond <= 999_999_999
    }

    /// Strictly earlier.
    pub open spec fn is_before(self, other: Time) -> bool {
        ||| self.hour < other.hour
        ||| self.hour == other.hour && self.minute < other.minute
        ||| self.hour == other.hour && self.minute == other.minute && self.second < other.second
        ||| self.hour == other.hour && self.minute == other.minute && self.second == other.second
            && self.subsec_nanosecond < other.subsec_nanosecond
    }
}

impl DateTime {
    /// Both the date and the time are valid.
    pub open spec fn is_valid(self) -> bool {
        self.date.is_valid() && self.time.is_valid()
    }

    /// Strictly earlier.
    pub open spec fn is_before(self, other: DateTime) -> bool {
        ||| self.date.is_before(other.date)
        ||| self.date == other.date && self.time.is_before(other.time)
    }

    /// Earlier or equal.
    pub open spec fn not_after(self, other: DateTime) -> bool {
        self.is_before(other) || self == other
    }

    /// Whether `self` is earlier than or equal to `other`.
    pub fn is_le(&self, other: &DateTime) -> (r: bool)
        ensures
            r == self.not_after(*other),
    {
        let a = self;
        let b = other;
        if a.date.year != b.date.year {
            a.date.year < b.date.year
        } else if a.date.month != b.date.month {
            a.date.month < b.date.month
        } else if a.date.day != b.date.day {
            a.date.day < b.date.day
        } else if a.time.hour != b.time.hour {
            a.time.hour < b.time.hour
        } else if a.time.minute != b.time.minute {
            a.time.minute < b.time.minute
        } else if a.time.second != b.time.second {
            a.time.second < b.time.second
        } else {
            a.time.subsec_nanosecond <= b.time.subsec_nanosecond
        }
    }
}

/// `jiff::civil::Date::saturating_add` with a span of one day: the next day,
/// or `9999-12-31` again when the date is already the last one.
#[verifier::external_body]
pub(crate) fn date_add_one_day(d: Date) -> (r: Date)
    requires
        d.is_valid(),
    ensures
        r == (if d == Date::spec_max() { d } else { d.successor() }),
{
    let j = jiff::civil::Date::constant(d.year, d.month, d.day);
    let n = j.saturating_add(jiff::Span::new().days(1));
    Date { year: n.year(), month: n.month(), day: n.day() }
}

/// `jiff::civil::Weekday::to_sunday_zero_offset` of `jiff::civil::Date::weekday`:
/// the day of the week counted from Sunday as 0.
#[verifier::external_body]
pub(crate) fn date_weekday(d: Date) -> (w: i8)
    requires
        d.is_valid(),
    ensures
        w == d.weekday(),
{
    jiff::civil::Date::constant(d.year, d.month, d.day).weekday().to_sunday_zero_offset()
}

} // verus!
