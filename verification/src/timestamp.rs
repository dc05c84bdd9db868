//! Civil date-times at a fixed zero offset: how they are read from text, how
//! they are ordered and how they are written.

use crate::text::{four_digits, push_four_digits, push_two_digits, two_digits};
use vstd::prelude::*;

verus! {

/// What the date library reports of a date-time it has read: the calendar
/// date, the time of day, and the nanoseconds since the last whole second,
/// which are 1,000,000,000 or more during a leap second.
#[derive(Clone, Copy, Debug, PartialEq, Eq, Structural)]
pub struct Reading {
    pub year: i32,
    pub month: u32,
    pub day: u32,
    pub hour: u32,
    pub minute: u32,
    pub second: u32,
    pub nanosecond: u32,
}

impl Reading {
    /// The ranges in which the date library keeps the fields of a date-time.
    pub open spec fn in_range(self) -> bool {
        &&& 1 <= self.month <= 12
        &&& 1 <= self.day <= 31
        &&& self.hour <= 23
        &&& self.minute <= 59
        &&& self.second <= 59
        &&& self.nanosecond <= 1_999_999_999
    }
}

/// The format under which dates and times of day are read: month, day and
/// two-digit year, then hour of the half day, minute, second and the half of
/// the day. The date library reads the years 00 to 69 as 2000 to 2069 and the
/// years 70 to 99 as 1970 to 1999.
pub open spec fn stamp_pattern() -> Seq<char> {
    "%m/%d/%y %I:%M:%S %p"@
}

/// The date-time that `chrono::NaiveDateTime::parse_from_str` reads from
/// `text` under the format `pattern`, or `None` where it reports an error.
pub uninterp spec fn datetime_reading(text: Seq<char>, pattern: Seq<char>) -> Option<Reading>;

/// Calls `chrono::NaiveDateTime::parse_from_str` on `text` and `pattern` and
/// hands back the fields of the date-time it returns, as its `Datelike` and
/// `Timelike` methods give them; `None` stands for any error it reports.
///
/// Trusted: the result is a function of the two texts alone, and the fields
/// lie in the ranges that the documentation of those methods states.
#[verifier::external_body]
fn read_datetime(text: &str, pattern: &str) -> (r: Option<Reading>)
    requires
        pattern@ == stamp_pattern(),
    ensures
        r == datetime_reading(text@, pattern@),
        r matches Some(reading) ==> reading.in_range(),
{
    match chrono::NaiveDateTime::parse_from_str(text, pattern) {
        Ok(t) => Some(
            Reading {
                year: chrono::Datelike::year(&t),
                month: chrono::Datelike::month(&t),
                day: chrono::Datelike::day(&t),
                hour: chrono::Timelike::hour(&t),
                minute: chrono::Timelike::minute(&t),
                second: chrono::Timelike::second(&t),
                nanosecond: chrono::Timelike::nanosecond(&t),
            },
        ),
        Err(_) => None,
    }
}

/// An instant on the civil calendar, to the second, at offset zero. A leap
/// second is second 60 of its minute.
#[derive(Clone, Copy, Debug, PartialEq, Eq, Structural)]
pub struct Timestamp {
    pub year: i32,
    pub month: u32,
    pub day: u32,
    pub hour: u32,
    pub minute: u32,
    pub second: u32,
}

impl Timestamp {
    /// The fields lie in the ranges of a calendar date and a time of day.
    pub open spec fn wf(self) -> bool {
        &&& 1 <= self.month <= 12
        &&& 1 <= self.day <= 31
        &&& self.hour <= 23
        &&& self.minute <= 59
        &&& self.second <= 60
    }

    /// The instant of a reading: its date and time of day, the second counted
    /// one further during a leap second, and any smaller fraction dropped.
    pub open spec fn of_reading(r: Reading) -> Timestamp {
        Timestamp {
            year: r.year,
            month: r.month,
            day: r.day,
            hour: r.hour,
            minute: r.minute,
            second: if r.nanosecond >= 1_000_000_000 {
                (r.second + 1) as u32
            } else {
                r.second
            },
        }
    }

    /// Computes [`Timestamp::of_reading`].
    pub fn from_reading(r: Reading) -> (t: Timestamp)
        requires
            r.in_range(),
        ensures
            t == Timestamp::of_reading(r),
            t.wf(),
    {
        Timestamp {
            year: r.year,
            month: r.month,
            day: r.day,
            hour: r.hour,
            minute: r.minute,
            second: if r.nanosecond >= 1_000_000_000 {
                r.second + 1
            } else {
                r.second
            },
        }
    }

    /// The instant that the text `text` names under [`stamp_pattern`], or
    /// `None` where the date library does not accept it.
    pub open spec fn read(text: Seq<char>) -> Option<Timestamp> {
        match datetime_reading(text, stamp_pattern()) {
            Some(r) => Some(Timestamp::of_reading(r)),
            None => None,
        }
    }

    /// Reads the instant that `text` names.
    pub fn parse(text: &str) -> (r: Option<Timestamp>)
        ensures
            r == Timestamp::read(text@),
            r matches Some(t) ==> t.wf(),
    {
        match read_datetime(text, "%m/%d/%y %I:%M:%S %p") {
            Some(reading) => Some(Timestamp::from_reading(reading)),
            None => None,
        }
    }

    /// `self` is strictly before `other`: the fields compared in the order
    /// year, month, day, hour, minute, second.
    pub open spec fn earlier(self, other: Timestamp) -> bool {
        ||| self.year < other.year
        ||| self.year == other.year && self.month < other.month
        ||| self.year == other.year && self.month == other.month && self.day < other.day
        ||| self.year == other.year && self.month == other.month && self.day == other.day
            && self.hour < other.hour
        ||| self.year == other.year && self.month == other.month && self.day == other.day
            && self.hour == other.hour && self.minute < other.minute
        ||| self.year == other.year && self.month == other.month && self.day == other.day
            && self.hour == other.hour && self.minute == other.minute && self.second
            < other.second
    }

    /// `self` is before `other` or equal to it.
    pub open spec fn not_after(self, other: Timestamp) -> bool {
        self == other || self.earlier(other)
    }

    /// Decides [`Timestamp::earlier`].
    pub fn is_earlier(&self, other: &Timestamp) -> (r: bool)
        ensures
            r == self.earlier(*other),
    {
        if self.year != other.year {
            self.year < other.year
        } else if self.month != other.month {
            self.month < other.month
        } else if self.day != other.day {
            self.day < other.day
        } else if self.hour != other.hour {
            self.hour < other.hour
        } else if self.minute != other.minute {
            self.minute < other.minute
        } else {
            self.second < other.second
        }
    }

    /// The year as text: four digits from 0 to 9999, and otherwise a sign
    /// followed by at least four digits.
    pub open spec fn year_text(self) -> Seq<char> {
        if 0 <= self.year <= 9999 {
            four_digits(self.year as nat)
        } else if self.year < 0 {
            seq!['-'] + four_digits((-self.year) as nat)
        } else {
            seq!['+'] + four_digits(self.year as nat)
        }
    }

    /// The date and the time of day, as `YYYY-MM-DD HH:MM:SS`.
    pub open spec fn civil_text(self) -> Seq<char> {
        self.year_text() + seq!['-'] + two_digits(self.month as nat) + seq!['-'] + two_digits(
            self.day as nat,
        ) + seq![' '] + two_digits(self.hour as nat) + seq![':'] + two_digits(
            self.minute as nat,
        ) + seq![':'] + two_digits(self.second as nat)
    }

    /// The date, the time of day and the offset, as
    /// `YYYY-MM-DD HH:MM:SS +00:00`.
    pub open spec fn offset_text(self) -> Seq<char> {
        self.civil_text() + seq![' ', '+', '0', '0', ':', '0', '0']
    }

    /// Appends [`Timestamp::civil_text`] to `out`.
    pub fn push_civil(&self, out: &mut String)
        ensures
            final(out)@ == old(out)@ + self.civil_text(),
    {
        if self.year < 0 {
            out.push('-');
            push_four_digits(out, (-(self.year as i128)) as u128);
        } else {
            if self.year > 9999 {
                out.push('+');
            }
            push_four_digits(out, self.year as u128);
        }
        out.push('-');
        push_two_digits(out, self.month as u128);
        out.push('-');
        push_two_digits(out, self.day as u128);
        out.push(' ');
        push_two_digits(out, self.hour as u128);
        out.push(':');
        push_two_digits(out, self.minute as u128);
        out.push(':');
        push_two_digits(out, self.second as u128);
        assert(out@ =~= old(out)@ + self.civil_text());
    }

    /// Appends [`Timestamp::offset_text`] to `out`.
    pub fn push_with_offset(&self, out: &mut String)
        ensures
            final(out)@ == old(out)@ + self.offset_text(),
    {
        self.push_civil(out);
        out.push(' ');
        out.push('+');
        out.push('0');
        out.push('0');
        out.push(':');
        out.push('0');
        out.push('0');
        assert(out@ =~= old(out)@ + self.offset_text());
    }
}

} // verus!
