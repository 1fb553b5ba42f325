//! A calendar timestamp with a UTC offset, held as plain integers.
//!
//! The tool records when a task was created and last changed. The clock
//! itself lives outside the library: callers read the current local time
//! once per run and hand it in as a `Timestamp` value.

use vstd::prelude::*;

verus! {

/// A moment in civil time: a date, a time of day, and the UTC offset in
/// minutes that the clock reported.
#[derive(Clone, Copy, PartialEq, Eq, Structural, Debug)]
pub struct Timestamp {
    pub year: u16,
    pub month: u8,
    pub day: u8,
    pub hour: u8,
    pub minute: u8,
    pub second: u8,
    /// Offset from UTC in minutes, east positive.
    pub offset_minutes: i16,
}

impl Timestamp {
    /// The field ranges every stored timestamp satisfies: a real calendar
    /// date within the four-digit years, a time of day, and an offset of
    /// less than a day in either direction.
    pub open spec fn wf(self) -> bool {
        &&& self.year <= 9999
        &&& 1 <= self.month <= 12
        &&& 1 <= self.day <= 31
        &&& self.hour <= 23
        &&& self.minute <= 59
        &&& self.second <= 59
        &&& -1439 <= self.offset_minutes <= 1439
    }

    /// Whether this moment is no later than `other`: both are mapped to
    /// seconds on one line, counting civil time from the calendar start
    /// and subtracting the offset.
    pub open spec fn le(self, other: Timestamp) -> bool {
        instant_of(self) <= instant_of(other)
    }

    /// Runtime check of `wf`, for callers that receive a timestamp from
    /// outside the library.
    pub fn is_wf(&self) -> (r: bool)
        ensures
            r == self.wf(),
    {
        self.year <= 9999 && 1 <= self.month && self.month <= 12 && 1 <= self.day && self.day <= 31
            && self.hour <= 23 && self.minute <= 59 && self.second <= 59
            && -1439 <= self.offset_minutes && self.offset_minutes <= 1439
    }
}

/// A leap year of the proleptic Gregorian calendar.
pub open spec fn is_leap_year(y: nat) -> bool {
    y % 4 == 0 && (y % 100 != 0 || y % 400 == 0)
}

/// Days in the year before month `m`.
pub open spec fn days_before_month(m: nat, leap: bool) -> int {
    let plain: int = if m <= 1 {
        0
    } else if m == 2 {
        31
    } else if m == 3 {
        59
    } else if m == 4 {
        90
    } else if m == 5 {
        120
    } else if m == 6 {
        151
    } else if m == 7 {
        181
    } else if m == 8 {
        212
    } else if m == 9 {
        243
    } else if m == 10 {
        273
    } else if m == 11 {
        304
    } else {
        334
    };
    if leap && m >= 3 {
        plain + 1
    } else {
        plain
    }
}

/// Days from the calendar start (the first day of year zero) to the start
/// of year `y`: year zero is a leap year, so the leap days up to `y` are
/// the multiples of four below it, less the century years, plus the
/// four-century years.
pub open spec fn days_before_year(y: nat) -> int {
    if y == 0 {
        0
    } else {
        365 * y + (y - 1) / 4 + 1 - ((y - 1) / 100 + 1) + ((y - 1) / 400 + 1)
    }
}

/// The day this timestamp's date falls on, counted from the calendar
/// start.
pub open spec fn day_index(t: Timestamp) -> int {
    days_before_year(t.year as nat) + days_before_month(t.month as nat, is_leap_year(t.year as nat))
        + (t.day - 1)
}

/// The moment as seconds from the calendar start, in UTC: the civil
/// reading minus the clock's offset.
pub open spec fn instant_of(t: Timestamp) -> int {
    ((day_index(t) * 24 + t.hour) * 60 + t.minute - t.offset_minutes) * 60 + t.second
}

} // verus!
