use vstd::prelude::*;

verus! {

/// A calendar day, held as its number in the proleptic Gregorian calendar
/// with 0001-01-01 as day 1 (the numbering of chrono's `num_days_from_ce`).
#[derive(Clone, Copy, Debug, PartialEq, Eq, Structural, Hash)]
pub struct Date {
    pub days_from_ce: i32,
}

/// The number of 1970-01-01, the date that chrono's `NaiveDate::default` gives.
pub const UNIX_EPOCH_DAY: i32 = 719163;

/// What chrono's `NaiveDate::from_ymd_opt` makes of a year, month and day,
/// counted as in `num_days_from_ce`; `None` where that calendar has no such day.
pub uninterp spec fn ymd_day_number(year: int, month: int, day: int) -> Option<int>;

/// What chrono's `FromStr` for `NaiveDate` makes of a text, counted as in
/// `num_days_from_ce`; `None` where the text is no date.
pub uninterp spec fn parsed_day_number(s: Seq<char>) -> Option<int>;

/// Relies on chrono's `NaiveDate::from_ymd_opt`, whose documentation gives
/// `None` for an invalid month or day, and on `Datelike::num_days_from_ce`.
#[verifier::external_body]
fn chrono_from_ymd(year: i32, month: u32, day: u32) -> (r: Option<i32>)
    ensures
        match r {
            Some(n) => ymd_day_number(year as int, month as int, day as int) == Some(n as int),
            None => ymd_day_number(year as int, month as int, day as int) == None::<int>,
        },
        month < 1 || month > 12 || day < 1 || day > 31 ==> r is None,
{
    match chrono::NaiveDate::from_ymd_opt(year, month, day) {
        Some(d) => Some(chrono::Datelike::num_days_from_ce(&d)),
        None => None,
    }
}

/// Relies on chrono's `FromStr` for `NaiveDate` (the `%Y-%m-%d` form) and on
/// `Datelike::num_days_from_ce`.
#[verifier::external_body]
fn chrono_parse(s: &str) -> (r: Option<i32>)
    ensures
        match r {
            Some(n) => parsed_day_number(s@) == Some(n as int),
            None => parsed_day_number(s@) == None::<int>,
        },
{
    match s.parse::<chrono::NaiveDate>() {
        Ok(d) => Some(chrono::Datelike::num_days_from_ce(&d)),
        Err(_) => None,
    }
}

impl Date {
    pub open spec fn day(self) -> int {
        self.days_from_ce as int
    }

    /// The date of a year, month and day, or `None` where the calendar has no
    /// such day.
    pub fn from_ymd(year: i32, month: u32, day: u32) -> (r: Option<Date>)
        ensures
            match r {
                Some(d) => ymd_day_number(year as int, month as int, day as int) == Some(d.day()),
                None => ymd_day_number(year as int, month as int, day as int) == None::<int>,
            },
            month < 1 || month > 12 || day < 1 || day > 31 ==> r is None,
    {
        match chrono_from_ymd(year, month, day) {
            Some(n) => Some(Date { days_from_ce: n }),
            None => None,
        }
    }

    /// The date written in `s` as `YYYY-MM-DD`, or `None` where `s` is no date.
    pub fn parse(s: &str) -> (r: Option<Date>)
        ensures
            match r {
                Some(d) => parsed_day_number(s@) == Some(d.day()),
                None => parsed_day_number(s@) == None::<int>,
            },
    {
        match chrono_parse(s) {
            Some(n) => Some(Date { days_from_ce: n }),
            None => None,
        }
    }
}

impl Default for Date {
    fn default() -> (r: Date)
        ensures
            r.days_from_ce == UNIX_EPOCH_DAY,
    {
        Date { days_from_ce: UNIX_EPOCH_DAY }
    }
}

/// An inclusive span of days, `start` to `end`; empty where `end < start`.
#[derive(Clone, Copy, Debug, PartialEq, Eq, Structural)]
pub struct DateRange {
    pub start: Date,
    pub end: Date,
}

/// 2023-01-01, the first day of the window used before any range is set.
pub const DEFAULT_START_DAY: i32 = 738521;

/// 2023-01-31, the last day of the window used before any range is set.
pub const DEFAULT_END_DAY: i32 = 738551;

impl DateRange {
    pub open spec fn spec_contains(self, d: Date) -> bool {
        self.start.day() <= d.day() <= self.end.day()
    }

    /// The number of days in the range.
    pub open spec fn day_count(self) -> nat {
        if self.end.day() < self.start.day() {
            0
        } else {
            (self.end.day() - self.start.day() + 1) as nat
        }
    }

    pub open spec fn spec_default_window() -> DateRange {
        DateRange {
            start: Date { days_from_ce: DEFAULT_START_DAY },
            end: Date { days_from_ce: DEFAULT_END_DAY },
        }
    }

    /// The window of January 2023, in force until a range is set.
    pub fn default_window() -> (r: DateRange)
        ensures
            r == Self::spec_default_window(),
    {
        DateRange {
            start: Date { days_from_ce: DEFAULT_START_DAY },
            end: Date { days_from_ce: DEFAULT_END_DAY },
        }
    }

    /// Whether `date` lies between `start` and `end`, both included.
    pub fn contains(&self, date: &Date) -> (r: bool)
        ensures
            r == self.spec_contains(*date),
    {
        self.start.days_from_ce <= date.days_from_ce && date.days_from_ce <= self.end.days_from_ce
    }
}

impl Default for DateRange {
    fn default() -> (r: DateRange)
        ensures
            r.start.days_from_ce == UNIX_EPOCH_DAY,
            r.end.days_from_ce == UNIX_EPOCH_DAY,
    {
        DateRange { start: Date::default(), end: Date::default() }
    }
}

impl From<(Date, Date)> for DateRange {
    fn from(value: (Date, Date)) -> (r: DateRange)
        ensures
            r.start == value.0,
            r.end == value.1,
    {
        DateRange { start: value.0, end: value.1 }
    }
}

impl vstd::std_specs::convert::FromSpecImpl<(Date, Date)> for DateRange {
    open spec fn obeys_from_spec() -> bool {
        true
    }

    open spec fn from_spec(value: (Date, Date)) -> DateRange {
        DateRange { start: value.0, end: value.1 }
    }
}

} // verus!
