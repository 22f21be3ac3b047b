use vstd::prelude::*;

verus! {

/// A calendar date in the proleptic Gregorian calendar, restricted to the
/// years 0 through 9999 so that it always has a four-digit year form.
#[derive(Clone, Copy, PartialEq, Eq, Structural, Debug, Hash)]
pub struct Date {
    pub year: u16,
    pub month: u8,
    pub day: u8,
}

pub open spec fn leap_year(y: int) -> bool {
    y % 4 == 0 && (y % 100 != 0 || y % 400 == 0)
}

pub open spec fn days_in_month(y: int, m: int) -> int {
    if m == 2 {
        if leap_year(y) {
            29
        } else {
            28
        }
    } else if m == 4 || m == 6 || m == 9 || m == 11 {
        30
    } else {
        31
    }
}

/// Strict calendar order: year, then month, then day.
pub open spec fn date_lt(a: Date, b: Date) -> bool {
    ||| a.year < b.year
    ||| (a.year == b.year && a.month < b.month)
    ||| (a.year == b.year && a.month == b.month && a.day < b.day)
}

pub open spec fn date_le(a: Date, b: Date) -> bool {
    date_lt(a, b) || a == b
}

impl Date {
    pub open spec fn valid(self) -> bool {
        &&& self.year <= 9999
        &&& 1 <= self.month <= 12
        &&& 1 <= self.day <= days_in_month(self.year as int, self.month as int)
    }

    /// The day after `self`, or `None` past the last representable date.
    pub open spec fn spec_next_day(self) -> Option<Date> {
        if self.day < days_in_month(self.year as int, self.month as int) {
            Some(Date { year: self.year, month: self.month, day: (self.day + 1) as u8 })
        } else if self.month < 12 {
            Some(Date { year: self.year, month: (self.month + 1) as u8, day: 1 })
        } else if self.year < 9999 {
            Some(Date { year: (self.year + 1) as u16, month: 1, day: 1 })
        } else {
            None
        }
    }

    /// The day before `self`, or `None` before the first representable date.
    pub open spec fn spec_prev_day(self) -> Option<Date> {
        if self.day > 1 {
            Some(Date { year: self.year, month: self.month, day: (self.day - 1) as u8 })
        } else if self.month > 1 {
            Some(
                Date {
                    year: self.year,
                    month: (self.month - 1) as u8,
                    day: days_in_month(self.year as int, self.month as int - 1) as u8,
                },
            )
        } else if self.year > 0 {
            Some(Date { year: (self.year - 1) as u16, month: 12, day: 31 })
        } else {
            None
        }
    }

    /// The date `n` days after `self`, where every intermediate day must be
    /// representable.
    pub open spec fn spec_add_days(self, n: nat) -> Option<Date>
        decreases n,
    {
        if n == 0 {
            Some(self)
        } else {
            match self.spec_next_day() {
                Some(d) => d.spec_add_days((n - 1) as nat),
                None => None,
            }
        }
    }

    /// The date `n` days before `self`, where every intermediate day must be
    /// representable.
    pub open spec fn spec_sub_days(self, n: nat) -> Option<Date>
        decreases n,
    {
        if n == 0 {
            Some(self)
        } else {
            match self.spec_prev_day() {
                Some(d) => d.spec_sub_days((n - 1) as nat),
                None => None,
            }
        }
    }

    pub fn is_valid(&self) -> (r: bool)
        ensures
            r == self.valid(),
    {
        self.year <= 9999 && 1 <= self.month && self.month <= 12 && 1 <= self.day
            && self.day <= days_in_month_exec(self.year, self.month)
    }

    /// Strict order: `self` falls before `other` in the calendar.
    pub fn before(&self, other: &Date) -> (r: bool)
        ensures
            r == date_lt(*self, *other),
    {
        self.year < other.year || (self.year == other.year && self.month < other.month) || (
        self.year == other.year && self.month == other.month && self.day < other.day)
    }

    /// Inclusive order: `self` falls on or before `other` in the calendar.
    pub fn on_or_before(&self, other: &Date) -> (r: bool)
        ensures
            r == date_le(*self, *other),
    {
        self.before(other) || (self.year == other.year && self.month == other.month && self.day
            == other.day)
    }

    pub fn next_day(&self) -> (r: Option<Date>)
        requires
            self.valid(),
        ensures
            r == self.spec_next_day(),
            r matches Some(d) ==> d.valid(),
    {
        if self.day < days_in_month_exec(self.year, self.month) {
            Some(Date { year: self.year, month: self.month, day: self.day + 1 })
        } else if self.month < 12 {
            Some(Date { year: self.year, month: self.month + 1, day: 1 })
        } else if self.year < 9999 {
            Some(Date { year: self.year + 1, month: 1, day: 1 })
        } else {
            None
        }
    }

    pub fn prev_day(&self) -> (r: Option<Date>)
        requires
            self.valid(),
        ensures
            r == self.spec_prev_day(),
            r matches Some(d) ==> d.valid(),
    {
        if self.day > 1 {
            Some(Date { year: self.year, month: self.month, day: self.day - 1 })
        } else if self.month > 1 {
            Some(
                Date {
                    year: self.year,
                    month: self.month - 1,
                    day: days_in_month_exec(self.year, self.month - 1),
                },
            )
        } else if self.year > 0 {
            Some(Date { year: self.year - 1, month: 12, day: 31 })
        } else {
            None
        }
    }

    /// The date `n` days later, or `None` when that would pass the last
    /// representable date.
    pub fn checked_add_days(&self, n: u64) -> (r: Option<Date>)
        requires
            self.valid(),
        ensures
            r == self.spec_add_days(n as nat),
            r matches Some(d) ==> d.valid(),
    {
        let mut cur: Date = *self;
        let mut i: u64 = 0;
        while i < n
            invariant
                i <= n,
                cur.valid(),
                self.spec_add_days(n as nat) == cur.spec_add_days((n - i) as nat),
            decreases n - i,
        {
            match cur.next_day() {
                Some(d) => {
                    cur = d;
                    i = i + 1;
                },
                None => {
                    return None;
                },
            }
        }
        Some(cur)
    }

    /// The date `n` days earlier, or `None` when that would pass the first
    /// representable date.
    pub fn checked_sub_days(&self, n: u64) -> (r: Option<Date>)
        requires
            self.valid(),
        ensures
            r == self.spec_sub_days(n as nat),
            r matches Some(d) ==> d.valid(),
    {
        let mut cur: Date = *self;
        let mut i: u64 = 0;
        while i < n
            invariant
                i <= n,
                cur.valid(),
                self.spec_sub_days(n as nat) == cur.spec_sub_days((n - i) as nat),
            decreases n - i,
        {
            match cur.prev_day() {
                Some(d) => {
                    cur = d;
                    i = i + 1;
                },
                None => {
                    return None;
                },
            }
        }
        Some(cur)
    }
}

pub fn days_in_month_exec(y: u16, m: u8) -> (r: u8)
    ensures
        r == days_in_month(y as int, m as int),
{
    if m == 2 {
        if y % 4 == 0 && (y % 100 != 0 || y % 400 == 0) {
            29
        } else {
            28
        }
    } else if m == 4 || m == 6 || m == 9 || m == 11 {
        30
    } else {
        31
    }
}

/// Relies on chrono::Local::now and chrono::Datelike: the current local
/// calendar date, whose month ranges over 1 to 12 and whose day ranges over
/// 1 to 31.
#[verifier::external_body]
fn today_ymd() -> (r: (i32, u8, u8))
    ensures
        1 <= r.1 <= 12,
        1 <= r.2 <= 31,
{
    let d = chrono::Local::now().date_naive();
    (
        chrono::Datelike::year(&d),
        chrono::Datelike::month(&d) as u8,
        chrono::Datelike::day(&d) as u8,
    )
}

/// The date for a year, month and day given as plain numbers: `Some`
/// exactly when the year fits four digits and the triple is a real
/// calendar date.
pub fn date_from_ymd(y: i32, m: u8, d: u8) -> (r: Option<Date>)
    ensures
        r is Some <==> (0 <= y <= 9999 && (Date { year: y as u16, month: m, day: d }).valid()),
        (r matches Some(dd) ==> dd == (Date { year: y as u16, month: m, day: d })),
{
    if 0 <= y && y <= 9999 {
        let date = Date { year: y as u16, month: m, day: d };
        if date.is_valid() {
            Some(date)
        } else {
            None
        }
    } else {
        None
    }
}

/// Today's local calendar date, or `None` when the clock falls outside the
/// representable years 0 through 9999.
pub fn today() -> (r: Option<Date>)
    ensures
        r matches Some(d) ==> d.valid(),
{
    let (y, m, d) = today_ymd();
    date_from_ymd(y, m, d)
}

} // verus!
