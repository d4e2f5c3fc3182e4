//! Dates, times of day and offsets from UTC, as the line format writes them.
use vstd::prelude::*;
use crate::text::{append, padded, push_padded, string_of};

verus! {

/// Whether `year` is a leap year of the Gregorian calendar.
pub open spec fn is_leap_year(year: int) -> bool {
    year % 4 == 0 && (year % 100 != 0 || year % 400 == 0)
}

/// The number of days of `month` in `year`; zero where there is no such month.
pub open spec fn days_in_month(year: int, month: int) -> int {
    if month == 2 {
        if is_leap_year(year) {
            29
        } else {
            28
        }
    } else if month == 4 || month == 6 || month == 9 || month == 11 {
        30
    } else if 1 <= month <= 12 {
        31
    } else {
        0
    }
}

/// What a [`Date`] stands for.
pub struct DateView {
    pub year: int,
    pub month: int,
    pub day: int,
}

impl DateView {
    /// A day that the calendar has, in a year other than zero.
    pub open spec fn valid(self) -> bool {
        self.year != 0 && 1 <= self.day <= days_in_month(self.year, self.month)
    }

    /// `YYYY-MM-DD`.
    pub open spec fn text(self) -> Seq<char> {
        padded(self.year as nat, 4) + seq!['-'] + padded(self.month as nat, 2) + seq!['-']
            + padded(self.day as nat, 2)
    }
}

/// What a [`Time`] stands for.
pub struct TimeView {
    pub hour: int,
    pub minute: int,
    pub second: int,
    pub nanosecond: int,
}

/// `s` without the zeros at its end.
pub open spec fn trim_zeros(s: Seq<char>) -> Seq<char>
    decreases s.len(),
{
    if s.len() > 0 && s.last() == '0' {
        trim_zeros(s.drop_last())
    } else {
        s
    }
}

impl TimeView {
    /// An hour up to 24, a minute up to 59, a second up to 60 (a leap
    /// second), and a fraction below `10^10` nanoseconds.
    pub open spec fn valid(self) -> bool {
        self.hour <= 24 && self.minute <= 59 && self.second <= 60 && self.nanosecond
            < 10_000_000_000
    }

    /// The fraction of a second: nothing for zero, otherwise a point and the
    /// nanoseconds in at least nine digits without the zeros at their end.
    pub open spec fn fraction_text(self) -> Seq<char> {
        if self.nanosecond == 0 {
            Seq::empty()
        } else {
            seq!['.'] + trim_zeros(padded(self.nanosecond as nat, 9))
        }
    }

    /// `HH:MM:SS` and the fraction.
    pub open spec fn text(self) -> Seq<char> {
        padded(self.hour as nat, 2) + seq![':'] + padded(self.minute as nat, 2) + seq![':']
            + padded(self.second as nat, 2) + self.fraction_text()
    }
}

/// What an [`Offset`] stands for.
pub struct OffsetView {
    pub hour: int,
    pub minute: int,
}

impl OffsetView {
    /// From `-12:59` to `+13:59`, or exactly `+14:00`.
    pub open spec fn valid(self) -> bool {
        (-12 <= self.hour <= 13 && self.minute < 60) || (self.hour == 14 && self.minute == 0)
    }

    /// `Z` for no offset, otherwise the sign and `HH:MM`.
    pub open spec fn text(self) -> Seq<char> {
        if self.hour == 0 && self.minute == 0 {
            seq!['Z']
        } else if self.hour < 0 {
            seq!['-'] + padded((-self.hour) as nat, 2) + seq![':'] + padded(self.minute as nat, 2)
        } else {
            seq!['+'] + padded(self.hour as nat, 2) + seq![':'] + padded(self.minute as nat, 2)
        }
    }
}

/// What a [`DateTime`] stands for.
pub struct DateTimeView {
    pub date: Option<DateView>,
    pub time: Option<TimeView>,
    pub offset: Option<OffsetView>,
}

impl DateTimeView {
    /// An offset stands only beside both a date and a time.
    pub open spec fn consistent(self) -> bool {
        self.offset is Some ==> self.date is Some && self.time is Some
    }

    /// Consistent, and each part that is there is valid.
    pub open spec fn valid(self) -> bool {
        &&& self.consistent()
        &&& self.date matches Some(d) ==> d.valid()
        &&& self.time matches Some(t) ==> t.valid()
        &&& self.offset matches Some(o) ==> o.valid()
    }

    /// The date, `T` between a date and a time, the time, the offset.
    pub open spec fn text(self) -> Seq<char> {
        (match self.date {
            Some(d) => d.text(),
            None => Seq::empty(),
        }) + (match self.time {
            Some(t) => (if self.date is Some {
                seq!['T']
            } else {
                Seq::empty()
            }) + t.text(),
            None => Seq::empty(),
        }) + (match self.offset {
            Some(o) => o.text(),
            None => Seq::empty(),
        })
    }
}

/// A calendar date.
#[derive(Copy, Clone, Debug, PartialEq, Eq)]
pub struct Date {
    year: u16,
    month: u8,
    day: u8,
}

impl View for Date {
    type V = DateView;

    closed spec fn view(&self) -> DateView {
        DateView { year: self.year as int, month: self.month as int, day: self.day as int }
    }
}

impl Date {
    /// Every date is one that the calendar has.
    #[verifier::type_invariant]
    closed spec fn inv(self) -> bool {
        self@.valid()
    }

    /// The date, where the calendar has it.
    pub fn new(year: u16, month: u8, day: u8) -> (r: Result<Self, ()>)
        ensures
            r is Ok <==> (DateView {
                year: year as int,
                month: month as int,
                day: day as int,
            }).valid(),
            r matches Ok(d) ==> d@ == (DateView {
                year: year as int,
                month: month as int,
                day: day as int,
            }),
    {
        if year == 0 || day == 0 {
            return Err(());
        }
        let leap_year = year % 4 == 0 && (year % 100 != 0 || year % 400 == 0);
        let max_day: u8 = if month == 2 {
            if leap_year {
                29
            } else {
                28
            }
        } else if month == 4 || month == 6 || month == 9 || month == 11 {
            30
        } else if 1 <= month && month <= 12 {
            31
        } else {
            return Err(());
        };
        if day <= max_day {
            Ok(Date { year, month, day })
        } else {
            Err(())
        }
    }

    /// The year.
    pub fn year(&self) -> (r: u16)
        ensures
            r as int == self@.year,
            self@.valid(),
    {
        proof {
            use_type_invariant(self);
        }
        self.year
    }

    /// The month, from 1 to 12.
    pub fn month(&self) -> (r: u8)
        ensures
            r as int == self@.month,
    {
        self.month
    }

    /// The day of the month, from 1 on.
    pub fn day(&self) -> (r: u8)
        ensures
            r as int == self@.day,
    {
        self.day
    }

    /// Appends `YYYY-MM-DD`.
    pub fn write(&self, buf: &mut Vec<char>)
        ensures
            final(buf)@ == old(buf)@ + self@.text(),
    {
        push_padded(buf, self.year as u64, 4);
        buf.push('-');
        push_padded(buf, self.month as u64, 2);
        buf.push('-');
        push_padded(buf, self.day as u64, 2);
        assert(buf@ =~= old(buf)@ + self@.text());
    }

    /// `YYYY-MM-DD`.
    pub fn render(&self) -> (s: String)
        ensures
            s@ == self@.text(),
    {
        let mut buf: Vec<char> = Vec::new();
        self.write(&mut buf);
        assert(buf@ =~= self@.text());
        string_of(&buf)
    }
}

/// A time of day.
#[derive(Copy, Clone, Debug, PartialEq, Eq)]
pub struct Time {
    hour: u8,
    minute: u8,
    second: u8,
    nanosecond: u32,
}

impl View for Time {
    type V = TimeView;

    closed spec fn view(&self) -> TimeView {
        TimeView {
            hour: self.hour as int,
            minute: self.minute as int,
            second: self.second as int,
            nanosecond: self.nanosecond as int,
        }
    }
}

impl Time {
    /// Every time has each part in its range.
    #[verifier::type_invariant]
    closed spec fn inv(self) -> bool {
        self@.valid()
    }

    /// The time, where each part is in its range.
    pub fn new(hour: u8, minute: u8, second: u8, nanosecond: u32) -> (r: Result<Self, ()>)
        ensures
            r is Ok <==> (TimeView {
                hour: hour as int,
                minute: minute as int,
                second: second as int,
                nanosecond: nanosecond as int,
            }).valid(),
            r matches Ok(t) ==> t@ == (TimeView {
                hour: hour as int,
                minute: minute as int,
                second: second as int,
                nanosecond: nanosecond as int,
            }),
    {
        if hour <= 24 && minute <= 59 && second <= 60 && (nanosecond as u64) < 10_000_000_000u64 {
            Ok(Time { hour, minute, second, nanosecond })
        } else {
            Err(())
        }
    }

    /// The hour, up to 24.
    pub fn hour(&self) -> (r: u8)
        ensures
            r as int == self@.hour,
            self@.valid(),
    {
        proof {
            use_type_invariant(self);
        }
        self.hour
    }

    /// The minute, up to 59.
    pub fn minute(&self) -> (r: u8)
        ensures
            r as int == self@.minute,
    {
        self.minute
    }

    /// The second, up to 60.
    pub fn second(&self) -> (r: u8)
        ensures
            r as int == self@.second,
    {
        self.second
    }

    /// The fraction of the second, in nanoseconds.
    pub fn nanosecond(&self) -> (r: u32)
        ensures
            r as int == self@.nanosecond,
    {
        self.nanosecond
    }

    /// Appends `HH:MM:SS` and the fraction of a second.
    pub fn write(&self, buf: &mut Vec<char>)
        ensures
            final(buf)@ == old(buf)@ + self@.text(),
    {
        push_padded(buf, self.hour as u64, 2);
        buf.push(':');
        push_padded(buf, self.minute as u64, 2);
        buf.push(':');
        push_padded(buf, self.second as u64, 2);
        if self.nanosecond != 0 {
            buf.push('.');
            let mut digits: Vec<char> = Vec::new();
            push_padded(&mut digits, self.nanosecond as u64, 9);
            assert(digits@ =~= padded(self.nanosecond as nat, 9));
            while digits.len() > 0 && digits[digits.len() - 1] == '0'
                invariant
                    trim_zeros(digits@) == trim_zeros(padded(self.nanosecond as nat, 9)),
                decreases digits.len(),
            {
                digits.pop();
            }
            append(buf, &digits);
        }
        assert(buf@ =~= old(buf)@ + self@.text());
    }

    /// `HH:MM:SS` and the fraction of a second.
    pub fn render(&self) -> (s: String)
        ensures
            s@ == self@.text(),
    {
        let mut buf: Vec<char> = Vec::new();
        self.write(&mut buf);
        assert(buf@ =~= self@.text());
        string_of(&buf)
    }
}

/// An offset from UTC.
#[derive(Copy, Clone, Debug, PartialEq, Eq)]
pub struct Offset {
    hour: i8,
    minute: u8,
}

impl View for Offset {
    type V = OffsetView;

    closed spec fn view(&self) -> OffsetView {
        OffsetView { hour: self.hour as int, minute: self.minute as int }
    }
}

impl Offset {
    /// Every offset is in range.
    #[verifier::type_invariant]
    closed spec fn inv(self) -> bool {
        self@.valid()
    }

    /// The offset, where it is in range.
    pub fn new(hour: i8, minute: u8) -> (r: Result<Self, ()>)
        ensures
            r is Ok <==> (OffsetView { hour: hour as int, minute: minute as int }).valid(),
            r matches Ok(o) ==> o@ == (OffsetView { hour: hour as int, minute: minute as int }),
    {
        if (-12 <= hour && hour <= 13 && minute < 60) || (hour == 14 && minute == 0) {
            Ok(Offset { hour, minute })
        } else {
            Err(())
        }
    }

    /// The hours of the offset, with its sign.
    pub fn hour(&self) -> (r: i8)
        ensures
            r as int == self@.hour,
            self@.valid(),
    {
        proof {
            use_type_invariant(self);
        }
        self.hour
    }

    /// The minutes of the offset.
    pub fn minute(&self) -> (r: u8)
        ensures
            r as int == self@.minute,
    {
        self.minute
    }

    /// Appends `Z`, or the sign and `HH:MM`.
    pub fn write(&self, buf: &mut Vec<char>)
        ensures
            final(buf)@ == old(buf)@ + self@.text(),
    {
        if self.hour == 0 && self.minute == 0 {
            buf.push('Z');
        } else {
            if self.hour < 0 {
                buf.push('-');
                push_padded(buf, (-(self.hour as i16)) as u64, 2);
            } else {
                buf.push('+');
                push_padded(buf, self.hour as u64, 2);
            }
            buf.push(':');
            push_padded(buf, self.minute as u64, 2);
        }
        assert(buf@ =~= old(buf)@ + self@.text());
    }

    /// `Z`, or the sign and `HH:MM`.
    pub fn render(&self) -> (s: String)
        ensures
            s@ == self@.text(),
    {
        let mut buf: Vec<char> = Vec::new();
        self.write(&mut buf);
        assert(buf@ =~= self@.text());
        string_of(&buf)
    }
}

/// A date, a time of day, or both, the two optionally with an offset.
#[derive(Copy, Clone, Debug, PartialEq, Eq)]
pub struct DateTime {
    date: Option<Date>,
    time: Option<Time>,
    offset: Option<Offset>,
}

impl View for DateTime {
    type V = DateTimeView;

    closed spec fn view(&self) -> DateTimeView {
        parts_view(self.date, self.time, self.offset)
    }
}

/// The view of a date that may be missing.
pub open spec fn date_view(date: Option<Date>) -> Option<DateView> {
    match date {
        Some(d) => Some(d@),
        None => None,
    }
}

/// The view of a time that may be missing.
pub open spec fn time_view(time: Option<Time>) -> Option<TimeView> {
    match time {
        Some(t) => Some(t@),
        None => None,
    }
}

/// The view of an offset that may be missing.
pub open spec fn offset_view(offset: Option<Offset>) -> Option<OffsetView> {
    match offset {
        Some(o) => Some(o@),
        None => None,
    }
}

/// The views of the three parts, put together.
pub open spec fn parts_view(
    date: Option<Date>,
    time: Option<Time>,
    offset: Option<Offset>,
) -> DateTimeView {
    DateTimeView { date: date_view(date), time: time_view(time), offset: offset_view(offset) }
}

impl DateTime {
    /// Every date and time is consistent, with each part valid.
    #[verifier::type_invariant]
    closed spec fn inv(self) -> bool {
        self@.valid()
    }

    /// The three parts together, unless an offset comes without a date or
    /// without a time.
    pub fn new(date: Option<Date>, time: Option<Time>, offset: Option<Offset>) -> (r: Result<
        Self,
        (),
    >)
        ensures
            r is Ok <==> parts_view(date, time, offset).consistent(),
            r matches Ok(d) ==> d@ == parts_view(date, time, offset) && d@.valid(),
    {
        proof {
            if let Some(d) = date {
                use_type_invariant(d);
            }
            if let Some(t) = time {
                use_type_invariant(t);
            }
            if let Some(o) = offset {
                use_type_invariant(o);
            }
        }
        if offset.is_some() && (date.is_none() || time.is_none()) {
            Err(())
        } else {
            Ok(DateTime { date, time, offset })
        }
    }

    /// The date, where there is one.
    pub fn date(&self) -> (r: Option<Date>)
        ensures
            date_view(r) == self@.date,
            self@.valid(),
    {
        proof {
            use_type_invariant(self);
        }
        self.date
    }

    /// The time, where there is one.
    pub fn time(&self) -> (r: Option<Time>)
        ensures
            time_view(r) == self@.time,
    {
        self.time
    }

    /// The offset, where there is one.
    pub fn offset(&self) -> (r: Option<Offset>)
        ensures
            offset_view(r) == self@.offset,
    {
        self.offset
    }

    /// Appends the date, `T` between a date and a time, the time, the offset.
    pub fn write(&self, buf: &mut Vec<char>)
        ensures
            final(buf)@ == old(buf)@ + self@.text(),
    {
        if let Some(date) = self.date {
            date.write(buf);
        }
        if let Some(time) = self.time {
            if self.date.is_some() {
                buf.push('T');
            }
            time.write(buf);
        }
        if let Some(offset) = self.offset {
            offset.write(buf);
        }
        assert(buf@ =~= old(buf)@ + self@.text());
    }

    /// The date, `T` between a date and a time, the time, the offset.
    pub fn render(&self) -> (s: String)
        ensures
            s@ == self@.text(),
    {
        let mut buf: Vec<char> = Vec::new();
        self.write(&mut buf);
        assert(buf@ =~= self@.text());
        string_of(&buf)
    }
}

} // verus!
