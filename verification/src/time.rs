//! Calendar dates and offset-aware date-times, held as plain numbers.
//!
//! A [`Date`] is a day of the proleptic Gregorian calendar; a [`DateTime`] is a
//! wall-clock reading together with its offset from UTC. Both keep their fields
//! private and carry a type invariant, so every value that executable code can
//! hold is one that `chrono` can represent too. Days are counted as `chrono`
//! counts them, with 1 January of the year 1 as day 1.

use chrono::{Datelike, NaiveDate, Timelike, Utc};
use vstd::arithmetic::div_mod::{lemma_hoist_over_denominator, lemma_mod_multiples_vanish};
use vstd::prelude::*;

verus! {

/// The earliest year a [`Date`] can lie in.
pub const MIN_YEAR: i32 = -262143;

/// The latest year a [`Date`] can lie in.
pub const MAX_YEAR: i32 = 262142;

/// The number of seconds in a day.
pub const SECONDS_PER_DAY: i64 = 86400;

/// Whether `year` is a leap year of the proleptic Gregorian calendar.
pub open spec fn is_leap_year(year: int) -> bool {
    year % 4 == 0 && (year % 100 != 0 || year % 400 == 0)
}

/// The number of days in the given month; 31 for a month outside 1..=12.
pub open spec fn days_in_month(year: int, month: int) -> int {
    if month == 2 {
        if is_leap_year(year) {
            29
        } else {
            28
        }
    } else if month == 4 || month == 6 || month == 9 || month == 11 {
        30
    } else {
        31
    }
}

/// The number of days in all the years from the year 1 up to, but without,
/// `year`; negative for the years before the year 1.
pub open spec fn days_before_year(year: int) -> int {
    365 * (year - 1) + (year - 1) / 4 - (year - 1) / 100 + (year - 1) / 400
}

/// The number of days in the months of `year` before `month`.
pub open spec fn days_before_month(year: int, month: int) -> int
    decreases month,
{
    if month <= 1 {
        0
    } else {
        days_before_month(year, month - 1) + days_in_month(year, month - 1)
    }
}

/// The number of the day in the proleptic Gregorian calendar, where 1 January
/// of the year 1 is day 1.
pub open spec fn days_from_ce(year: int, month: int, day: int) -> int {
    days_before_year(year) + days_before_month(year, month) + day
}

/// The English name of the month, a space and the year, as `chrono` formats
/// them with `"%B %Y"`.
pub uninterp spec fn month_year_text(year: int, month: int) -> Seq<char>;

/// The year, month and day that `chrono` reads from a text of the form
/// `"%Y%m%d"`, if it reads a date from it.
pub uninterp spec fn compact_date(text: Seq<char>) -> Option<(i32, u32, u32)>;

/// What a [`Date`] stands for.
pub ghost struct DateView {
    pub year: int,
    pub month: int,
    pub day: int,
}

impl DateView {
    /// The day exists in the calendar and its year is within range.
    pub open spec fn is_valid(self) -> bool {
        &&& MIN_YEAR <= self.year <= MAX_YEAR
        &&& 1 <= self.month <= 12
        &&& 1 <= self.day <= days_in_month(self.year, self.month)
    }

    /// `self` is an earlier day than `other`.
    pub open spec fn precedes(self, other: DateView) -> bool {
        ||| self.year < other.year
        ||| self.year == other.year && self.month < other.month
        ||| self.year == other.year && self.month == other.month && self.day < other.day
    }

    /// The day's number, counted from 1 January of the year 1.
    pub open spec fn day_number(self) -> int {
        days_from_ce(self.year, self.month, self.day)
    }

    /// The moment at which the day begins in UTC.
    pub open spec fn midnight(self) -> Moment {
        Moment { seconds: self.day_number() * SECONDS_PER_DAY, nanosecond: 0 }
    }

    /// The moment at which the following day begins in UTC.
    pub open spec fn next_midnight(self) -> Moment {
        Moment { seconds: (self.day_number() + 1) * SECONDS_PER_DAY, nanosecond: 0 }
    }
}

/// The date read from a text of the form `"%Y%m%d"`, if one is read and it
/// is a day of the calendar.
pub open spec fn date_read(text: Seq<char>) -> Option<DateView> {
    match compact_date(text) {
        Some((year, month, day)) => {
            let date = DateView { year: year as int, month: month as int, day: day as int };
            if date.is_valid() {
                Some(date)
            } else {
                None
            }
        },
        None => None,
    }
}

/// The number of days in `year`.
pub open spec fn days_in_year(year: int) -> int {
    if is_leap_year(year) {
        366
    } else {
        365
    }
}

/// From one year to the next, one more multiple of `step` has gone by if the
/// year is such a multiple, and none otherwise.
#[verifier::spinoff_prover]
proof fn lemma_multiples_gone_by(year: int, step: int)
    requires
        step == 4 || step == 100 || step == 400,
    ensures
        year / step == (year - 1) / step + if year % step == 0 {
            1int
        } else {
            0int
        },
{
}

/// A multiple of 400 is a multiple of 100, and a multiple of 100 is one of 4.
#[verifier::spinoff_prover]
proof fn lemma_multiples_nest(year: int)
    ensures
        year % 400 == 0 ==> year % 100 == 0,
        year % 100 == 0 ==> year % 4 == 0,
{
}

/// A year begins as many days after the one before as that one has days.
#[verifier::spinoff_prover]
pub proof fn lemma_year_length(year: int)
    ensures
        days_before_year(year + 1) == days_before_year(year) + days_in_year(year),
{
    lemma_multiples_gone_by(year, 4);
    lemma_multiples_gone_by(year, 100);
    lemma_multiples_gone_by(year, 400);
    lemma_multiples_nest(year);
}

/// The months of a year have as many days together as the year.
pub proof fn lemma_months_fill_year(year: int)
    ensures
        days_before_month(year, 13) == days_in_year(year),
{
    reveal_with_fuel(days_before_month, 14);
}

/// Later years begin later.
pub proof fn lemma_years_ascend(first: int, second: int)
    requires
        first <= second,
    ensures
        days_before_year(first) + 365 * (second - first) <= days_before_year(second),
    decreases second - first,
{
    if first < second {
        lemma_years_ascend(first, second - 1);
        lemma_year_length(second - 1);
    }
}

/// Later months begin later, and the last one ends with the year.
pub proof fn lemma_months_ascend(year: int, first: int, second: int)
    requires
        1 <= first <= second <= 13,
    ensures
        days_before_month(year, first) <= days_before_month(year, second),
        first < second ==> days_before_month(year, first) + days_in_month(year, first)
            <= days_before_month(year, second),
    decreases second - first,
{
    if first < second {
        lemma_months_ascend(year, first, second - 1);
    }
}

/// The days of the calendar are numbered in their order: an earlier day has
/// a lower number, and different days have different numbers.
pub proof fn lemma_day_numbers_ascend(first: DateView, second: DateView)
    requires
        first.is_valid(),
        second.is_valid(),
    ensures
        first.precedes(second) <==> first.day_number() < second.day_number(),
        first == second <==> first.day_number() == second.day_number(),
{
    if first.precedes(second) {
        lemma_earlier_day_has_lower_number(first, second);
    } else if second.precedes(first) {
        lemma_earlier_day_has_lower_number(second, first);
    }
}

/// An earlier day has a lower number.
proof fn lemma_earlier_day_has_lower_number(first: DateView, second: DateView)
    requires
        first.is_valid(),
        second.is_valid(),
        first.precedes(second),
    ensures
        first.day_number() < second.day_number(),
{
    if first.year < second.year {
        lemma_months_ascend(first.year, first.month, 13);
        lemma_months_fill_year(first.year);
        lemma_year_length(first.year);
        lemma_years_ascend(first.year + 1, second.year);
        lemma_months_ascend(second.year, 1, second.month);
    } else if first.month < second.month {
        lemma_months_ascend(first.year, first.month, second.month);
    }
}

/// A day of the proleptic Gregorian calendar, without a time zone.
#[derive(Clone, Copy, Debug, PartialEq, Eq, Structural, Hash, PartialOrd, Ord)]
pub struct Date {
    year: i32,
    month: u32,
    day: u32,
}

impl View for Date {
    type V = DateView;

    closed spec fn view(&self) -> DateView {
        DateView { year: self.year as int, month: self.month as int, day: self.day as int }
    }
}

impl DeepView for Date {
    type V = DateView;

    open spec fn deep_view(&self) -> DateView {
        self@
    }
}

/// Whether `year` is a leap year.
#[verifier::spinoff_prover]
pub fn leap_year(year: i32) -> (leap: bool)
    ensures
        leap == is_leap_year(year as int),
{
    // Shifted by a multiple of 400, the year is not negative and keeps its remainders.
    let shifted: i64 = year as i64 + 2_147_484_000;
    proof {
        lemma_mod_multiples_vanish(536_871_000, year as int, 4);
        lemma_mod_multiples_vanish(21_474_840, year as int, 100);
        lemma_mod_multiples_vanish(5_368_710, year as int, 400);
        assert(shifted == 4 * 536_871_000 + year);
        assert(shifted == 100 * 21_474_840 + year);
        assert(shifted == 400 * 5_368_710 + year);
    }
    shifted % 4 == 0 && (shifted % 100 != 0 || shifted % 400 == 0)
}

/// The number of days in the given month of the given year.
pub fn month_length(year: i32, month: u32) -> (days: u32)
    ensures
        days == days_in_month(year as int, month as int),
{
    if month == 2 {
        if leap_year(year) {
            29
        } else {
            28
        }
    } else if month == 4 || month == 6 || month == 9 || month == 11 {
        30
    } else {
        31
    }
}

/// The number of days in the months of `year` before `month`.
pub fn days_until_month(year: i32, month: u32) -> (days: u32)
    requires
        1 <= month <= 12,
    ensures
        days == days_before_month(year as int, month as int),
        days <= 31 * (month - 1),
{
    let mut days: u32 = 0;
    let mut next: u32 = 1;
    while next < month
        invariant
            1 <= next <= month <= 12,
            days == days_before_month(year as int, next as int),
            days <= 31 * (next - 1),
        decreases month - next,
    {
        days += month_length(year, next);
        next += 1;
    }
    days
}

impl Date {
    /// Holds of every value that executable code can have.
    #[verifier::type_invariant]
    pub open spec fn well_formed(self) -> bool {
        self@.is_valid()
    }

    /// The date with the given year, month and day, if there is such a day.
    pub fn new(year: i32, month: u32, day: u32) -> (date: Option<Date>)
        ensures
            date is Some <==> (DateView {
                year: year as int,
                month: month as int,
                day: day as int,
            }).is_valid(),
            date matches Some(d) ==> d@ == (DateView {
                year: year as int,
                month: month as int,
                day: day as int,
            }),
    {
        if year < MIN_YEAR || year > MAX_YEAR || month < 1 || month > 12 || day < 1 {
            return None;
        }
        if day > month_length(year, month) {
            return None;
        }
        Some(Date { year, month, day })
    }

    /// The date with the given year, month and day, which must exist.
    pub fn from_ymd(year: i32, month: u32, day: u32) -> (date: Date)
        requires
            (DateView { year: year as int, month: month as int, day: day as int }).is_valid(),
        ensures
            date@ == (DateView { year: year as int, month: month as int, day: day as int }),
    {
        Date { year, month, day }
    }

    /// The year, where 0 is the year before the year 1.
    pub fn year(&self) -> (year: i32)
        ensures
            year == self@.year,
    {
        self.year
    }

    /// The month, from 1 for January to 12 for December.
    pub fn month(&self) -> (month: u32)
        ensures
            month == self@.month,
            1 <= month <= 12,
    {
        proof {
            use_type_invariant(self);
        }
        self.month
    }

    /// The day of the month, from 1.
    pub fn day(&self) -> (day: u32)
        ensures
            day == self@.day,
            1 <= day <= 31,
    {
        proof {
            use_type_invariant(self);
        }
        self.day
    }

    /// The first day of the month that the date lies in.
    pub fn first_of_month(&self) -> (first: Date)
        ensures
            first@ == (DateView { year: self@.year, month: self@.month, day: 1 }),
    {
        proof {
            use_type_invariant(self);
        }
        Date { year: self.year, month: self.month, day: 1 }
    }

    /// Whether the two dates are the same day.
    pub fn same_day(&self, other: &Date) -> (same: bool)
        ensures
            same == (self@ == other@),
    {
        self.year == other.year && self.month == other.month && self.day == other.day
    }

    /// Whether this date is an earlier day than `other`.
    pub fn is_before(&self, other: &Date) -> (before: bool)
        ensures
            before == self@.precedes(other@),
    {
        self.year < other.year || (self.year == other.year && (self.month < other.month || (
        self.month == other.month && self.day < other.day)))
    }

    /// The day's number, counted from 1 January of the year 1.
    #[verifier::spinoff_prover]
    pub fn day_number(&self) -> (number: i32)
        ensures
            number == self@.day_number(),
    {
        proof {
            use_type_invariant(self);
        }
        let before: i64 = self.year as i64 - 1;
        // Shifted by a multiple of 400, the years gone by are not negative,
        // and their quotients are those of `before`, shifted in turn.
        let shifted: i64 = before + 2_147_484_000;
        proof {
            lemma_hoist_over_denominator(before as int, 536_871_000, 4);
            lemma_hoist_over_denominator(before as int, 21_474_840, 100);
            lemma_hoist_over_denominator(before as int, 5_368_710, 400);
            assert(shifted == before + 536_871_000 * 4);
            assert(shifted == before + 21_474_840 * 100);
            assert(shifted == before + 5_368_710 * 400);
        }
        let fours: i64 = shifted / 4 - 536_871_000;
        let hundreds: i64 = shifted / 100 - 21_474_840;
        let four_hundreds: i64 = shifted / 400 - 5_368_710;
        let in_year: i64 = days_until_month(self.year, self.month) as i64 + self.day as i64;
        let days: i64 = 365 * before + fours - hundreds + four_hundreds + in_year;
        days as i32
    }

    /// The instant at which the day begins in UTC.
    pub fn midnight(&self) -> (instant: Instant)
        ensures
            instant@ == self@.midnight(),
    {
        let days: i64 = self.day_number() as i64;
        Instant { seconds: days * SECONDS_PER_DAY, nanosecond: 0 }
    }

    /// The instant at which the following day begins in UTC.
    pub fn next_midnight(&self) -> (instant: Instant)
        ensures
            instant@ == self@.next_midnight(),
    {
        let days: i64 = self.day_number() as i64;
        Instant { seconds: (days + 1) * SECONDS_PER_DAY, nanosecond: 0 }
    }
}

/// Calls `chrono::NaiveDate::format` with `"%B %Y"` on the first day of the
/// month. Trusted: the text returned is the one that `month_year_text` names.
#[verifier::external_body]
fn chrono_month_year(year: i32, month: u32) -> (text: String)
    requires
        MIN_YEAR <= year <= MAX_YEAR,
        1 <= month <= 12,
    ensures
        text@ == month_year_text(year as int, month as int),
{
    NaiveDate::from_ymd_opt(year, month, 1).expect("a calendar date").format("%B %Y").to_string()
}

/// Calls `chrono::NaiveDate::parse_from_str` with the format `"%Y%m%d"`.
/// Trusted: the year, month and day of the date read, or the failure to read
/// one, are what `compact_date` names.
#[verifier::external_body]
fn chrono_compact_date(text: &str) -> (parts: Option<(i32, u32, u32)>)
    ensures
        parts == compact_date(text@),
{
    NaiveDate::parse_from_str(text, "%Y%m%d").ok().map(
        |date| (date.year(), date.month(), date.day()),
    )
}

/// The date that a text of eight digits, such as "20210114", stands for.
pub fn parse_compact_date(text: &str) -> (date: Option<Date>)
    ensures
        date is Some <==> date_read(text@) is Some,
        date matches Some(d) ==> Some(d@) == date_read(text@),
{
    match chrono_compact_date(text) {
        Some((year, month, day)) => Date::new(year, month, day),
        None => None,
    }
}

/// The name of the month and the year of `date`, such as "January 2022".
pub fn month_year(date: &Date) -> (text: String)
    ensures
        text@ == month_year_text(date@.year, date@.month),
{
    proof {
        use_type_invariant(date);
    }
    chrono_month_year(date.year(), date.month())
}

/// A point on the UTC time line: whole seconds since the start of the day
/// numbered 0, and the nanoseconds past that second.
pub ghost struct Moment {
    pub seconds: int,
    pub nanosecond: int,
}

impl Moment {
    /// `self` is strictly earlier than `other`.
    pub open spec fn precedes(self, other: Moment) -> bool {
        self.seconds < other.seconds || (self.seconds == other.seconds && self.nanosecond
            < other.nanosecond)
    }

    /// `self` is not later than `other`.
    pub open spec fn not_after(self, other: Moment) -> bool {
        !other.precedes(self)
    }
}

/// A [`Moment`] in machine integers.
#[derive(Clone, Copy, Debug, PartialEq, Eq, Structural, Hash)]
pub struct Instant {
    pub seconds: i64,
    pub nanosecond: u32,
}

impl View for Instant {
    type V = Moment;

    open spec fn view(&self) -> Moment {
        Moment { seconds: self.seconds as int, nanosecond: self.nanosecond as int }
    }
}

impl Instant {
    /// Whether `self` is strictly earlier than `other`.
    pub fn is_before(&self, other: &Instant) -> (before: bool)
        ensures
            before == self@.precedes(other@),
    {
        self.seconds < other.seconds || (self.seconds == other.seconds && self.nanosecond
            < other.nanosecond)
    }
}

/// The moments that the instants stand for, in order.
pub open spec fn moments(instants: Seq<Instant>) -> Seq<Moment> {
    instants.map_values(|i: Instant| i@)
}

/// What a [`DateTime`] stands for: a wall-clock reading and the offset of that
/// clock from UTC, in seconds east.
pub ghost struct DateTimeView {
    pub date: DateView,
    pub second_of_day: int,
    pub nanosecond: int,
    pub offset_seconds: int,
}

impl DateTimeView {
    /// The date exists, the time lies within the day (a nanosecond count from
    /// 1,000,000,000 up stands for a leap second) and the offset is less than a day.
    pub open spec fn is_valid(self) -> bool {
        &&& self.date.is_valid()
        &&& 0 <= self.second_of_day < SECONDS_PER_DAY
        &&& 0 <= self.nanosecond < 2_000_000_000
        &&& -SECONDS_PER_DAY < self.offset_seconds < SECONDS_PER_DAY
    }

    /// The moment on the UTC time line that the clock reading denotes.
    pub open spec fn moment(self) -> Moment {
        Moment {
            seconds: self.date.midnight().seconds + self.second_of_day - self.offset_seconds,
            nanosecond: self.nanosecond,
        }
    }
}

/// A date and time of day together with the offset from UTC of the clock that
/// showed them.
#[derive(Clone, Copy, Debug, PartialEq, Eq, Structural, Hash)]
pub struct DateTime {
    date: Date,
    second_of_day: u32,
    nanosecond: u32,
    offset_seconds: i32,
}

impl View for DateTime {
    type V = DateTimeView;

    closed spec fn view(&self) -> DateTimeView {
        DateTimeView {
            date: self.date@,
            second_of_day: self.second_of_day as int,
            nanosecond: self.nanosecond as int,
            offset_seconds: self.offset_seconds as int,
        }
    }
}

impl DateTime {
    /// Holds of every value that executable code can have.
    #[verifier::type_invariant]
    pub open spec fn well_formed(self) -> bool {
        self@.is_valid()
    }

    /// The date-time with the given parts, if they are in range.
    pub fn new(date: Date, second_of_day: u32, nanosecond: u32, offset_seconds: i32) -> (result:
        Option<DateTime>)
        ensures
            result is Some <==> (DateTimeView {
                date: date@,
                second_of_day: second_of_day as int,
                nanosecond: nanosecond as int,
                offset_seconds: offset_seconds as int,
            }).is_valid(),
            result matches Some(dt) ==> dt@ == (DateTimeView {
                date: date@,
                second_of_day: second_of_day as int,
                nanosecond: nanosecond as int,
                offset_seconds: offset_seconds as int,
            }),
    {
        proof {
            use_type_invariant(&date);
        }
        if second_of_day >= 86400 || nanosecond >= 2_000_000_000 || offset_seconds <= -86400
            || offset_seconds >= 86400 {
            return None;
        }
        Some(DateTime { date, second_of_day, nanosecond, offset_seconds })
    }

    /// The date that the clock showed.
    pub fn date(&self) -> (date: Date)
        ensures
            date@ == self@.date,
    {
        self.date
    }

    /// The seconds that the clock showed since midnight.
    pub fn second_of_day(&self) -> (second: u32)
        ensures
            second == self@.second_of_day,
    {
        self.second_of_day
    }

    /// The nanoseconds past the second; 1,000,000,000 and more in a leap second.
    pub fn nanosecond(&self) -> (nanosecond: u32)
        ensures
            nanosecond == self@.nanosecond,
    {
        self.nanosecond
    }

    /// How far the clock is ahead of UTC, in seconds.
    pub fn offset_seconds(&self) -> (offset: i32)
        ensures
            offset == self@.offset_seconds,
    {
        self.offset_seconds
    }

    /// The point on the UTC time line that the date-time denotes.
    pub fn instant(&self) -> (instant: Instant)
        ensures
            instant@ == self@.moment(),
    {
        let days: i64 = self.date.day_number() as i64;
        Instant {
            seconds: days * SECONDS_PER_DAY + self.second_of_day as i64 - self.offset_seconds as i64,
            nanosecond: self.nanosecond,
        }
    }
}

/// `moment` is one that a clock set to UTC can show.
pub open spec fn is_utc_reading(moment: Moment) -> bool {
    exists|reading: DateTimeView|
        reading.is_valid() && reading.offset_seconds == 0 && #[trigger] reading.moment() == moment
}

/// The instant at which it is called, by the clock of the machine.
pub fn now() -> (instant: Instant)
    ensures
        is_utc_reading(instant@),
{
    let reading = current_time();
    reading.instant()
}

/// Calls `chrono::Utc::now` and reads the date and time of day off the result.
/// Trusted: whatever the clock says, the parts read are in range and the
/// offset is zero.
#[verifier::external_body]
fn current_time() -> (now: DateTime)
    ensures
        now@.is_valid(),
        now@.offset_seconds == 0,
{
    let now = Utc::now().naive_utc();
    DateTime {
        date: Date { year: now.year(), month: now.month(), day: now.day() },
        second_of_day: now.num_seconds_from_midnight(),
        nanosecond: now.nanosecond(),
        offset_seconds: 0,
    }
}

} // verus!
