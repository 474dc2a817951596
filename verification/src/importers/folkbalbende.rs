//! Events from the records of the Folkbalbende listing.

use crate::dancestyle::DanceStyle;
use crate::event;
use crate::event::{copy_optional, copy_strings, EventTime, EventTimeView, EventView};
use crate::events::Events;
use crate::sorting::{is_ascending_order, order_of_numbers};
use crate::text::{decimal_digits, push_decimal, starts_with};
use crate::time::{Date, DateTime, DateTimeView, DateView, SECONDS_PER_DAY};
use chrono::{NaiveDate, NaiveTime, Offset, TimeZone};
use chrono_tz::Europe::Brussels;
use vstd::prelude::*;

verus! {

/// What the address of a website begins with.
pub const WEB_ADDRESS_START: &'static str = "http";

/// What the address of the French copy of a page begins with; such websites
/// are left out.
pub const FRENCH_COPY_START: &'static str = "https://frissefolk.be/fr/civicrm/event/info";

/// What the address of the Dutch copy of a page begins with; such websites
/// are left out.
pub const DUTCH_COPY_START: &'static str = "https://frissefolk.be/nl/civicrm/event/info";

/// The address of an event's page in the listing, up to its number.
pub const EVENT_PAGE: &'static str = "https://folkbalbende.be/event/";

/// The sign of the currency in which prices are given.
pub const CURRENCY: &'static str = "€";

/// What stands between the lowest and the highest price.
pub const PRICE_RANGE: &'static str = "-€";

/// The country of every event of this listing.
pub const COUNTRY: &'static str = "Belgium";

/// The name of the kind of event that is a ball.
pub const BALL: &'static str = "Ball";

/// The name of the kind of event that is a course.
pub const COURSE: &'static str = "Course";

/// The name of the kind of event that is a festival.
pub const FESTIVAL: &'static str = "Festival";

/// The offset from UTC, in seconds east, of the clocks in Brussels when they
/// show the given date and time of day, as `chrono-tz` has it; `None` where
/// the clocks show that time twice or never.
pub uninterp spec fn brussels_offset_seconds(
    year: int,
    month: int,
    day: int,
    second_of_day: int,
) -> Option<i32>;

/// Calls `TimeZone::from_local_datetime` on `chrono_tz::Europe::Brussels`,
/// then `single`, and reads the offset of the result with `Offset::fix` and
/// `FixedOffset::local_minus_utc`. Trusted: the offset returned, or its
/// absence, is what `brussels_offset_seconds` names. The date and the time of
/// day must exist, or `chrono` cannot build the local time to ask about.
#[verifier::external_body]
fn brussels_offset(year: i32, month: u32, day: u32, second_of_day: u32) -> (offset: Option<i32>)
    requires
        (DateView { year: year as int, month: month as int, day: day as int }).is_valid(),
        second_of_day < SECONDS_PER_DAY,
    ensures
        offset == brussels_offset_seconds(
            year as int,
            month as int,
            day as int,
            second_of_day as int,
        ),
{
    let date = NaiveDate::from_ymd_opt(year, month, day).expect("a calendar date");
    let time = NaiveTime::from_num_seconds_from_midnight_opt(second_of_day, 0).expect("a time of day");
    Brussels.from_local_datetime(&date.and_time(time)).single().map(
        |local| local.offset().fix().local_minus_utc(),
    )
}

/// What kind of event a record describes.
#[derive(Clone, Copy, Debug, PartialEq, Eq, Structural, Hash)]
pub enum EventType {
    Ball,
    Course,
    Festival,
}

impl EventType {
    /// The name of the kind.
    pub open spec fn name(self) -> Seq<char> {
        match self {
            EventType::Ball => BALL@,
            EventType::Course => COURSE@,
            EventType::Festival => FESTIVAL@,
        }
    }

    /// Whether an event of this kind includes a social dance.
    pub open spec fn is_social(self) -> bool {
        self != EventType::Course
    }
}

/// A lesson, by the times of day at which it starts and ends, in seconds.
#[derive(Clone, Copy, Debug, PartialEq, Eq, Structural, Hash)]
pub struct Course {
    pub start: u32,
    pub end: u32,
}

/// What a [`Performance`] stands for.
pub ghost struct PerformanceView {
    pub band: Seq<char>,
    pub placeholder: bool,
    pub start: Option<u32>,
    pub end: Option<u32>,
}

/// A band playing at a ball, with the times of day at which it starts and
/// ends, in seconds, where they are known.
#[derive(Debug, PartialEq, Eq)]
pub struct Performance {
    pub band: String,
    /// The band is not known yet.
    pub placeholder: bool,
    pub start: Option<u32>,
    pub end: Option<u32>,
}

impl View for Performance {
    type V = PerformanceView;

    open spec fn view(&self) -> PerformanceView {
        PerformanceView {
            band: self.band@,
            placeholder: self.placeholder,
            start: self.start,
            end: self.end,
        }
    }
}

impl DeepView for Performance {
    type V = PerformanceView;

    open spec fn deep_view(&self) -> PerformanceView {
        self@
    }
}

/// What a [`Ball`] stands for.
pub ghost struct BallView {
    pub initiation_start: Option<u32>,
    pub initiation_end: Option<u32>,
    pub initiators: Seq<Seq<char>>,
    pub performances: Seq<PerformanceView>,
}

/// A ball, with the lesson for beginners before it, if there is one.
#[derive(Debug, PartialEq, Eq)]
pub struct Ball {
    pub initiation_start: Option<u32>,
    pub initiation_end: Option<u32>,
    pub initiators: Vec<String>,
    pub performances: Vec<Performance>,
}

impl View for Ball {
    type V = BallView;

    open spec fn view(&self) -> BallView {
        BallView {
            initiation_start: self.initiation_start,
            initiation_end: self.initiation_end,
            initiators: self.initiators.deep_view(),
            performances: self.performances.deep_view(),
        }
    }
}

impl DeepView for Ball {
    type V = BallView;

    open spec fn deep_view(&self) -> BallView {
        self@
    }
}

/// The time, if there is one, as a list of one or none.
pub open spec fn listed(time: Option<u32>) -> Seq<u32> {
    match time {
        Some(t) => seq![t],
        None => Seq::empty(),
    }
}

/// The times at which the lessons start (`starts`) or end.
pub open spec fn course_times(courses: Seq<Course>, starts: bool) -> Seq<u32> {
    courses.map_values(
        |course: Course|
            if starts {
                course.start
            } else {
                course.end
            },
    )
}

/// The times at which the performances start (`starts`) or end, where they
/// are known.
pub open spec fn performance_times(performances: Seq<PerformanceView>, starts: bool) -> Seq<u32>
    decreases performances.len(),
{
    if performances.len() == 0 {
        Seq::empty()
    } else {
        performance_times(performances.drop_last(), starts) + listed(
            if starts {
                performances.last().start
            } else {
                performances.last().end
            },
        )
    }
}

/// The names of the bands that are known, in order.
pub open spec fn known_bands(performances: Seq<PerformanceView>) -> Seq<Seq<char>>
    decreases performances.len(),
{
    if performances.len() == 0 {
        Seq::empty()
    } else {
        known_bands(performances.drop_last()) + (if performances.last().placeholder {
            Seq::empty()
        } else {
            seq![performances.last().band]
        })
    }
}

/// The least of the numbers, if there is any.
pub open spec fn least(numbers: Seq<u32>) -> Option<u32>
    decreases numbers.len(),
{
    if numbers.len() == 0 {
        None
    } else {
        match least(numbers.drop_last()) {
            Some(m) => Some(if numbers.last() < m { numbers.last() } else { m }),
            None => Some(numbers.last()),
        }
    }
}

/// The greatest of the numbers, if there is any.
pub open spec fn greatest(numbers: Seq<u32>) -> Option<u32>
    decreases numbers.len(),
{
    if numbers.len() == 0 {
        None
    } else {
        match greatest(numbers.drop_last()) {
            Some(m) => Some(if numbers.last() > m { numbers.last() } else { m }),
            None => Some(numbers.last()),
        }
    }
}

/// The least of `numbers` is one of them and none of them is less; the
/// greatest is one of them and none is greater.
pub proof fn lemma_least_and_greatest(numbers: Seq<u32>)
    ensures
        least(numbers) is None <==> numbers.len() == 0,
        greatest(numbers) is None <==> numbers.len() == 0,
        least(numbers) matches Some(m) ==> numbers.contains(m) && forall|i: int|
            0 <= i < numbers.len() ==> m <= numbers[i],
        greatest(numbers) matches Some(m) ==> numbers.contains(m) && forall|i: int|
            0 <= i < numbers.len() ==> m >= numbers[i],
    decreases numbers.len(),
{
    if numbers.len() > 0 {
        let front = numbers.drop_last();
        lemma_least_and_greatest(front);
        let last = numbers.len() - 1;
        match least(front) {
            Some(m) => {
                let at = choose|at: int| 0 <= at < front.len() && front[at] == m;
                assert(numbers[at] == m);
                assert(numbers[last] == numbers.last());
                assert forall|i: int| 0 <= i < numbers.len() implies least(numbers)->0
                    <= numbers[i] by {
                    if i < last {
                        assert(front[i] == numbers[i]);
                    }
                }
            },
            None => {
                assert(numbers[last] == numbers.last());
            },
        }
        match greatest(front) {
            Some(m) => {
                let at = choose|at: int| 0 <= at < front.len() && front[at] == m;
                assert(numbers[at] == m);
                assert(numbers[last] == numbers.last());
                assert forall|i: int| 0 <= i < numbers.len() implies greatest(numbers)->0
                    >= numbers[i] by {
                    if i < last {
                        assert(front[i] == numbers[i]);
                    }
                }
            },
            None => {
                assert(numbers[last] == numbers.last());
            },
        }
    }
}

/// The prices that are not zero, in order.
pub open spec fn charged(prices: Seq<u32>) -> Seq<u32>
    decreases prices.len(),
{
    if prices.len() == 0 {
        Seq::empty()
    } else {
        charged(prices.drop_last()) + (if prices.last() == 0 {
            Seq::empty()
        } else {
            seq![prices.last()]
        })
    }
}

/// The price or price range to show: the lowest and the highest of the
/// prices that are not zero, or the one price where the two are the same.
pub open spec fn price_text(prices: Seq<u32>) -> Option<Seq<char>> {
    match (least(charged(prices)), greatest(charged(prices))) {
        (Some(low), Some(high)) => Some(
            if low == high {
                CURRENCY@ + decimal_digits(low as nat)
            } else {
                CURRENCY@ + decimal_digits(low as nat) + PRICE_RANGE@ + decimal_digits(high as nat)
            },
        ),
        _ => None,
    }
}

/// Whether the website is listed among the links of an event.
pub open spec fn is_listed(url: Seq<char>) -> bool {
    &&& WEB_ADDRESS_START@.is_prefix_of(url)
    &&& !FRENCH_COPY_START@.is_prefix_of(url)
    &&& !DUTCH_COPY_START@.is_prefix_of(url)
}

/// The websites that are listed, in order.
pub open spec fn listed_websites(websites: Seq<Seq<char>>) -> Seq<Seq<char>>
    decreases websites.len(),
{
    if websites.len() == 0 {
        Seq::empty()
    } else {
        listed_websites(websites.drop_last()) + (if is_listed(websites.last()) {
            seq![websites.last()]
        } else {
            Seq::empty()
        })
    }
}

/// The date and time of day as the clocks in Brussels show them, with their
/// offset from UTC, if there is a time, it lies within the day and the clocks
/// show it once.
pub open spec fn brussels_time(date: DateView, time: Option<u32>) -> Option<DateTimeView> {
    match time {
        Some(second) if second < SECONDS_PER_DAY => match brussels_offset_seconds(
            date.year,
            date.month,
            date.day,
            second as int,
        ) {
            Some(offset) if -SECONDS_PER_DAY < offset < SECONDS_PER_DAY => Some(
                DateTimeView {
                    date,
                    second_of_day: second as int,
                    nanosecond: 0,
                    offset_seconds: offset as int,
                },
            ),
            _ => None,
        },
        _ => None,
    }
}

/// When an event on `date` takes place: from its start to its end by the
/// clocks in Brussels, or where either is unknown, on that day.
pub open spec fn time_on(date: DateView, start: Option<u32>, end: Option<u32>) -> EventTimeView {
    match (brussels_time(date, start), brussels_time(date, end)) {
        (Some(start), Some(end)) => EventTimeView::DateTime { start, end },
        _ => EventTimeView::DateOnly { start_date: date, end_date: date },
    }
}

/// What an [`Event`] of the listing stands for.
pub ghost struct RecordView {
    pub id: u32,
    pub name: Seq<char>,
    pub dates: Seq<DateView>,
    pub websites: Seq<Seq<char>>,
    pub facebook_event: Seq<char>,
    pub event_type: EventType,
    pub courses: Seq<Course>,
    pub ball: Option<BallView>,
    pub prices: Seq<u32>,
    pub organisation: Option<Seq<char>>,
    pub city: Seq<char>,
    pub cancelled: bool,
    pub checked: bool,
    pub deleted: bool,
}

impl RecordView {
    /// The links of the event: the websites that are listed, the event's
    /// page in the listing, and its Facebook event if it has one.
    pub open spec fn links(self) -> Seq<Seq<char>> {
        listed_websites(self.websites) + seq![EVENT_PAGE@ + decimal_digits(self.id as nat)] + (
        if self.facebook_event.len() > 0 {
            seq![self.facebook_event]
        } else {
            Seq::empty()
        })
    }

    /// The event includes a lesson: it is a course or has courses, or its
    /// ball has a lesson for beginners.
    pub open spec fn is_workshop(self) -> bool {
        ||| self.event_type == EventType::Course
        ||| self.courses.len() > 0
        ||| (self.ball matches Some(ball) && (ball.initiation_start is Some
            || ball.initiators.len() > 0))
    }

    /// The bands that play, as far as they are known.
    pub open spec fn bands(self) -> Seq<Seq<char>> {
        match self.ball {
            Some(ball) => known_bands(ball.performances),
            None => Seq::empty(),
        }
    }

    /// All the times at which something starts (`starts`) or ends.
    pub open spec fn times(self, starts: bool) -> Seq<u32> {
        course_times(self.courses, starts) + (match self.ball {
            Some(ball) => listed(
                if starts {
                    ball.initiation_start
                } else {
                    ball.initiation_end
                },
            ) + performance_times(ball.performances, starts),
            None => Seq::empty(),
        })
    }

    /// The time of day at which the event starts: the earliest start that is
    /// known, unless that is midnight.
    pub open spec fn start_time(self) -> Option<u32> {
        if least(self.times(true)) == Some(0u32) {
            None
        } else {
            least(self.times(true))
        }
    }

    /// The time of day at which the event ends: the latest end that is known.
    pub open spec fn end_time(self) -> Option<u32> {
        greatest(self.times(false))
    }

    /// The event that takes place on `date`.
    pub open spec fn on(self, date: DateView) -> EventView {
        EventView {
            name: self.name,
            details: Some(self.event_type.name()),
            links: self.links(),
            time: time_on(date, self.start_time(), self.end_time()),
            country: COUNTRY@,
            city: self.city,
            styles: seq![DanceStyle::Balfolk],
            workshop: self.is_workshop(),
            social: self.event_type.is_social(),
            bands: self.bands(),
            callers: Seq::empty(),
            price: price_text(self.prices),
            organisation: self.organisation,
            cancelled: self.cancelled,
        }
    }

    /// The events of the record, one for each of its dates.
    pub open spec fn converted(self) -> Seq<EventView> {
        self.dates.map_values(|date: DateView| self.on(date))
    }
}

/// One record of the listing: an event that takes place on one or more dates.
#[derive(Debug, PartialEq, Eq)]
pub struct Event {
    pub id: u32,
    pub name: String,
    pub dates: Vec<Date>,
    pub websites: Vec<String>,
    /// The address of the Facebook event; empty if there is none.
    pub facebook_event: String,
    pub event_type: EventType,
    pub courses: Vec<Course>,
    pub ball: Option<Ball>,
    pub prices: Vec<u32>,
    /// The name of the organisation.
    pub organisation: Option<String>,
    pub city: String,
    pub cancelled: bool,
    /// The record has been looked over by the keepers of the listing.
    pub checked: bool,
    pub deleted: bool,
}

impl View for Event {
    type V = RecordView;

    open spec fn view(&self) -> RecordView {
        RecordView {
            id: self.id,
            name: self.name@,
            dates: self.dates.deep_view(),
            websites: self.websites.deep_view(),
            facebook_event: self.facebook_event@,
            event_type: self.event_type,
            courses: self.courses@,
            ball: self.ball.deep_view(),
            prices: self.prices@,
            organisation: self.organisation.deep_view(),
            city: self.city@,
            cancelled: self.cancelled,
            checked: self.checked,
            deleted: self.deleted,
        }
    }
}

impl DeepView for Event {
    type V = RecordView;

    open spec fn deep_view(&self) -> RecordView {
        self@
    }
}

/// The earlier of the two times, where `other` may be missing.
fn earlier(time: u32, other: Option<u32>) -> (result: u32)
    ensures
        result == match other {
            Some(m) => if time < m { time } else { m },
            None => time,
        },
{
    match other {
        Some(m) => if time < m { time } else { m },
        None => time,
    }
}

/// The later of the two times, where `other` may be missing.
fn later(time: u32, other: Option<u32>) -> (result: u32)
    ensures
        result == match other {
            Some(m) => if time > m { time } else { m },
            None => time,
        },
{
    match other {
        Some(m) => if time > m { time } else { m },
        None => time,
    }
}

/// The least (`lowest`) or the greatest of the numbers, if there is any.
pub open spec fn extreme(numbers: Seq<u32>, lowest: bool) -> Option<u32> {
    if lowest {
        least(numbers)
    } else {
        greatest(numbers)
    }
}

/// Taking the extreme of a list with one more number at its end.
proof fn lemma_extreme_push(numbers: Seq<u32>, number: u32, lowest: bool)
    ensures
        extreme(numbers.push(number), lowest) == Some(
            match extreme(numbers, lowest) {
                Some(m) => if lowest {
                    if number < m { number } else { m }
                } else {
                    if number > m { number } else { m }
                },
                None => number,
            },
        ),
{
    assert(numbers.push(number).drop_last() =~= numbers);
}

/// The earliest (`lowest`) or latest of the times of an event.
fn extreme_time(record: &Event, starts: bool, lowest: bool) -> (time: Option<u32>)
    ensures
        time == extreme(record@.times(starts), lowest),
{
    let mut found: Option<u32> = None;
    let ghost mut seen: Seq<u32> = Seq::empty();
    let mut i: usize = 0;
    while i < record.courses.len()
        invariant
            i <= record.courses.len(),
            seen == course_times(record@.courses, starts).take(i as int),
            found == extreme(seen, lowest),
        decreases record.courses.len() - i,
    {
        let time = if starts { record.courses[i].start } else { record.courses[i].end };
        proof {
            lemma_extreme_push(seen, time, lowest);
            assert(course_times(record@.courses, starts).take(i + 1) =~= seen.push(time));
            seen = seen.push(time);
        }
        found = Some(if lowest { earlier(time, found) } else { later(time, found) });
        i += 1;
    }
    assert(seen =~= course_times(record@.courses, starts));
    match &record.ball {
        Some(ball) => {
            let initiation = if starts { ball.initiation_start } else { ball.initiation_end };
            match initiation {
                Some(time) => {
                    proof {
                        lemma_extreme_push(seen, time, lowest);
                        seen = seen.push(time);
                    }
                    found = Some(if lowest { earlier(time, found) } else { later(time, found) });
                },
                None => {},
            }
            assert(seen =~= course_times(record@.courses, starts) + listed(initiation));
            let ghost base = seen;
            let mut k: usize = 0;
            assert(seen =~= base + performance_times(ball@.performances.take(0), starts));
            while k < ball.performances.len()
                invariant
                    k <= ball.performances.len(),
                    seen == base + performance_times(ball@.performances.take(k as int), starts),
                    found == extreme(seen, lowest),
                decreases ball.performances.len() - k,
            {
                let ghost next = ball@.performances.take(k + 1);
                proof {
                    assert(next.drop_last() =~= ball@.performances.take(k as int));
                    assert(next.last() == ball.performances@[k as int]@);
                }
                let time = if starts {
                    ball.performances[k].start
                } else {
                    ball.performances[k].end
                };
                match time {
                    Some(time) => {
                        proof {
                            lemma_extreme_push(seen, time, lowest);
                            assert(base + performance_times(next, starts) =~= seen.push(time));
                            seen = seen.push(time);
                        }
                        found = Some(
                            if lowest { earlier(time, found) } else { later(time, found) },
                        );
                    },
                    None => {
                        assert(base + performance_times(next, starts) =~= seen);
                    },
                }
                k += 1;
            }
            assert(ball@.performances.take(ball.performances.len() as int) =~= ball@.performances);
            assert(seen =~= record@.times(starts));
        },
        None => {
            assert(seen =~= record@.times(starts));
        },
    }
    found
}

/// The price or price range to show.
fn price_shown(prices: &Vec<u32>) -> (text: Option<String>)
    ensures
        text.deep_view() == price_text(prices@),
{
    let mut low: Option<u32> = None;
    let mut high: Option<u32> = None;
    let ghost mut seen: Seq<u32> = Seq::empty();
    let mut i: usize = 0;
    while i < prices.len()
        invariant
            i <= prices.len(),
            seen == charged(prices@.take(i as int)),
            low == least(seen),
            high == greatest(seen),
        decreases prices.len() - i,
    {
        let ghost next = prices@.take(i + 1);
        proof {
            assert(next.drop_last() =~= prices@.take(i as int));
            assert(next.last() == prices@[i as int]);
        }
        let price = prices[i];
        if price != 0 {
            proof {
                lemma_extreme_push(seen, price, true);
                lemma_extreme_push(seen, price, false);
                assert(charged(next) =~= seen.push(price));
                seen = seen.push(price);
            }
            low = Some(earlier(price, low));
            high = Some(later(price, high));
        } else {
            assert(charged(next) =~= seen);
        }
        i += 1;
    }
    assert(prices@.take(prices.len() as int) =~= prices@);
    match (low, high) {
        (Some(low), Some(high)) => {
            let mut text = String::new();
            text.append(CURRENCY);
            push_decimal(&mut text, low);
            if low != high {
                text.append(PRICE_RANGE);
                push_decimal(&mut text, high);
            }
            assert(text@ =~= price_text(prices@)->0);
            Some(text)
        },
        _ => None,
    }
}

/// The links of the event.
fn links_of(record: &Event) -> (links: Vec<String>)
    ensures
        links.deep_view() == record@.links(),
{
    // Filter out "mailto:" URLs and duplicates in non-English languages.
    let mut links: Vec<String> = Vec::new();
    let mut i: usize = 0;
    while i < record.websites.len()
        invariant
            i <= record.websites.len(),
            links.deep_view() == listed_websites(record@.websites.take(i as int)),
        decreases record.websites.len() - i,
    {
        let ghost before = links.deep_view();
        let ghost next = record@.websites.take(i + 1);
        proof {
            assert(next.drop_last() =~= record@.websites.take(i as int));
            assert(next.last() == record.websites@[i as int]@);
        }
        let url = &record.websites[i];
        if starts_with(url.as_str(), WEB_ADDRESS_START) && !starts_with(
            url.as_str(),
            FRENCH_COPY_START,
        ) && !starts_with(url.as_str(), DUTCH_COPY_START) {
            links.push(url.clone());
            assert(links.deep_view() =~= before.push(url@));
            assert(listed_websites(next) =~= before.push(url@));
        } else {
            assert(listed_websites(next) =~= before);
        }
        i += 1;
    }
    assert(record@.websites.take(record.websites.len() as int) =~= record@.websites);
    let ghost websites = links.deep_view();
    let mut page = String::new();
    page.append(EVENT_PAGE);
    push_decimal(&mut page, record.id);
    assert(page@ =~= EVENT_PAGE@ + decimal_digits(record.id as nat));
    links.push(page);
    assert(links.deep_view() =~= websites.push(EVENT_PAGE@ + decimal_digits(record.id as nat)));
    if !record.facebook_event.as_str().is_empty() {
        let ghost before = links.deep_view();
        links.push(record.facebook_event.clone());
        assert(links.deep_view() =~= before.push(record@.facebook_event));
    }
    assert(links.deep_view() =~= record@.links());
    links
}

/// The names of the bands that play, as far as they are known.
fn bands_of(record: &Event) -> (bands: Vec<String>)
    ensures
        bands.deep_view() == record@.bands(),
{
    let mut bands: Vec<String> = Vec::new();
    match &record.ball {
        Some(ball) => {
            let mut k: usize = 0;
            while k < ball.performances.len()
                invariant
                    k <= ball.performances.len(),
                    bands.deep_view() == known_bands(ball@.performances.take(k as int)),
                decreases ball.performances.len() - k,
            {
                let ghost before = bands.deep_view();
                let ghost next = ball@.performances.take(k + 1);
                proof {
                    assert(next.drop_last() =~= ball@.performances.take(k as int));
                    assert(next.last() == ball.performances@[k as int]@);
                }
                if !ball.performances[k].placeholder {
                    bands.push(ball.performances[k].band.clone());
                    assert(bands.deep_view() =~= before.push(ball.performances@[k as int]@.band));
                    assert(known_bands(next) =~= before.push(ball.performances@[k as int]@.band));
                } else {
                    assert(known_bands(next) =~= before);
                }
                k += 1;
            }
            assert(ball@.performances.take(ball.performances.len() as int) =~= ball@.performances);
        },
        None => {
            assert(bands.deep_view() =~= Seq::<Seq<char>>::empty());
        },
    }
    bands
}

/// The date and time of day as the clocks in Brussels show them.
fn brussels_date_time(date: &Date, time: Option<u32>) -> (result: Option<DateTime>)
    ensures
        result is Some <==> brussels_time(date@, time) is Some,
        result matches Some(t) ==> Some(t@) == brussels_time(date@, time),
{
    match time {
        Some(second) => {
            if second >= 86400 {
                return None;
            }
            proof {
                use_type_invariant(date);
            }
            match brussels_offset(date.year(), date.month(), date.day(), second) {
                Some(offset) => DateTime::new(*date, second, 0, offset),
                None => None,
            }
        },
        None => None,
    }
}

/// When an event on `date` takes place, given the times of day at which it
/// starts and ends.
pub fn make_time(date: Date, start_time: Option<u32>, end_time: Option<u32>) -> (time: EventTime)
    ensures
        time@ == time_on(date@, start_time, end_time),
{
    match (brussels_date_time(&date, start_time), brussels_date_time(&date, end_time)) {
        (Some(start), Some(end)) => EventTime::DateTime { start, end },
        _ => EventTime::DateOnly { start_date: date, end_date: date },
    }
}

/// The name of the kind of event.
fn kind_name(event_type: EventType) -> (name: String)
    ensures
        name@ == event_type.name(),
{
    match event_type {
        EventType::Ball => BALL.to_owned(),
        EventType::Course => COURSE.to_owned(),
        EventType::Festival => FESTIVAL.to_owned(),
    }
}

/// The events of the record, one for each of its dates.
pub fn convert(record: &Event) -> (events: Vec<event::Event>)
    ensures
        events.deep_view() == record@.converted(),
{
    let mut workshop = matches!(record.event_type, EventType::Course) || record.courses.len() > 0;
    match &record.ball {
        Some(ball) => {
            if ball.initiation_start.is_some() || ball.initiators.len() > 0 {
                workshop = true;
            }
        },
        None => {},
    }
    let social = match record.event_type {
        EventType::Course => false,
        EventType::Ball | EventType::Festival => true,
    };
    // Find the earliest start time and latest finish time, if any.
    let mut start_time = extreme_time(record, true, true);
    match start_time {
        Some(time) => {
            if time == 0 {
                start_time = None;
            }
        },
        None => {},
    }
    let end_time = extreme_time(record, false, false);
    let links = links_of(record);
    let bands = bands_of(record);
    let price = price_shown(&record.prices);

    let mut events: Vec<event::Event> = Vec::new();
    let mut i: usize = 0;
    while i < record.dates.len()
        invariant
            i <= record.dates.len(),
            events.len() == i,
            workshop == record@.is_workshop(),
            social == record@.event_type.is_social(),
            start_time == record@.start_time(),
            end_time == record@.end_time(),
            links.deep_view() == record@.links(),
            bands.deep_view() == record@.bands(),
            price.deep_view() == price_text(record@.prices),
            forall|k: int|
                0 <= k < i ==> (#[trigger] events.deep_view()[k]) == record@.on(record@.dates[k]),
        decreases record.dates.len() - i,
    {
        let ghost before = events.deep_view();
        let mut styles: Vec<DanceStyle> = Vec::new();
        styles.push(DanceStyle::Balfolk);
        assert(styles@ =~= seq![DanceStyle::Balfolk]);
        let callers: Vec<String> = Vec::new();
        assert(callers.deep_view() =~= Seq::<Seq<char>>::empty());
        let event = event::Event {
            name: record.name.clone(),
            details: Some(kind_name(record.event_type)),
            links: copy_strings(&links),
            time: make_time(record.dates[i], start_time, end_time),
            country: COUNTRY.to_owned(),
            city: record.city.clone(),
            styles,
            workshop,
            social,
            bands: copy_strings(&bands),
            callers,
            price: copy_optional(&price),
            organisation: copy_optional(&record.organisation),
            cancelled: record.cancelled,
        };
        assert(event@ == record@.on(record@.dates[i as int]));
        events.push(event);
        proof {
            assert forall|k: int| 0 <= k < i + 1 implies (#[trigger] events.deep_view()[k])
                == record@.on(record@.dates[k]) by {
                if k < i {
                    assert(events.deep_view()[k] == before[k]);
                }
            }
        }
        i += 1;
    }
    assert(events.deep_view() =~= record@.converted());
    events
}

/// The events of the records that have been looked over and not deleted,
/// record after record.
pub open spec fn imported(records: Seq<RecordView>) -> Seq<EventView>
    decreases records.len(),
{
    if records.len() == 0 {
        Seq::empty()
    } else {
        imported(records.drop_last()) + (if records.last().checked && !records.last().deleted {
            records.last().converted()
        } else {
            Seq::empty()
        })
    }
}

/// The numbers of the records, in order.
pub open spec fn ids_of(records: Seq<RecordView>) -> Seq<u32> {
    records.map_values(|record: RecordView| record.id)
}

/// `sorted` holds the records in ascending order of their numbers; records
/// with the same number keep their order.
pub open spec fn in_id_order(records: Seq<RecordView>, sorted: Seq<RecordView>) -> bool {
    exists|order: Seq<usize>| #[trigger]
        is_ascending_order(ids_of(records), order) && sorted == order.map_values(
            |position: usize| records[position as int],
        )
}

/// The events of the listing, made from its records in the order of their
/// numbers.
pub fn import_events(records: &Vec<Event>) -> (events: Events)
    ensures
        exists|sorted: Seq<RecordView>| #[trigger]
            in_id_order(records.deep_view(), sorted) && events@ == imported(sorted),
{
    let mut ids: Vec<u32> = Vec::new();
    let mut k: usize = 0;
    while k < records.len()
        invariant
            k <= records.len(),
            ids@ == ids_of(records.deep_view()).take(k as int),
        decreases records.len() - k,
    {
        ids.push(records[k].id);
        assert(ids_of(records.deep_view()).take(k + 1) =~= ids_of(records.deep_view()).take(
            k as int,
        ).push(records@[k as int].id));
        k += 1;
    }
    assert(ids_of(records.deep_view()).take(records.len() as int) =~= ids_of(records.deep_view()));
    // Sort by ID to give a stable order.
    let order = order_of_numbers(&ids);
    let ghost sorted = order@.map_values(|position: usize| records.deep_view()[position as int]);
    let mut events: Vec<event::Event> = Vec::new();
    let mut i: usize = 0;
    while i < order.len()
        invariant
            i <= order.len(),
            order.len() == records.len(),
            forall|p: int| 0 <= p < order.len() ==> (#[trigger] order@[p]) < records.len(),
            sorted == order@.map_values(|position: usize| records.deep_view()[position as int]),
            events.deep_view() == imported(sorted.take(i as int)),
        decreases order.len() - i,
    {
        let ghost before = events.deep_view();
        let ghost next = sorted.take(i + 1);
        proof {
            assert(next.drop_last() =~= sorted.take(i as int));
            assert(next.last() == records@[order@[i as int] as int]@);
        }
        let record = &records[order[i]];
        if record.checked && !record.deleted {
            let mut converted = convert(record);
            let ghost added = converted.deep_view();
            events.append(&mut converted);
            assert(events.deep_view() =~= before + added);
        } else {
            assert(events.deep_view() =~= before + Seq::<EventView>::empty());
        }
        i += 1;
    }
    assert(sorted.take(order.len() as int) =~= sorted);
    assert(in_id_order(records.deep_view(), sorted)) by {
        assert(is_ascending_order(ids_of(records.deep_view()), order@));
    }
    Events { events }
}

} // verus!
