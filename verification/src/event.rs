//! One dance event: what it is called, when and where it takes place, and who
//! plays and calls.

use crate::dancestyle::DanceStyle;
use crate::text::starts_with;
use crate::time::{
    lemma_day_numbers_ascend, Date, DateTime, DateTimeView, DateView, Instant, Moment,
};
use vstd::prelude::*;

verus! {

/// The prefix which Facebook event URLs start with.
pub const FACEBOOK_EVENT_PREFIX: &'static str = "https://www.facebook.com/events/";

/// The problem reported for an event that is neither a workshop nor a social.
pub const NEITHER_WORKSHOP_NOR_SOCIAL: &'static str = "Must have at least a workshop or a social.";

/// The problem reported for an event that starts after it ends.
pub const START_AFTER_END: &'static str = "Start date must not be before or equal to end date.";

/// The problem reported for an event without a dance style.
pub const NO_STYLES: &'static str = "Must include at least one style of dance.";

/// What an [`EventTime`] stands for.
pub ghost enum EventTimeView {
    DateOnly { start_date: DateView, end_date: DateView },
    DateTime { start: DateTimeView, end: DateTimeView },
}

impl EventTimeView {
    /// The moment by which events are put in order: the start itself, or for
    /// an event known by its dates only, the beginning of its first day in UTC.
    pub open spec fn start(self) -> Moment {
        match self {
            EventTimeView::DateOnly { start_date, .. } => start_date.midnight(),
            EventTimeView::DateTime { start, .. } => start.moment(),
        }
    }

    /// The day on which the event starts, where it takes place.
    pub open spec fn start_date(self) -> DateView {
        match self {
            EventTimeView::DateOnly { start_date, .. } => start_date,
            EventTimeView::DateTime { start, .. } => start.date,
        }
    }

    /// The day on which the event ends, where it takes place.
    pub open spec fn end_date(self) -> DateView {
        match self {
            EventTimeView::DateOnly { end_date, .. } => end_date,
            EventTimeView::DateTime { end, .. } => end.date,
        }
    }

    /// The event starts after it ends.
    pub open spec fn starts_after_end(self) -> bool {
        match self {
            EventTimeView::DateOnly { start_date, end_date } => end_date.precedes(start_date),
            EventTimeView::DateTime { start, end } => end.moment().precedes(start.moment()),
        }
    }

    /// The event is over at `now`: its end lies before `now`. An event known
    /// by its dates only lasts until its last day is over in UTC.
    pub open spec fn over_at(self, now: Moment) -> bool {
        match self {
            EventTimeView::DateOnly { end_date, .. } => !now.precedes(end_date.next_midnight()),
            EventTimeView::DateTime { end, .. } => end.moment().precedes(now),
        }
    }
}

/// By a clock set to UTC, an event known by its dates is over as soon as the
/// day that the clock shows is later than the event's last day, and not before.
pub proof fn lemma_over_after_last_day(start_date: DateView, end_date: DateView, now: DateTimeView)
    requires
        end_date.is_valid(),
        now.is_valid(),
        now.offset_seconds == 0,
    ensures
        (EventTimeView::DateOnly { start_date, end_date }).over_at(now.moment())
            <==> end_date.precedes(now.date),
{
    lemma_day_numbers_ascend(end_date, now.date);
}

/// When an event takes place: on given days, or from one instant to another.
#[derive(Clone, Copy, Debug, PartialEq, Eq, Structural, Hash)]
pub enum EventTime {
    DateOnly {
        /// The first day of the event, in the local timezone.
        start_date: Date,
        /// The last day of the event, in the local timezone.
        end_date: Date,
    },
    DateTime { start: DateTime, end: DateTime },
}

impl View for EventTime {
    type V = EventTimeView;

    open spec fn view(&self) -> EventTimeView {
        match *self {
            EventTime::DateOnly { start_date, end_date } => EventTimeView::DateOnly {
                start_date: start_date@,
                end_date: end_date@,
            },
            EventTime::DateTime { start, end } => EventTimeView::DateTime {
                start: start@,
                end: end@,
            },
        }
    }
}

impl EventTime {
    /// The instant by which events are put in order.
    pub fn start(&self) -> (instant: Instant)
        ensures
            instant@ == self@.start(),
    {
        match self {
            EventTime::DateOnly { start_date, .. } => start_date.midnight(),
            EventTime::DateTime { start, .. } => start.instant(),
        }
    }

    /// The day on which the event starts.
    pub fn start_date(&self) -> (date: Date)
        ensures
            date@ == self@.start_date(),
    {
        match self {
            EventTime::DateOnly { start_date, .. } => *start_date,
            EventTime::DateTime { start, .. } => start.date(),
        }
    }

    /// The day on which the event ends.
    pub fn end_date(&self) -> (date: Date)
        ensures
            date@ == self@.end_date(),
    {
        match self {
            EventTime::DateOnly { end_date, .. } => *end_date,
            EventTime::DateTime { end, .. } => end.date(),
        }
    }

    /// Whether the event starts after it ends.
    pub fn starts_after_end(&self) -> (wrong: bool)
        ensures
            wrong == self@.starts_after_end(),
    {
        match self {
            EventTime::DateOnly { start_date, end_date } => end_date.is_before(start_date),
            EventTime::DateTime { start, end } => end.instant().is_before(&start.instant()),
        }
    }

    /// Whether the event is over at `now`.
    pub fn over_at(&self, now: &Instant) -> (over: bool)
        ensures
            over == self@.over_at(now@),
    {
        match self {
            EventTime::DateOnly { end_date, .. } => !now.is_before(&end_date.next_midnight()),
            EventTime::DateTime { end, .. } => end.instant().is_before(now),
        }
    }
}

/// What an [`Event`] stands for.
pub ghost struct EventView {
    pub name: Seq<char>,
    pub details: Option<Seq<char>>,
    pub links: Seq<Seq<char>>,
    pub time: EventTimeView,
    pub country: Seq<char>,
    pub city: Seq<char>,
    pub styles: Seq<DanceStyle>,
    pub workshop: bool,
    pub social: bool,
    pub bands: Seq<Seq<char>>,
    pub callers: Seq<Seq<char>>,
    pub price: Option<Seq<char>>,
    pub organisation: Option<Seq<char>>,
    pub cancelled: bool,
}

/// Whether `link` is the address of a Facebook event.
pub open spec fn is_facebook_link(link: Seq<char>) -> bool {
    FACEBOOK_EVENT_PREFIX@.is_prefix_of(link)
}

impl EventView {
    /// What is wrong with the event, in the order in which it is checked.
    pub open spec fn problems(self) -> Seq<Seq<char>> {
        (if !self.workshop && !self.social {
            seq![NEITHER_WORKSHOP_NOR_SOCIAL@]
        } else {
            Seq::empty()
        }) + (if self.time.starts_after_end() {
            seq![START_AFTER_END@]
        } else {
            Seq::empty()
        }) + (if self.styles.len() == 0 {
            seq![NO_STYLES@]
        } else {
            Seq::empty()
        })
    }

    /// The event is a workshop or a social, does not start after it ends and
    /// has a dance style.
    pub open spec fn is_sound(self) -> bool {
        &&& self.workshop || self.social
        &&& !self.time.starts_after_end()
        &&& self.styles.len() > 0
    }

    /// `at` is the position of the first link that is a Facebook event
    /// (`facebook`) or the first that is none (`!facebook`).
    pub open spec fn first_link_at(self, facebook: bool, at: int) -> bool {
        &&& 0 <= at < self.links.len()
        &&& is_facebook_link(self.links[at]) == facebook
        &&& forall|j: int| 0 <= j < at ==> is_facebook_link(#[trigger] self.links[j]) != facebook
    }

    /// No link is a Facebook event (`facebook`), or every link is one (`!facebook`).
    pub open spec fn no_link(self, facebook: bool) -> bool {
        forall|j: int|
            0 <= j < self.links.len() ==> is_facebook_link(#[trigger] self.links[j]) != facebook
    }

    /// The event starts on one day and ends on another.
    pub open spec fn multiday(self) -> bool {
        self.time.start_date() != self.time.end_date()
    }
}

/// A dance event.
#[derive(Debug, PartialEq, Eq)]
pub struct Event {
    /// The name of the event.
    pub name: String,
    /// More details describing the event.
    pub details: Option<String>,
    /// URLs with more information about the event, including the Facebook event page if any.
    pub links: Vec<String>,
    /// When the event takes place.
    pub time: EventTime,
    pub country: String,
    pub city: String,
    /// The dance styles included in the event.
    pub styles: Vec<DanceStyle>,
    /// The event includes one or more workshops or lessons.
    pub workshop: bool,
    /// The event includes one or more social dances.
    pub social: bool,
    /// The names of the bands playing at the event.
    pub bands: Vec<String>,
    /// The names of the callers calling at the event, if applicable.
    pub callers: Vec<String>,
    /// The price or price range of the event, if available.
    pub price: Option<String>,
    /// The organisation who run the event.
    pub organisation: Option<String>,
    /// Whether the event has been cancelled.
    pub cancelled: bool,
}

impl View for Event {
    type V = EventView;

    open spec fn view(&self) -> EventView {
        EventView {
            name: self.name@,
            details: self.details.deep_view(),
            links: self.links.deep_view(),
            time: self.time@,
            country: self.country@,
            city: self.city@,
            styles: self.styles@,
            workshop: self.workshop,
            social: self.social,
            bands: self.bands.deep_view(),
            callers: self.callers.deep_view(),
            price: self.price.deep_view(),
            organisation: self.organisation.deep_view(),
            cancelled: self.cancelled,
        }
    }
}

impl DeepView for Event {
    type V = EventView;

    open spec fn deep_view(&self) -> EventView {
        self@
    }
}

/// A copy of the strings, each with the same text.
pub fn copy_strings(strings: &Vec<String>) -> (copy: Vec<String>)
    ensures
        copy.deep_view() == strings.deep_view(),
{
    let mut copy: Vec<String> = Vec::new();
    let mut i: usize = 0;
    while i < strings.len()
        invariant
            i <= strings.len(),
            copy.deep_view() == strings.deep_view().take(i as int),
        decreases strings.len() - i,
    {
        copy.push(strings[i].clone());
        assert(copy.deep_view() =~= strings.deep_view().take(i as int).push(strings@[i as int]@));
        assert(strings.deep_view().take(i + 1) =~= strings.deep_view().take(i as int).push(
            strings@[i as int]@,
        ));
        i += 1;
    }
    assert(strings.deep_view().take(strings.len() as int) =~= strings.deep_view());
    copy
}

/// A copy of the string, if there is one, with the same text.
pub fn copy_optional(string: &Option<String>) -> (copy: Option<String>)
    ensures
        copy.deep_view() == string.deep_view(),
{
    match string {
        Some(s) => Some(s.clone()),
        None => None,
    }
}

/// A copy of the styles.
pub fn copy_styles(styles: &Vec<DanceStyle>) -> (copy: Vec<DanceStyle>)
    ensures
        copy@ == styles@,
{
    let mut copy: Vec<DanceStyle> = Vec::new();
    let mut i: usize = 0;
    while i < styles.len()
        invariant
            i <= styles.len(),
            copy@ == styles@.take(i as int),
        decreases styles.len() - i,
    {
        copy.push(styles[i]);
        assert(styles@.take(i + 1) =~= styles@.take(i as int).push(styles@[i as int]));
        i += 1;
    }
    assert(styles@.take(styles.len() as int) =~= styles@);
    copy
}

impl Clone for Event {
    fn clone(&self) -> (copy: Event)
        ensures
            copy@ == self@,
    {
        Event {
            name: self.name.clone(),
            details: copy_optional(&self.details),
            links: copy_strings(&self.links),
            time: self.time,
            country: self.country.clone(),
            city: self.city.clone(),
            styles: copy_styles(&self.styles),
            workshop: self.workshop,
            social: self.social,
            bands: copy_strings(&self.bands),
            callers: copy_strings(&self.callers),
            price: copy_optional(&self.price),
            organisation: copy_optional(&self.organisation),
            cancelled: self.cancelled,
        }
    }
}

impl Event {
    /// Check that the event information is valid. Returns an empty list if it is, or a list of
    /// problems if not.
    pub fn validate(&self) -> (problems: Vec<&'static str>)
        ensures
            problems.deep_view() == self@.problems(),
            problems.len() == 0 <==> self@.is_sound(),
    {
        let mut problems: Vec<&'static str> = Vec::new();
        if !self.workshop && !self.social {
            problems.push(NEITHER_WORKSHOP_NOR_SOCIAL);
        }
        if self.time.starts_after_end() {
            problems.push(START_AFTER_END);
        }
        if self.styles.len() == 0 {
            problems.push(NO_STYLES);
        }
        assert(problems.deep_view() =~= self@.problems());
        problems
    }

    /// Get the URL of the event's Facebook event, if any.
    pub fn facebook_event(&self) -> (link: Option<&String>)
        ensures
            match link {
                Some(l) => exists|at: int| self@.first_link_at(true, at) && *l == self.links@[at],
                None => self@.no_link(true),
            },
    {
        self.first_link(true)
    }

    /// Get the event's first non-Facebook link.
    pub fn main_link(&self) -> (link: Option<&String>)
        ensures
            match link {
                Some(l) => exists|at: int| self@.first_link_at(false, at) && *l == self.links@[at],
                None => self@.no_link(false),
            },
    {
        self.first_link(false)
    }

    /// The first link that is a Facebook event (`facebook`) or that is none
    /// (`!facebook`).
    fn first_link(&self, facebook: bool) -> (link: Option<&String>)
        ensures
            match link {
                Some(l) => exists|at: int|
                    self@.first_link_at(facebook, at) && *l == self.links@[at],
                None => self@.no_link(facebook),
            },
    {
        let mut i: usize = 0;
        while i < self.links.len()
            invariant
                i <= self.links.len(),
                forall|j: int|
                    0 <= j < i ==> is_facebook_link(#[trigger] self@.links[j]) != facebook,
            decreases self.links.len() - i,
        {
            if starts_with(self.links[i].as_str(), FACEBOOK_EVENT_PREFIX) == facebook {
                assert(self@.first_link_at(facebook, i as int));
                return Some(&self.links[i]);
            }
            i += 1;
        }
        None
    }

    /// Checks whether the event lasts more than one day.
    pub fn multiday(&self) -> (multiday: bool)
        ensures
            multiday == self@.multiday(),
    {
        !self.time.start_date().same_day(&self.time.end_date())
    }

    /// The instant by which events are put in order of their start.
    pub fn start_time_sort_key(&self) -> (key: Instant)
        ensures
            key@ == self@.time.start(),
    {
        self.time.start()
    }

    /// The year in which the event starts.
    pub fn start_year(&self) -> (year: i32)
        ensures
            year == self@.time.start_date().year,
    {
        self.time.start_date().year()
    }

    /// The month in which the event starts.
    pub fn start_month(&self) -> (month: u32)
        ensures
            month == self@.time.start_date().month,
    {
        self.time.start_date().month()
    }
}

} // verus!
