//! The criteria by which events are selected.

use crate::dancestyle::{has_style, DanceStyle};
use crate::event::{copy_optional, Event, EventTimeView, EventView};
use crate::text::{chars_of, contains, lowercase, lowercased, occurs_in, same_text};
use crate::time::{DateTime, Instant, Moment};
use vstd::prelude::*;

verus! {

/// Which events to show, by whether they are over.
#[derive(Clone, Copy, Debug, PartialEq, Eq, Structural, Hash)]
pub enum DateFilter {
    /// Events that are not over yet.
    Future,
    /// Events that are over.
    Past,
    /// All events.
    All,
}

impl DateFilter {
    /// Whether an event taking place at `time` passes at the instant `now`.
    pub open spec fn accepts(self, time: EventTimeView, now: Moment) -> bool {
        match self {
            DateFilter::Future => !time.over_at(now),
            DateFilter::Past => time.over_at(now),
            DateFilter::All => true,
        }
    }
}

impl Default for DateFilter {
    fn default() -> (filter: DateFilter)
        ensures
            filter == DateFilter::Future,
    {
        DateFilter::Future
    }
}

/// What a set of [`Filters`] stands for.
pub ghost struct FiltersView {
    pub date: DateFilter,
    pub text: Option<Seq<char>>,
    pub country: Option<Seq<char>>,
    pub city: Option<Seq<char>>,
    pub style: Option<DanceStyle>,
    pub organisation: Option<Seq<char>>,
}

/// Whether `needle`, in lower case, occurs in the lower-case form of `hay`.
pub open spec fn occurs_ignoring_case(needle: Seq<char>, hay: Seq<char>) -> bool {
    occurs_in(lowercased(needle), lowercased(hay))
}

/// Whether `needle` occurs, whatever the case of its letters, in one of `hays`.
pub open spec fn occurs_in_any(needle: Seq<char>, hays: Seq<Seq<char>>) -> bool {
    exists|i: int| 0 <= i < hays.len() && occurs_ignoring_case(needle, #[trigger] hays[i])
}

/// Whether the search text `needle` finds the event: it is empty, or occurs,
/// whatever the case of its letters, in the event's name, details or city or
/// in the name of one of its bands or callers.
pub open spec fn text_found(needle: Seq<char>, event: EventView) -> bool {
    ||| needle.len() == 0
    ||| occurs_ignoring_case(needle, event.name)
    ||| (event.details matches Some(details) && occurs_ignoring_case(needle, details))
    ||| occurs_ignoring_case(needle, event.city)
    ||| occurs_in_any(needle, event.bands)
    ||| occurs_in_any(needle, event.callers)
}

impl FiltersView {
    /// The filters that let every event pass.
    pub open spec fn everything() -> FiltersView {
        FiltersView {
            date: DateFilter::All,
            text: None,
            country: None,
            city: None,
            style: None,
            organisation: None,
        }
    }

    /// The filters that let the events pass that are not over.
    pub open spec fn upcoming() -> FiltersView {
        FiltersView { date: DateFilter::Future, ..FiltersView::everything() }
    }

    /// Whether the event passes every criterion that is set, at the instant `now`.
    pub open spec fn accepts(self, event: EventView, now: Moment) -> bool {
        &&& self.date.accepts(event.time, now)
        &&& (self.text matches Some(needle) ==> text_found(needle, event))
        &&& (self.country matches Some(country) ==> event.country == country)
        &&& (self.city matches Some(city) ==> event.city == city)
        &&& (self.style matches Some(style) ==> event.styles.contains(style))
        &&& (self.organisation matches Some(organisation) ==> event.organisation == Some(
            organisation,
        ))
    }

    /// Some criterion differs from those of [`Filters::default`].
    pub open spec fn has_some(self) -> bool {
        ||| self.date != DateFilter::Future
        ||| self.text is Some
        ||| self.country is Some
        ||| self.city is Some
        ||| self.style is Some
        ||| self.organisation is Some
    }
}

/// Criteria for selecting events. A criterion that is not set lets every
/// event pass.
#[derive(Debug, PartialEq, Eq)]
pub struct Filters {
    pub date: DateFilter,
    /// Text to look for in names, details, cities, bands and callers.
    pub text: Option<String>,
    pub country: Option<String>,
    pub city: Option<String>,
    pub style: Option<DanceStyle>,
    pub organisation: Option<String>,
}

impl View for Filters {
    type V = FiltersView;

    open spec fn view(&self) -> FiltersView {
        FiltersView {
            date: self.date,
            text: self.text.deep_view(),
            country: self.country.deep_view(),
            city: self.city.deep_view(),
            style: self.style,
            organisation: self.organisation.deep_view(),
        }
    }
}

impl Default for Filters {
    /// The filters that show what is not over yet.
    fn default() -> (filters: Filters)
        ensures
            filters@ == FiltersView::upcoming(),
    {
        Filters {
            date: DateFilter::Future,
            text: None,
            country: None,
            city: None,
            style: None,
            organisation: None,
        }
    }
}

impl Clone for Filters {
    fn clone(&self) -> (copy: Filters)
        ensures
            copy@ == self@,
    {
        Filters {
            date: self.date,
            text: copy_optional(&self.text),
            country: copy_optional(&self.country),
            city: copy_optional(&self.city),
            style: self.style,
            organisation: copy_optional(&self.organisation),
        }
    }
}

/// The text as a string of its own, if there is one.
fn owned(text: Option<&str>) -> (result: Option<String>)
    ensures
        result.deep_view() == match text {
            Some(t) => Some(t@),
            None => None,
        },
{
    match text {
        Some(t) => Some(t.to_owned()),
        None => None,
    }
}

/// Whether `needle`, already in lower case, occurs in the lower-case form of `hay`.
fn found_in(needle: &Vec<char>, hay: &str) -> (found: bool)
    ensures
        found == occurs_in(needle@, lowercased(hay@)),
{
    let lower = lowercase(hay);
    let hay_chars = chars_of(lower.as_str());
    contains(&hay_chars, needle)
}

/// Whether `needle`, already in lower case, occurs in the lower-case form of
/// one of `hays`.
fn found_in_any(needle: &Vec<char>, hays: &Vec<String>) -> (found: bool)
    ensures
        found == exists|i: int|
            0 <= i < hays.len() && occurs_in(needle@, lowercased(#[trigger] hays.deep_view()[i])),
{
    let mut i: usize = 0;
    while i < hays.len()
        invariant
            i <= hays.len(),
            forall|k: int|
                0 <= k < i ==> !occurs_in(needle@, lowercased(#[trigger] hays.deep_view()[k])),
        decreases hays.len() - i,
    {
        if found_in(needle, hays[i].as_str()) {
            assert(occurs_in(needle@, lowercased(hays.deep_view()[i as int])));
            return true;
        }
        i += 1;
    }
    false
}

/// Whether the search text finds the event.
pub fn finds(needle: &str, event: &Event) -> (found: bool)
    ensures
        found == text_found(needle@, event@),
{
    if needle.is_empty() {
        return true;
    }
    let lower = lowercase(needle);
    let needle_chars = chars_of(lower.as_str());
    if found_in(&needle_chars, event.name.as_str()) {
        return true;
    }
    let in_details = match &event.details {
        Some(details) => found_in(&needle_chars, details.as_str()),
        None => false,
    };
    if in_details {
        return true;
    }
    if found_in(&needle_chars, event.city.as_str()) {
        return true;
    }
    let in_bands = found_in_any(&needle_chars, &event.bands);
    let in_callers = found_in_any(&needle_chars, &event.callers);
    proof {
        assert(in_bands == occurs_in_any(needle@, event@.bands));
        assert(in_callers == occurs_in_any(needle@, event@.callers));
    }
    in_bands || in_callers
}

/// Whether `text` is set and reads `wanted`.
fn is_text(text: &Option<String>, wanted: &str) -> (same: bool)
    ensures
        same == (text.deep_view() == Some(wanted@)),
{
    match text {
        Some(t) => same_text(t.as_str(), wanted),
        None => false,
    }
}

impl Filters {
    /// The filters that let every event pass.
    pub fn all() -> (filters: Filters)
        ensures
            filters@ == FiltersView::everything(),
    {
        Filters {
            date: DateFilter::All,
            text: None,
            country: None,
            city: None,
            style: None,
            organisation: None,
        }
    }

    /// Whether some criterion differs from those of [`Filters::default`].
    pub fn has_some(&self) -> (some: bool)
        ensures
            some == self@.has_some(),
    {
        !matches!(self.date, DateFilter::Future) || self.text.is_some() || self.country.is_some()
            || self.city.is_some() || self.style.is_some() || self.organisation.is_some()
    }

    /// These filters with the date criterion replaced.
    pub fn with_date(&self, date: DateFilter) -> (filters: Filters)
        ensures
            filters@ == (FiltersView { date: date, ..self@ }),
    {
        Filters {
            date,
            text: copy_optional(&self.text),
            country: copy_optional(&self.country),
            city: copy_optional(&self.city),
            style: self.style,
            organisation: copy_optional(&self.organisation),
        }
    }

    /// These filters with the search text replaced.
    pub fn with_text(&self, text: Option<&str>) -> (filters: Filters)
        ensures
            filters@ == (FiltersView {
                text: match text {
                    Some(t) => Some(t@),
                    None => None,
                },
                ..self@
            }),
    {
        Filters {
            date: self.date,
            text: owned(text),
            country: copy_optional(&self.country),
            city: copy_optional(&self.city),
            style: self.style,
            organisation: copy_optional(&self.organisation),
        }
    }

    /// These filters with the organisation criterion replaced.
    pub fn with_organisation(&self, organisation: Option<&str>) -> (filters: Filters)
        ensures
            filters@ == (FiltersView {
                organisation: match organisation {
                    Some(o) => Some(o@),
                    None => None,
                },
                ..self@
            }),
    {
        Filters {
            date: self.date,
            text: copy_optional(&self.text),
            country: copy_optional(&self.country),
            city: copy_optional(&self.city),
            style: self.style,
            organisation: owned(organisation),
        }
    }

    /// These filters with the country criterion replaced.
    pub fn with_country(&self, country: Option<&str>) -> (filters: Filters)
        ensures
            filters@ == (FiltersView {
                country: match country {
                    Some(c) => Some(c@),
                    None => None,
                },
                ..self@
            }),
    {
        Filters {
            date: self.date,
            text: copy_optional(&self.text),
            country: owned(country),
            city: copy_optional(&self.city),
            style: self.style,
            organisation: copy_optional(&self.organisation),
        }
    }

    /// These filters with the city criterion replaced.
    pub fn with_city(&self, city: Option<&str>) -> (filters: Filters)
        ensures
            filters@ == (FiltersView {
                city: match city {
                    Some(c) => Some(c@),
                    None => None,
                },
                ..self@
            }),
    {
        Filters {
            date: self.date,
            text: copy_optional(&self.text),
            country: copy_optional(&self.country),
            city: owned(city),
            style: self.style,
            organisation: copy_optional(&self.organisation),
        }
    }

    /// These filters with the style criterion replaced.
    pub fn with_style(&self, style: Option<DanceStyle>) -> (filters: Filters)
        ensures
            filters@ == (FiltersView { style: style, ..self@ }),
    {
        Filters {
            date: self.date,
            text: copy_optional(&self.text),
            country: copy_optional(&self.country),
            city: copy_optional(&self.city),
            style,
            organisation: copy_optional(&self.organisation),
        }
    }

    /// Whether the event's time passes the date criterion at the instant `now`.
    fn date_matches(&self, event: &Event, now: &Instant) -> (passes: bool)
        ensures
            passes == self@.date.accepts(event@.time, now@),
    {
        match self.date {
            DateFilter::Future => !event.time.over_at(now),
            DateFilter::Past => event.time.over_at(now),
            DateFilter::All => true,
        }
    }

    /// Whether the event passes every criterion that is set, at the instant `now`.
    pub fn matches_at(&self, event: &Event, now: &Instant) -> (passes: bool)
        ensures
            passes == self@.accepts(event@, now@),
    {
        if !self.date_matches(event, now) {
            return false;
        }
        let text_passes = match &self.text {
            Some(needle) => finds(needle.as_str(), event),
            None => true,
        };
        if !text_passes {
            return false;
        }
        let country_passes = match &self.country {
            Some(country) => same_text(event.country.as_str(), country.as_str()),
            None => true,
        };
        if !country_passes {
            return false;
        }
        let city_passes = match &self.city {
            Some(city) => same_text(event.city.as_str(), city.as_str()),
            None => true,
        };
        if !city_passes {
            return false;
        }
        let style_passes = match self.style {
            Some(style) => has_style(&event.styles, style),
            None => true,
        };
        if !style_passes {
            return false;
        }
        match &self.organisation {
            Some(organisation) => is_text(&event.organisation, organisation.as_str()),
            None => true,
        }
    }

    /// Whether the event passes every criterion that is set, at the time `now`.
    pub fn matches(&self, event: &Event, now: &DateTime) -> (passes: bool)
        ensures
            passes == self@.accepts(event@, now@.moment()),
    {
        let instant = now.instant();
        self.matches_at(event, &instant)
    }
}

} // verus!
