//! What the pages and feeds of the site show: the events that pass the
//! visitor's filters, in order, and the choices offered for narrowing them.

use crate::calendar::{entries_of, events_to_calendar, CalendarEntry, CalendarEntryView};
use crate::dancestyle::{lists_styles, DanceStyle};
use crate::event::EventView;
use crate::events::{city_names, lists, lists_countries, matched, styles_of, Country, Events};
use crate::filters::{Filters, FiltersView};
use crate::grouping::{group_by_month, is_grouping, is_sorted_by_start, sort_by_start, Month};
use crate::text::{chars_of, contains, occurs_in};
use crate::time::{is_utc_reading, now, Instant, Moment};
use vstd::prelude::*;

verus! {

/// Visitors who reach the site under a name that holds this are shown
/// Balfolk events, unless they ask for another style.
pub const BALFOLK_HOST: &'static str = "balfolk.org";

/// The filters that apply to a visitor who came by `hostname` with `filters`.
pub open spec fn effective(filters: FiltersView, hostname: Seq<char>) -> FiltersView {
    if occurs_in(BALFOLK_HOST@, hostname) && filters.style is None {
        FiltersView { style: Some(DanceStyle::Balfolk), ..filters }
    } else {
        filters
    }
}

/// What the front page shows.
#[derive(Debug, PartialEq, Eq)]
pub struct IndexPage {
    /// The filters that apply.
    pub filters: Filters,
    /// The events that pass the filters, by month.
    pub months: Vec<Month>,
    /// Whether the visitor set a filter.
    pub has_filters: bool,
    /// The countries to choose from, with their cities.
    pub countries: Vec<Country>,
    /// The cities to choose from, once a country is chosen.
    pub cities: Vec<String>,
    /// The styles to choose from.
    pub styles: Vec<DanceStyle>,
}

impl IndexPage {
    /// The page is the one to show for the given events, filters and host
    /// name at the instant `now`. Each list of choices is drawn from the
    /// events that pass the other filters, with the filter on that very
    /// choice left out.
    pub open spec fn shows(
        self,
        events: Seq<EventView>,
        filters: FiltersView,
        hostname: Seq<char>,
        now: Moment,
    ) -> bool {
        let applied = effective(filters, hostname);
        &&& self.filters@ == applied
        &&& self.has_filters == filters.has_some()
        &&& exists|sorted: Seq<EventView>| #[trigger]
            is_sorted_by_start(sorted, matched(events, applied, now)) && is_grouping(
                self.months.deep_view(),
                sorted,
            )
        &&& lists_countries(
            self.countries.deep_view(),
            matched(events, FiltersView { country: None, ..applied }, now),
        )
        &&& lists_styles(
            self.styles@,
            styles_of(matched(events, FiltersView { style: None, ..applied }, now)),
        )
        &&& if applied.country is Some {
            lists(
                self.cities.deep_view(),
                city_names(matched(events, FiltersView { city: None, ..applied }, now)),
            )
        } else {
            self.cities.len() == 0
        }
    }
}

/// The front page for a visitor who came by `hostname` with `filters`, at the
/// instant `now`.
pub fn index_at(events: &Events, filters: Filters, hostname: &str, now: &Instant) -> (page:
    IndexPage)
    ensures
        page.shows(events@, filters@, hostname@, now@),
{
    let has_filters = filters.has_some();
    let host = chars_of(hostname);
    let balfolk = chars_of(BALFOLK_HOST);
    let applied = if contains(&host, &balfolk) && filters.style.is_none() {
        // Default to only showing Balfolk events.
        filters.with_style(Some(DanceStyle::Balfolk))
    } else {
        filters
    };
    let countries = events.countries_at(&applied.with_country(None), now);
    let styles = events.styles_at(&applied.with_style(None), now);
    let cities = if applied.country.is_some() {
        events.cities_at(&applied.with_city(None), now)
    } else {
        Vec::new()
    };
    let found = events.matching_at(&applied, now);
    let sorted = sort_by_start(&found);
    let months = group_by_month(&sorted);
    IndexPage { filters: applied, months, has_filters, countries, cities, styles }
}

/// The front page for a visitor who came by `hostname` with `filters`, as of
/// the time at which it is called.
pub fn index(events: &Events, filters: Filters, hostname: &str) -> (page: IndexPage)
    ensures
        exists|now: Moment|
            #[trigger] is_utc_reading(now)
                && page.shows(events@, filters@, hostname@, now),
{
    let instant = now();
    index_at(events, filters, hostname, &instant)
}

/// Copies of the events that pass the filters at the instant `now`, in
/// order of their start.
pub fn index_export_at(events: &Events, filters: &Filters, now: &Instant) -> (export: Events)
    ensures
        is_sorted_by_start(export@, matched(events@, filters@, now@)),
{
    let found = events.matching_at(filters, now);
    let sorted = sort_by_start(&found);
    Events::cloned(sorted)
}

/// Copies of the events that pass the filters as of the time at which it is
/// called, in order of their start.
pub fn index_export(events: &Events, filters: &Filters) -> (export: Events)
    ensures
        exists|now: Moment|
            #[trigger] is_utc_reading(now)
                && is_sorted_by_start(export@, matched(events@, filters@, now)),
{
    let instant = now();
    index_export_at(events, filters, &instant)
}

/// `entries` are the calendar entries of the events that pass the filters at
/// the instant `now`, in order of their start.
pub open spec fn is_calendar(
    entries: Seq<CalendarEntryView>,
    events: Seq<EventView>,
    filters: FiltersView,
    now: Moment,
) -> bool {
    exists|sorted: Seq<EventView>| #[trigger]
        is_sorted_by_start(sorted, matched(events, filters, now)) && entries == entries_of(
            sorted,
        )
}

/// The calendar entries of the events that pass the filters at the instant
/// `now`, in order of their start.
pub fn index_ics_at(events: &Events, filters: &Filters, now: &Instant) -> (entries: Vec<
    CalendarEntry,
>)
    ensures
        is_calendar(entries.deep_view(), events@, filters@, now@),
{
    let found = events.matching_at(filters, now);
    let sorted = sort_by_start(&found);
    events_to_calendar(&sorted)
}

/// The calendar entries of the events that pass the filters as of the time
/// at which it is called, in order of their start.
pub fn index_ics(events: &Events, filters: &Filters) -> (entries: Vec<CalendarEntry>)
    ensures
        exists|now: Moment|
            #[trigger] is_utc_reading(now)
                && is_calendar(entries.deep_view(), events@, filters@, now),
{
    let instant = now();
    index_ics_at(events, filters, &instant)
}

} // verus!
