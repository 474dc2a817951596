//! Calendar entries made from events.

use crate::event::{Event, EventTime, EventTimeView, EventView};
use crate::text::{join, joined};
use vstd::prelude::*;

verus! {

/// What stands before the name of a cancelled event in its calendar entry.
pub const CANCELLED_MARK: &'static str = "CANCELLED: ";

/// What stands between city and country in the location of a calendar entry.
pub const LOCATION_SEPARATOR: &'static str = ", ";

/// What stands between the parts of the description of a calendar entry.
pub const LINE_BREAK: &'static str = "\n";

/// What a [`CalendarEntry`] stands for.
pub ghost struct CalendarEntryView {
    pub summary: Seq<char>,
    pub time: EventTimeView,
    pub location: Seq<char>,
    pub description: Seq<char>,
    pub cancelled: bool,
}

/// The details of the event, if it has any, and then its links.
pub open spec fn description_parts(event: EventView) -> Seq<Seq<char>> {
    (match event.details {
        Some(details) => seq![details],
        None => Seq::empty(),
    }) + event.links
}

/// The calendar entry for the event: its name, marked if the event is
/// cancelled; its time; its city and country; and its details and links, one
/// to a line.
pub open spec fn entry_of(event: EventView) -> CalendarEntryView {
    CalendarEntryView {
        summary: if event.cancelled {
            CANCELLED_MARK@ + event.name
        } else {
            event.name
        },
        time: event.time,
        location: event.city + LOCATION_SEPARATOR@ + event.country,
        description: joined(description_parts(event), LINE_BREAK@),
        cancelled: event.cancelled,
    }
}

/// The calendar entries for the events, one for each and in the same order.
pub open spec fn entries_of(events: Seq<EventView>) -> Seq<CalendarEntryView> {
    events.map_values(|event: EventView| entry_of(event))
}

/// One entry of a calendar feed.
#[derive(Debug, PartialEq, Eq)]
pub struct CalendarEntry {
    /// The title of the entry.
    pub summary: String,
    /// An all-day span for an event known by its dates, instants otherwise.
    pub time: EventTime,
    pub location: String,
    pub description: String,
    pub cancelled: bool,
}

impl View for CalendarEntry {
    type V = CalendarEntryView;

    open spec fn view(&self) -> CalendarEntryView {
        CalendarEntryView {
            summary: self.summary@,
            time: self.time@,
            location: self.location@,
            description: self.description@,
            cancelled: self.cancelled,
        }
    }
}

impl DeepView for CalendarEntry {
    type V = CalendarEntryView;

    open spec fn deep_view(&self) -> CalendarEntryView {
        self@
    }
}

/// The calendar entry for the event.
pub fn event_to_entry(event: &Event) -> (entry: CalendarEntry)
    ensures
        entry@ == entry_of(event@),
{
    let mut summary = String::new();
    if event.cancelled {
        summary.append(CANCELLED_MARK);
    }
    summary.append(event.name.as_str());
    assert(summary@ =~= entry_of(event@).summary);
    let mut location = event.city.clone();
    location.append(LOCATION_SEPARATOR);
    location.append(event.country.as_str());
    let mut parts: Vec<String> = Vec::new();
    match &event.details {
        Some(details) => {
            parts.push(details.clone());
        },
        None => {},
    }
    let ghost head = parts.deep_view();
    assert(head =~= match event@.details {
        Some(details) => seq![details],
        None => Seq::empty(),
    });
    let mut i: usize = 0;
    while i < event.links.len()
        invariant
            i <= event.links.len(),
            parts.deep_view() == head + event@.links.take(i as int),
        decreases event.links.len() - i,
    {
        let ghost before = parts.deep_view();
        parts.push(event.links[i].clone());
        assert(parts.deep_view() =~= before.push(event.links@[i as int]@));
        assert(event@.links.take(i + 1) =~= event@.links.take(i as int).push(
            event.links@[i as int]@,
        ));
        i += 1;
    }
    assert(event@.links.take(event.links.len() as int) =~= event@.links);
    let description = join(&parts, LINE_BREAK);
    CalendarEntry { summary, time: event.time, location, description, cancelled: event.cancelled }
}

/// The calendar entries for the events, one for each and in the same order.
pub fn events_to_calendar(events: &Vec<&Event>) -> (entries: Vec<CalendarEntry>)
    ensures
        entries.deep_view() == entries_of(events.deep_view()),
{
    let mut entries: Vec<CalendarEntry> = Vec::new();
    let mut i: usize = 0;
    while i < events.len()
        invariant
            i <= events.len(),
            entries.len() == i,
            forall|k: int|
                0 <= k < i ==> (#[trigger] entries.deep_view()[k]) == entry_of(
                    events.deep_view()[k],
                ),
        decreases events.len() - i,
    {
        let ghost before = entries.deep_view();
        entries.push(event_to_entry(events[i]));
        proof {
            assert forall|k: int| 0 <= k < i + 1 implies (#[trigger] entries.deep_view()[k])
                == entry_of(events.deep_view()[k]) by {
                if k < i {
                    assert(entries.deep_view()[k] == before[k]);
                }
            }
        }
        i += 1;
    }
    assert(entries.deep_view() =~= entries_of(events.deep_view()));
    entries
}

} // verus!
