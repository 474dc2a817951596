use dancelist::calendar::{event_to_entry, events_to_calendar, CalendarEntry};
use dancelist::dancestyle::DanceStyle;
use dancelist::event::{Event, EventTime};
use dancelist::events::Events;
use dancelist::filters::Filters;
use dancelist::index::{index_export, index_export_at, index_ics, index_ics_at};
use dancelist::time::{Date, DateTime};

fn evening(name: &str, year: i32, month: u32, day: u32) -> Event {
    let date = Date::from_ymd(year, month, day);
    Event {
        name: name.to_string(),
        time: EventTime::DateTime {
            start: DateTime::new(date, 19 * 3600, 0, 3600).unwrap(),
            end: DateTime::new(date, 23 * 3600, 0, 3600).unwrap(),
        },
        details: None,
        links: vec![],
        country: "Netherlands".to_string(),
        city: "Utrecht".to_string(),
        styles: vec![DanceStyle::Balfolk],
        workshop: false,
        social: true,
        bands: vec![],
        callers: vec![],
        price: None,
        organisation: None,
        cancelled: false,
    }
}

#[test]
fn an_entry_tells_what_where_and_when() {
    let mut event = evening("Bal", 2022, 5, 6);
    event.details = Some("Bring water".to_string());
    event.links = vec![
        "https://example.org/bal".to_string(),
        "https://www.facebook.com/events/1".to_string(),
    ];
    assert_eq!(
        event_to_entry(&event),
        CalendarEntry {
            summary: "Bal".to_string(),
            time: event.time,
            location: "Utrecht, Netherlands".to_string(),
            description:
                "Bring water\nhttps://example.org/bal\nhttps://www.facebook.com/events/1"
                    .to_string(),
            cancelled: false,
        }
    );
}

#[test]
fn a_cancelled_event_is_marked() {
    let mut event = evening("Bal", 2022, 5, 6);
    event.cancelled = true;
    let entry = event_to_entry(&event);
    assert_eq!(entry.summary, "CANCELLED: Bal");
    assert!(entry.cancelled);
    assert_eq!(entry.description, "");
}

#[test]
fn the_description_holds_what_there_is() {
    let mut event = evening("Bal", 2022, 5, 6);
    event.links = vec!["https://example.org/bal".to_string()];
    assert_eq!(event_to_entry(&event).description, "https://example.org/bal");
    event.links = vec![];
    event.details = Some("Bring water".to_string());
    assert_eq!(event_to_entry(&event).description, "Bring water");
}

#[test]
fn an_all_day_event_keeps_its_dates() {
    let mut event = evening("Festival", 2022, 5, 6);
    event.time = EventTime::DateOnly {
        start_date: Date::from_ymd(2022, 5, 6),
        end_date: Date::from_ymd(2022, 5, 8),
    };
    assert_eq!(event_to_entry(&event).time, event.time);
}

#[test]
fn entries_come_in_the_order_of_the_events() {
    let a = evening("a", 2022, 5, 6);
    let b = evening("b", 2022, 5, 5);
    let entries = events_to_calendar(&vec![&a, &b]);
    let summaries: Vec<&str> = entries.iter().map(|entry| entry.summary.as_str()).collect();
    assert_eq!(summaries, vec!["a", "b"]);
    assert!(events_to_calendar(&vec![]).is_empty());
}

#[test]
fn events_that_start_together_keep_their_order_in_the_feed() {
    let events = Events {
        events: vec![
            evening("late", 2022, 5, 7),
            evening("first", 2022, 5, 6),
            evening("second", 2022, 5, 6),
            evening("early", 2022, 5, 5),
            evening("third", 2022, 5, 6),
        ],
    };
    let now = DateTime::new(Date::from_ymd(2022, 1, 1), 0, 0, 0).unwrap();
    let entries = index_ics_at(&events, &Filters::default(), &now.instant());
    let summaries: Vec<&str> = entries.iter().map(|entry| entry.summary.as_str()).collect();
    assert_eq!(summaries, vec!["early", "first", "second", "third", "late"]);
}

#[test]
fn the_feed_holds_what_passes_the_filters() {
    let mut paris = evening("paris", 2022, 5, 7);
    paris.country = "France".to_string();
    paris.city = "Paris".to_string();
    let events = Events {
        events: vec![
            paris,
            evening("over", 2021, 5, 6),
            evening("utrecht", 2022, 5, 6),
        ],
    };
    let now = DateTime::new(Date::from_ymd(2022, 1, 1), 0, 0, 0).unwrap();
    let filters = Filters::default().with_country(Some("Netherlands"));
    let entries = index_ics_at(&events, &filters, &now.instant());
    assert_eq!(entries.len(), 1);
    assert_eq!(entries[0].summary, "utrecht");
    assert_eq!(entries[0].location, "Utrecht, Netherlands");
}

#[test]
fn the_export_is_sorted_by_start() {
    let events = Events {
        events: vec![
            evening("late", 2022, 5, 7),
            evening("first", 2022, 5, 6),
            evening("over", 2021, 5, 6),
            evening("second", 2022, 5, 6),
        ],
    };
    let now = DateTime::new(Date::from_ymd(2022, 1, 1), 0, 0, 0).unwrap();
    let export = index_export_at(&events, &Filters::default(), &now.instant());
    assert_eq!(
        export,
        Events {
            events: vec![
                events.events[1].clone(),
                events.events[3].clone(),
                events.events[0].clone()
            ]
        }
    );
    let all = index_export_at(&events, &Filters::all(), &now.instant());
    assert_eq!(all.events.len(), 4);
    assert_eq!(all.events[0].name, "over");
}

#[test]
fn feeds_as_of_now_leave_out_what_is_over() {
    let events = Events {
        events: vec![evening("to come", 3000, 5, 7), evening("over", 1000, 5, 6)],
    };
    let export = index_export(&events, &Filters::default());
    assert_eq!(export.events.len(), 1);
    assert_eq!(export.events[0].name, "to come");
    let entries = index_ics(&events, &Filters::default());
    assert_eq!(entries.len(), 1);
    assert_eq!(entries[0].summary, "to come");
}
