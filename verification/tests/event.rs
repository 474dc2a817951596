use dancelist::dancestyle::DanceStyle;
use dancelist::event::{Event, EventTime};
use dancelist::time::{Date, DateTime};

fn sample_event() -> Event {
    Event {
        name: "Ceilidh".to_string(),
        time: EventTime::DateOnly {
            start_date: Date::from_ymd(2022, 3, 4),
            end_date: Date::from_ymd(2022, 3, 6),
        },
        details: None,
        links: vec![],
        country: "UK".to_string(),
        city: "Leeds".to_string(),
        styles: vec![DanceStyle::EnglishCeilidh],
        workshop: false,
        social: true,
        bands: vec![],
        callers: vec![],
        price: None,
        organisation: None,
        cancelled: false,
    }
}

#[test]
fn a_sound_event_has_no_problems() {
    assert!(sample_event().validate().is_empty());
}

#[test]
fn validate_lists_every_problem_in_order() {
    let mut event = sample_event();
    event.social = false;
    event.styles = vec![];
    event.time = EventTime::DateOnly {
        start_date: Date::from_ymd(2022, 3, 7),
        end_date: Date::from_ymd(2022, 3, 6),
    };
    assert_eq!(
        event.validate(),
        vec![
            "Must have at least a workshop or a social.",
            "Start date must not be before or equal to end date.",
            "Must include at least one style of dance.",
        ]
    );
}

#[test]
fn validate_compares_instants_across_offsets() {
    let mut event = sample_event();
    let day = Date::from_ymd(2022, 3, 4);
    // 19:00 at +02:00 is 17:00 UTC; 18:00 at +00:00 is an hour later.
    event.time = EventTime::DateTime {
        start: DateTime::new(day, 19 * 3600, 0, 7200).unwrap(),
        end: DateTime::new(day, 18 * 3600, 0, 0).unwrap(),
    };
    assert!(event.validate().is_empty());
    event.time = EventTime::DateTime {
        start: DateTime::new(day, 19 * 3600, 0, 0).unwrap(),
        end: DateTime::new(day, 20 * 3600, 0, 7200).unwrap(),
    };
    assert_eq!(
        event.validate(),
        vec!["Start date must not be before or equal to end date."]
    );
}

#[test]
fn an_event_may_start_and_end_at_the_same_time() {
    let mut event = sample_event();
    let at = DateTime::new(Date::from_ymd(2022, 3, 4), 19 * 3600, 5, 3600).unwrap();
    event.time = EventTime::DateTime { start: at, end: at };
    assert!(event.validate().is_empty());
    assert!(!event.multiday());
}

#[test]
fn links_are_told_apart_by_their_prefix() {
    let mut event = sample_event();
    assert_eq!(event.facebook_event(), None);
    assert_eq!(event.main_link(), None);
    event.links = vec![
        "https://example.org/ceilidh".to_string(),
        "https://www.facebook.com/events/123".to_string(),
        "https://www.facebook.com/events/456".to_string(),
        "https://example.org/other".to_string(),
    ];
    assert_eq!(
        event.facebook_event(),
        Some(&"https://www.facebook.com/events/123".to_string())
    );
    assert_eq!(
        event.main_link(),
        Some(&"https://example.org/ceilidh".to_string())
    );
    event.links = vec!["https://www.facebook.com/events/".to_string()];
    assert_eq!(
        event.facebook_event(),
        Some(&"https://www.facebook.com/events/".to_string())
    );
    assert_eq!(event.main_link(), None);
    event.links = vec!["https://www.facebook.com/event".to_string()];
    assert_eq!(event.facebook_event(), None);
}

#[test]
fn multiday_compares_the_days() {
    let mut event = sample_event();
    assert!(event.multiday());
    event.time = EventTime::DateOnly {
        start_date: Date::from_ymd(2022, 3, 4),
        end_date: Date::from_ymd(2022, 3, 4),
    };
    assert!(!event.multiday());
    event.time = EventTime::DateTime {
        start: DateTime::new(Date::from_ymd(2022, 3, 4), 23 * 3600, 0, 0).unwrap(),
        end: DateTime::new(Date::from_ymd(2022, 3, 5), 3600, 0, 0).unwrap(),
    };
    assert!(event.multiday());
}

#[test]
fn the_start_is_read_off_the_local_date() {
    let mut event = sample_event();
    assert_eq!(event.start_year(), 2022);
    assert_eq!(event.start_month(), 3);
    event.time = EventTime::DateTime {
        start: DateTime::new(Date::from_ymd(2021, 12, 31), 23 * 3600, 0, -5 * 3600).unwrap(),
        end: DateTime::new(Date::from_ymd(2022, 1, 1), 3600, 0, -5 * 3600).unwrap(),
    };
    assert_eq!(event.start_year(), 2021);
    assert_eq!(event.start_month(), 12);
}

#[test]
fn the_sort_key_puts_dates_and_instants_on_one_line() {
    let mut by_date = sample_event();
    by_date.time = EventTime::DateOnly {
        start_date: Date::from_ymd(2022, 3, 4),
        end_date: Date::from_ymd(2022, 3, 4),
    };
    let mut by_instant = sample_event();
    by_instant.time = EventTime::DateTime {
        start: DateTime::new(Date::from_ymd(2022, 3, 4), 3600, 0, 3600).unwrap(),
        end: DateTime::new(Date::from_ymd(2022, 3, 4), 7200, 0, 3600).unwrap(),
    };
    // 01:00 at +01:00 is midnight UTC, the start of the day.
    assert_eq!(by_date.start_time_sort_key(), by_instant.start_time_sort_key());
    by_instant.time = EventTime::DateTime {
        start: DateTime::new(Date::from_ymd(2022, 3, 4), 0, 0, 3600).unwrap(),
        end: DateTime::new(Date::from_ymd(2022, 3, 4), 7200, 0, 3600).unwrap(),
    };
    assert!(by_instant
        .start_time_sort_key()
        .is_before(&by_date.start_time_sort_key()));
}

#[test]
fn a_clone_equals_the_event() {
    let mut event = sample_event();
    event.details = Some("Bring shoes".to_string());
    event.links = vec!["https://example.org".to_string()];
    event.bands = vec!["The Band".to_string()];
    event.callers = vec!["A Caller".to_string()];
    event.price = Some("£5".to_string());
    event.organisation = Some("Club".to_string());
    event.cancelled = true;
    assert_eq!(event.clone(), event);
}
