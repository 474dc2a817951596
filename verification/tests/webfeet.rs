use dancelist::dancestyle::DanceStyle;
use dancelist::event::{Event, EventTime};
use dancelist::events::Events;
use dancelist::importers::webfeet::{
    convert, convert_style, import_events, parse_date, replace_entities, Entry, EventRecord, Style,
};
use dancelist::time::Date;

fn entry(value: &str, style: Option<Style>) -> Entry {
    Entry {
        value: value.to_string(),
        style,
    }
}

fn record() -> EventRecord {
    EventRecord {
        id: 17,
        bands: vec![
            entry("Vertical Expression", Some(Style::DanceContra)),
            entry("Linda Game", None),
        ],
        callers: vec![entry("Lynne Render", None)],
        titles: vec![],
        location: "Exeter".to_string(),
        url: "https://www.webfeet.org/eceilidh/gig17".to_string(),
        date: "20220305".to_string(),
    }
}

fn converted() -> Event {
    Event {
        name: "Vertical Expression & Linda Game in Exeter".to_string(),
        details: None,
        links: vec!["https://www.webfeet.org/eceilidh/gig17".to_string()],
        time: EventTime::DateOnly {
            start_date: Date::from_ymd(2022, 3, 5),
            end_date: Date::from_ymd(2022, 3, 5),
        },
        country: "UK".to_string(),
        city: "Exeter".to_string(),
        styles: vec![DanceStyle::Contra],
        workshop: false,
        social: true,
        bands: vec!["Vertical Expression".to_string(), "Linda Game".to_string()],
        callers: vec!["Lynne Render".to_string()],
        price: None,
        organisation: Some("Webfeet".to_string()),
        cancelled: false,
    }
}

#[test]
fn parse_dates() {
    assert_eq!(
        parse_date("20210114"),
        Some(EventTime::DateOnly {
            start_date: Date::from_ymd(2021, 1, 14),
            end_date: Date::from_ymd(2021, 1, 14),
        })
    );
    assert_eq!(
        parse_date("20210114-16"),
        Some(EventTime::DateOnly {
            start_date: Date::from_ymd(2021, 1, 14),
            end_date: Date::from_ymd(2021, 1, 16),
        })
    );
    assert_eq!(
        parse_date("20210114-0203"),
        Some(EventTime::DateOnly {
            start_date: Date::from_ymd(2021, 1, 14),
            end_date: Date::from_ymd(2021, 2, 3),
        })
    );
    assert_eq!(
        parse_date("20210114-20220607"),
        Some(EventTime::DateOnly {
            start_date: Date::from_ymd(2021, 1, 14),
            end_date: Date::from_ymd(2022, 6, 7),
        })
    );
}

#[test]
fn dates_that_cannot_be_read_give_nothing() {
    assert_eq!(parse_date(""), None);
    assert_eq!(parse_date("2021011"), None);
    assert_eq!(parse_date("20210231"), None);
    assert_eq!(parse_date("20210114-32"), None);
    assert_eq!(parse_date("20210114-1301"), None);
    assert_eq!(parse_date("20210114-202206071"), None);
    assert_eq!(parse_date("yesterday"), None);
}

#[test]
fn a_span_may_end_with_the_separator() {
    assert_eq!(
        parse_date("20210114-"),
        Some(EventTime::DateOnly {
            start_date: Date::from_ymd(2021, 1, 14),
            end_date: Date::from_ymd(2021, 1, 14),
        })
    );
    assert_eq!(
        parse_date("20210114-5"),
        Some(EventTime::DateOnly {
            start_date: Date::from_ymd(2021, 1, 14),
            end_date: Date::from_ymd(2021, 1, 15),
        })
    );
}

#[test]
fn styles_are_converted() {
    assert_eq!(convert_style(Style::Contra), Some(DanceStyle::Contra));
    assert_eq!(convert_style(Style::DanceContra), Some(DanceStyle::Contra));
    assert_eq!(
        convert_style(Style::DanceAmericanAmericanContra),
        Some(DanceStyle::Contra)
    );
    assert_eq!(convert_style(Style::DanceEurobal), Some(DanceStyle::Balfolk));
    assert_eq!(convert_style(Style::DanceEuropean), Some(DanceStyle::Balfolk));
    assert_eq!(
        convert_style(Style::DanceFrenchBreton),
        Some(DanceStyle::Balfolk)
    );
    assert_eq!(
        convert_style(Style::DanceCountryDance),
        Some(DanceStyle::Playford)
    );
    assert_eq!(
        convert_style(Style::DanceEnglishCeilidh),
        Some(DanceStyle::EnglishCeilidh)
    );
    assert_eq!(convert_style(Style::DanceEnglishFolk), None);
}

#[test]
fn the_entity_is_replaced() {
    assert_eq!(replace_entities("Ma&icirc;tre"), "Ma&#238;tre");
    assert_eq!(
        replace_entities("&icirc;&icirc; and &amp; and &icirc"),
        "&#238;&#238; and &amp; and &icirc"
    );
    assert_eq!(replace_entities("<eventlist/>"), "<eventlist/>");
    assert_eq!(replace_entities(""), "");
}

#[test]
fn a_record_without_a_title_is_named_by_its_bands() {
    assert_eq!(convert(&record()), Some(converted()));
}

#[test]
fn a_title_names_the_event() {
    let mut record = record();
    record.titles = vec![
        entry("Exeter Contra", Some(Style::DanceEnglishCeilidh)),
        entry("[Cancelled]", None),
    ];
    let event = convert(&record).unwrap();
    assert_eq!(event.name, "Exeter Contra");
    assert_eq!(event.details, None);
    assert!(!event.cancelled);
    assert_eq!(
        event.styles,
        vec![DanceStyle::Contra, DanceStyle::EnglishCeilidh]
    );
}

#[test]
fn a_remark_becomes_the_details() {
    let mut record = record();
    record.titles = vec![entry("[Sold out]", None)];
    let event = convert(&record).unwrap();
    assert_eq!(event.name, "Vertical Expression & Linda Game in Exeter");
    assert_eq!(event.details, Some("[Sold out]".to_string()));
    assert!(!event.cancelled);
}

#[test]
fn cancelled_and_postponed_events_are_marked() {
    let mut record = record();
    record.titles = vec![entry("[Cancelled]", None)];
    let event = convert(&record).unwrap();
    assert!(event.cancelled);
    assert_eq!(event.details, Some("[Cancelled]".to_string()));
    record.titles = vec![entry("[Postponed]", None)];
    assert!(convert(&record).unwrap().cancelled);
    record.titles = vec![entry("[postponed]", None)];
    assert!(!convert(&record).unwrap().cancelled);
}

#[test]
fn an_empty_title_names_the_event() {
    let mut record = record();
    record.titles = vec![entry("", None)];
    let event = convert(&record).unwrap();
    assert_eq!(event.name, "");
    assert_eq!(event.details, None);
}

#[test]
fn a_caller_named_ceilidh_makes_it_a_ceilidh() {
    let mut record = record();
    record.bands = vec![entry("The Band", None)];
    record.callers = vec![entry("Ceilidh", None)];
    let event = convert(&record).unwrap();
    assert_eq!(event.styles, vec![DanceStyle::EnglishCeilidh]);
    assert_eq!(event.name, "The Band in Exeter");
    record.callers = vec![entry("CEILIDH", Some(Style::DanceEurobal))];
    assert_eq!(
        convert(&record).unwrap().styles,
        vec![DanceStyle::Balfolk, DanceStyle::EnglishCeilidh]
    );
    record.callers = vec![entry("Ceilidh Caller", None)];
    assert_eq!(convert(&record), None);
}

#[test]
fn styles_are_put_in_order_without_repeats() {
    let mut record = record();
    record.titles = vec![entry("Dance", Some(Style::DanceCountryDance))];
    record.bands = vec![
        entry("A", Some(Style::DanceEnglishCeilidh)),
        entry("B", Some(Style::Contra)),
        entry("C", Some(Style::DanceEnglishFolk)),
    ];
    record.callers = vec![
        entry("D", Some(Style::DanceFrenchBreton)),
        entry("E", Some(Style::DanceContra)),
    ];
    assert_eq!(
        convert(&record).unwrap().styles,
        vec![
            DanceStyle::Balfolk,
            DanceStyle::Contra,
            DanceStyle::EnglishCeilidh,
            DanceStyle::Playford
        ]
    );
}

#[test]
fn records_without_a_style_are_dropped() {
    let mut record = record();
    record.bands = vec![entry("Linda Game", Some(Style::DanceEnglishFolk))];
    assert_eq!(convert(&record), None);
    record.bands = vec![];
    assert_eq!(convert(&record), None);
}

#[test]
fn records_held_online_are_dropped() {
    let mut record = record();
    record.location = "Zoom".to_string();
    assert_eq!(convert(&record), None);
    record.location = "zoom".to_string();
    assert!(convert(&record).is_some());
}

#[test]
fn records_without_a_date_are_dropped() {
    let mut record = record();
    record.date = "soon".to_string();
    assert_eq!(convert(&record), None);
}

#[test]
fn a_record_without_bands_is_named_by_its_city() {
    let mut record = record();
    record.bands = vec![];
    record.callers = vec![entry("Someone", Some(Style::Contra))];
    assert_eq!(convert(&record).unwrap().name, " in Exeter");
}

#[test]
fn a_span_of_days_is_read_from_the_record() {
    let mut record = record();
    record.date = "20220305-07".to_string();
    assert_eq!(
        convert(&record).unwrap().time,
        EventTime::DateOnly {
            start_date: Date::from_ymd(2022, 3, 5),
            end_date: Date::from_ymd(2022, 3, 7),
        }
    );
}

#[test]
fn the_records_that_are_kept_are_imported_in_order() {
    let mut online = record();
    online.location = "Zoom".to_string();
    let mut later = record();
    later.date = "20220401".to_string();
    let mut expected_later = converted();
    expected_later.time = EventTime::DateOnly {
        start_date: Date::from_ymd(2022, 4, 1),
        end_date: Date::from_ymd(2022, 4, 1),
    };
    assert_eq!(
        import_events(&vec![later, online, record()]),
        Events {
            events: vec![expected_later, converted()]
        }
    );
    assert_eq!(import_events(&vec![]), Events { events: vec![] });
}

#[test]
fn records_are_imported_in_the_order_of_their_numbers() {
    let mut third = record();
    third.id = 30;
    third.location = "Third".to_string();
    let mut first = record();
    first.id = 2;
    first.location = "First".to_string();
    let mut second = record();
    second.id = 30;
    second.location = "Second".to_string();
    let mut dropped = record();
    dropped.id = 1;
    dropped.location = "Zoom".to_string();
    let mut last = record();
    last.id = 31;
    last.location = "Last".to_string();
    // Records with the same number keep their order.
    let events = import_events(&vec![last, second, first, dropped, third]);
    let cities: Vec<&str> = events
        .events
        .iter()
        .map(|event| event.city.as_str())
        .collect();
    assert_eq!(cities, vec!["First", "Second", "Third", "Last"]);
}
