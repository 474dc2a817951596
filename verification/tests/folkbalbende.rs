use dancelist::dancestyle::DanceStyle;
use dancelist::event::EventTime;
use dancelist::events::Events;
use dancelist::importers::folkbalbende::{
    convert, import_events, make_time, Ball, Course, Event, EventType, Performance,
};
use dancelist::time::{Date, DateTime};

fn hour(hour: u32) -> u32 {
    hour * 3600
}

fn record() -> Event {
    Event {
        id: 4321,
        name: "Boombal".to_string(),
        dates: vec![Date::from_ymd(2022, 7, 1)],
        websites: vec![],
        facebook_event: String::new(),
        event_type: EventType::Ball,
        courses: vec![],
        ball: None,
        prices: vec![],
        organisation: None,
        city: "Gent".to_string(),
        cancelled: false,
        checked: true,
        deleted: false,
    }
}

fn playing(band: &str, start: Option<u32>, end: Option<u32>) -> Performance {
    Performance {
        band: band.to_string(),
        placeholder: false,
        start,
        end,
    }
}

fn ball(performances: Vec<Performance>) -> Ball {
    Ball {
        initiation_start: None,
        initiation_end: None,
        initiators: vec![],
        performances,
    }
}

fn in_brussels(date: Date, second_of_day: u32, offset: i32) -> DateTime {
    DateTime::new(date, second_of_day, 0, offset).unwrap()
}

#[test]
fn a_bare_record_gives_an_event_for_the_day() {
    let events = convert(&record());
    assert_eq!(
        events,
        vec![dancelist::event::Event {
            name: "Boombal".to_string(),
            details: Some("Ball".to_string()),
            links: vec!["https://folkbalbende.be/event/4321".to_string()],
            time: EventTime::DateOnly {
                start_date: Date::from_ymd(2022, 7, 1),
                end_date: Date::from_ymd(2022, 7, 1),
            },
            country: "Belgium".to_string(),
            city: "Gent".to_string(),
            styles: vec![DanceStyle::Balfolk],
            workshop: false,
            social: true,
            bands: vec![],
            callers: vec![],
            price: None,
            organisation: None,
            cancelled: false,
        }]
    );
}

#[test]
fn there_is_an_event_for_each_date() {
    let mut record = record();
    record.dates = vec![
        Date::from_ymd(2022, 7, 1),
        Date::from_ymd(2022, 7, 8),
        Date::from_ymd(2022, 7, 15),
    ];
    record.cancelled = true;
    record.organisation = Some("Boombalfabriek".to_string());
    let events = convert(&record);
    assert_eq!(events.len(), 3);
    for (event, day) in events.iter().zip([1u32, 8, 15]) {
        assert_eq!(
            event.time,
            EventTime::DateOnly {
                start_date: Date::from_ymd(2022, 7, day),
                end_date: Date::from_ymd(2022, 7, day),
            }
        );
        assert!(event.cancelled);
        assert_eq!(event.organisation, Some("Boombalfabriek".to_string()));
    }
    record.dates = vec![];
    assert!(convert(&record).is_empty());
}

#[test]
fn the_kind_of_event_tells_what_it_includes() {
    let mut record = record();
    record.event_type = EventType::Course;
    let event = convert(&record).remove(0);
    assert_eq!(event.details, Some("Course".to_string()));
    assert!(event.workshop);
    assert!(!event.social);
    record.event_type = EventType::Festival;
    let event = convert(&record).remove(0);
    assert_eq!(event.details, Some("Festival".to_string()));
    assert!(!event.workshop);
    assert!(event.social);
}

#[test]
fn lessons_make_it_a_workshop() {
    let mut with_course = record();
    with_course.courses = vec![Course {
        start: hour(19),
        end: hour(20),
    }];
    assert!(convert(&with_course)[0].workshop);

    let mut with_initiation = record();
    let mut its_ball = ball(vec![]);
    its_ball.initiation_start = Some(hour(19));
    with_initiation.ball = Some(its_ball);
    assert!(convert(&with_initiation)[0].workshop);

    let mut with_initiators = record();
    let mut its_ball = ball(vec![]);
    its_ball.initiators = vec!["Koen".to_string()];
    with_initiators.ball = Some(its_ball);
    assert!(convert(&with_initiators)[0].workshop);

    let mut only_an_end = record();
    let mut its_ball = ball(vec![]);
    its_ball.initiation_end = Some(hour(20));
    only_an_end.ball = Some(its_ball);
    assert!(!convert(&only_an_end)[0].workshop);
}

#[test]
fn websites_are_listed_unless_they_are_copies() {
    let mut record = record();
    record.websites = vec![
        "mailto:info@example.org".to_string(),
        "https://frissefolk.be/fr/civicrm/event/info?id=1".to_string(),
        "https://example.org/bal".to_string(),
        "https://frissefolk.be/nl/civicrm/event/info?id=1".to_string(),
        "https://frissefolk.be/en/civicrm/event/info?id=1".to_string(),
        "http://example.org".to_string(),
    ];
    record.facebook_event = "https://www.facebook.com/events/9".to_string();
    assert_eq!(
        convert(&record)[0].links,
        vec![
            "https://example.org/bal",
            "https://frissefolk.be/en/civicrm/event/info?id=1",
            "http://example.org",
            "https://folkbalbende.be/event/4321",
            "https://www.facebook.com/events/9",
        ]
    );
}

#[test]
fn the_number_of_the_event_is_written_in_full() {
    let mut record = record();
    record.id = 0;
    assert_eq!(
        convert(&record)[0].links,
        vec!["https://folkbalbende.be/event/0"]
    );
    record.id = 1_000_000;
    assert_eq!(
        convert(&record)[0].links,
        vec!["https://folkbalbende.be/event/1000000"]
    );
}

#[test]
fn the_price_is_a_number_or_a_range() {
    let mut record = record();
    record.prices = vec![8];
    assert_eq!(convert(&record)[0].price, Some("€8".to_string()));
    record.prices = vec![12, 0, 5, 10];
    assert_eq!(convert(&record)[0].price, Some("€5-€12".to_string()));
    record.prices = vec![7, 7];
    assert_eq!(convert(&record)[0].price, Some("€7".to_string()));
    record.prices = vec![0, 0];
    assert_eq!(convert(&record)[0].price, None);
    record.prices = vec![0, 15];
    assert_eq!(convert(&record)[0].price, Some("€15".to_string()));
    record.prices = vec![];
    assert_eq!(convert(&record)[0].price, None);
}

#[test]
fn the_bands_are_those_that_are_known() {
    let mut record = record();
    let mut unknown = playing("To be announced", None, None);
    unknown.placeholder = true;
    record.ball = Some(ball(vec![
        playing("Naragonia", None, None),
        unknown,
        playing("Broes", None, None),
    ]));
    assert_eq!(convert(&record)[0].bands, vec!["Naragonia", "Broes"]);
}

#[test]
fn the_event_lasts_from_the_first_start_to_the_last_end() {
    let mut record = record();
    record.courses = vec![Course {
        start: hour(19),
        end: hour(20),
    }];
    let mut its_ball = ball(vec![
        playing("Naragonia", Some(hour(21)), Some(hour(22))),
        playing("Broes", Some(hour(22)), Some(hour(23) + 1800)),
        playing("Late", None, None),
    ]);
    its_ball.initiation_start = Some(hour(18) + 1800);
    its_ball.initiation_end = Some(hour(19) + 1800);
    record.ball = Some(its_ball);
    let day = Date::from_ymd(2022, 7, 1);
    assert_eq!(
        convert(&record)[0].time,
        EventTime::DateTime {
            start: in_brussels(day, hour(18) + 1800, 7200),
            end: in_brussels(day, hour(23) + 1800, 7200),
        }
    );
}

#[test]
fn a_start_at_midnight_is_no_start() {
    let mut record = record();
    record.courses = vec![Course {
        start: 0,
        end: hour(20),
    }];
    assert_eq!(
        convert(&record)[0].time,
        EventTime::DateOnly {
            start_date: Date::from_ymd(2022, 7, 1),
            end_date: Date::from_ymd(2022, 7, 1),
        }
    );
}

#[test]
fn without_an_end_the_event_takes_the_day() {
    let mut record = record();
    record.ball = Some(ball(vec![playing("Naragonia", Some(hour(21)), None)]));
    assert_eq!(
        convert(&record)[0].time,
        EventTime::DateOnly {
            start_date: Date::from_ymd(2022, 7, 1),
            end_date: Date::from_ymd(2022, 7, 1),
        }
    );
}

#[test]
fn brussels_is_an_hour_ahead_in_winter_and_two_in_summer() {
    let summer = Date::from_ymd(2022, 7, 1);
    assert_eq!(
        make_time(summer, Some(hour(20)), Some(hour(23))),
        EventTime::DateTime {
            start: in_brussels(summer, hour(20), 7200),
            end: in_brussels(summer, hour(23), 7200),
        }
    );
    let winter = Date::from_ymd(2022, 1, 14);
    assert_eq!(
        make_time(winter, Some(hour(20)), Some(hour(23))),
        EventTime::DateTime {
            start: in_brussels(winter, hour(20), 3600),
            end: in_brussels(winter, hour(23), 3600),
        }
    );
}

#[test]
fn a_time_the_clocks_skip_or_repeat_gives_the_day() {
    let spring_forward = Date::from_ymd(2022, 3, 27);
    assert_eq!(
        make_time(spring_forward, Some(hour(2) + 1800), Some(hour(5))),
        EventTime::DateOnly {
            start_date: spring_forward,
            end_date: spring_forward,
        }
    );
    let fall_back = Date::from_ymd(2022, 10, 30);
    assert_eq!(
        make_time(fall_back, Some(hour(1)), Some(hour(2) + 1800)),
        EventTime::DateOnly {
            start_date: fall_back,
            end_date: fall_back,
        }
    );
    assert_eq!(
        make_time(fall_back, Some(hour(1)), Some(hour(4))),
        EventTime::DateTime {
            start: in_brussels(fall_back, hour(1), 7200),
            end: in_brussels(fall_back, hour(4), 3600),
        }
    );
}

#[test]
fn a_time_outside_the_day_gives_the_day() {
    let day = Date::from_ymd(2022, 7, 1);
    let whole_day = EventTime::DateOnly {
        start_date: day,
        end_date: day,
    };
    assert_eq!(make_time(day, Some(hour(20)), Some(hour(24))), whole_day);
    assert_eq!(make_time(day, None, Some(hour(23))), whole_day);
    assert_eq!(make_time(day, None, None), whole_day);
}

#[test]
fn records_are_imported_once_looked_over_and_not_deleted() {
    let mut unchecked = record();
    unchecked.name = "Unchecked".to_string();
    unchecked.checked = false;
    let mut deleted = record();
    deleted.name = "Deleted".to_string();
    deleted.deleted = true;
    let mut twice = record();
    twice.name = "Twice".to_string();
    twice.dates = vec![Date::from_ymd(2022, 8, 1), Date::from_ymd(2022, 8, 2)];
    let events = import_events(&vec![twice, unchecked, record(), deleted]);
    let names: Vec<&str> = events
        .events
        .iter()
        .map(|event| event.name.as_str())
        .collect();
    assert_eq!(names, vec!["Twice", "Twice", "Boombal"]);
    assert_eq!(import_events(&vec![]), Events { events: vec![] });
}

#[test]
fn records_are_imported_in_the_order_of_their_numbers_too() {
    let mut high = record();
    high.id = 900;
    high.name = "High".to_string();
    let mut low = record();
    low.id = 7;
    low.name = "Low".to_string();
    let mut middle = record();
    middle.id = 70;
    middle.name = "Middle".to_string();
    middle.dates = vec![Date::from_ymd(2022, 9, 2), Date::from_ymd(2022, 9, 1)];
    let events = import_events(&vec![high, low, middle]);
    let names: Vec<&str> = events
        .events
        .iter()
        .map(|event| event.name.as_str())
        .collect();
    assert_eq!(names, vec!["Low", "Middle", "Middle", "High"]);
    // The dates of a record stay as the record has them.
    assert_eq!(
        events.events[1].time,
        EventTime::DateOnly {
            start_date: Date::from_ymd(2022, 9, 2),
            end_date: Date::from_ymd(2022, 9, 2),
        }
    );
}
