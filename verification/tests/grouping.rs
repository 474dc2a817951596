use dancelist::dancestyle::DanceStyle;
use dancelist::event::{Event, EventTime};
use dancelist::grouping::{group_by_month, sort_and_group_by_month, sort_by_start, Month};
use dancelist::time::{Date, DateTime};

fn named(name: &str, time: EventTime) -> Event {
    Event {
        name: name.to_string(),
        time,
        details: None,
        links: vec![],
        country: "UK".to_string(),
        city: "York".to_string(),
        styles: vec![DanceStyle::Contra],
        workshop: false,
        social: true,
        bands: vec![],
        callers: vec![],
        price: None,
        organisation: None,
        cancelled: false,
    }
}

fn dated(name: &str, year: i32, month: u32, day: u32) -> Event {
    named(
        name,
        EventTime::DateOnly {
            start_date: Date::from_ymd(year, month, day),
            end_date: Date::from_ymd(year, month, day),
        },
    )
}

fn names(events: &[Event]) -> Vec<&str> {
    events.iter().map(|event| event.name.as_str()).collect()
}

#[test]
fn events_are_grouped_by_the_month_they_start_in() {
    let a = dated("a", 2022, 1, 5);
    let b = dated("b", 2022, 1, 20);
    let c = dated("c", 2022, 2, 1);
    let months = sort_and_group_by_month(vec![&a, &b, &c]);
    assert_eq!(months.len(), 2);
    assert_eq!(months[0].name(), "January 2022");
    assert_eq!(months[0].events, vec![a.clone(), b.clone()]);
    assert_eq!(months[1].name(), "February 2022");
    assert_eq!(months[1].events, vec![c.clone()]);
    assert_eq!(months[0].start, Date::from_ymd(2022, 1, 1));
    assert_eq!(months[1].start, Date::from_ymd(2022, 2, 1));
}

#[test]
fn events_are_sorted_before_they_are_grouped() {
    let a = dated("a", 2022, 2, 1);
    let b = dated("b", 2022, 1, 20);
    let c = dated("c", 2021, 1, 7);
    let d = dated("d", 2022, 1, 5);
    let months = sort_and_group_by_month(vec![&a, &b, &c, &d]);
    assert_eq!(
        months,
        vec![
            Month {
                start: Date::from_ymd(2021, 1, 1),
                events: vec![c.clone()]
            },
            Month {
                start: Date::from_ymd(2022, 1, 1),
                events: vec![d.clone(), b.clone()]
            },
            Month {
                start: Date::from_ymd(2022, 2, 1),
                events: vec![a.clone()]
            },
        ]
    );
}

#[test]
fn no_events_give_no_months() {
    assert_eq!(sort_and_group_by_month(vec![]), vec![]);
    assert_eq!(group_by_month(&vec![]), vec![]);
}

#[test]
fn one_event_gives_one_month() {
    let a = dated("a", 2022, 12, 31);
    let months = sort_and_group_by_month(vec![&a]);
    assert_eq!(months.len(), 1);
    assert_eq!(months[0].name(), "December 2022");
    assert_eq!(months[0].events, vec![a.clone()]);
}

#[test]
fn the_earliest_month_there_is_gets_a_group() {
    let a = dated("a", -262143, 1, 1);
    let months = sort_and_group_by_month(vec![&a]);
    assert_eq!(months.len(), 1);
    assert_eq!(months[0].start, Date::from_ymd(-262143, 1, 1));
    assert_eq!(months[0].events, vec![a.clone()]);
}

#[test]
fn events_on_the_same_day_keep_their_order() {
    let a = dated("a", 2022, 1, 5);
    let b = dated("b", 2022, 1, 5);
    let c = dated("c", 2022, 1, 4);
    let d = dated("d", 2022, 1, 5);
    let sorted = sort_by_start(&vec![&a, &b, &c, &d]);
    assert_eq!(sorted, vec![&c, &a, &b, &d]);
    let sorted = sort_by_start(&vec![&d, &b, &c, &a]);
    assert_eq!(sorted, vec![&c, &d, &b, &a]);
}

#[test]
fn dates_and_instants_are_sorted_together() {
    let day = Date::from_ymd(2022, 1, 5);
    let evening = named(
        "evening",
        EventTime::DateTime {
            start: DateTime::new(day, 19 * 3600, 0, 0).unwrap(),
            end: DateTime::new(day, 23 * 3600, 0, 0).unwrap(),
        },
    );
    let all_day = dated("all day", 2022, 1, 5);
    let next_day = dated("next day", 2022, 1, 6);
    // Half past midnight east of Greenwich is still the day before in UTC.
    let early = named(
        "early",
        EventTime::DateTime {
            start: DateTime::new(day, 1800, 0, 3600).unwrap(),
            end: DateTime::new(day, 7200, 0, 3600).unwrap(),
        },
    );
    let sorted = sort_by_start(&vec![&next_day, &evening, &all_day, &early]);
    assert_eq!(sorted, vec![&early, &all_day, &evening, &next_day]);
}

#[test]
fn a_month_is_told_by_the_local_date() {
    let new_year = named(
        "new year",
        EventTime::DateTime {
            start: DateTime::new(Date::from_ymd(2022, 1, 1), 1800, 0, 3600).unwrap(),
            end: DateTime::new(Date::from_ymd(2022, 1, 1), 7200, 0, 3600).unwrap(),
        },
    );
    let old_year = dated("old year", 2021, 12, 31);
    let months = sort_and_group_by_month(vec![&new_year, &old_year]);
    assert_eq!(months.len(), 2);
    assert_eq!(names(&months[0].events), vec!["old year"]);
    assert_eq!(months[0].name(), "December 2021");
    assert_eq!(names(&months[1].events), vec!["new year"]);
    assert_eq!(months[1].name(), "January 2022");
}

#[test]
fn grouping_takes_the_events_as_they_stand() {
    let a = dated("a", 2022, 1, 5);
    let b = dated("b", 2022, 2, 1);
    let c = dated("c", 2022, 1, 20);
    let months = group_by_month(&vec![&a, &b, &c]);
    assert_eq!(months.len(), 3);
    assert_eq!(names(&months[0].events), vec!["a"]);
    assert_eq!(names(&months[1].events), vec!["b"]);
    assert_eq!(names(&months[2].events), vec!["c"]);
    assert_eq!(months[0].start, months[2].start);
}

#[test]
fn the_same_month_of_another_year_is_another_month() {
    let a = dated("a", 2021, 3, 5);
    let b = dated("b", 2022, 3, 5);
    let months = sort_and_group_by_month(vec![&b, &a]);
    assert_eq!(months.len(), 2);
    assert_eq!(months[0].name(), "March 2021");
    assert_eq!(months[1].name(), "March 2022");
}
