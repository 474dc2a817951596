//! Events from the records of the Webfeet dance diary.

use crate::dancestyle::{distinct_styles, lists_styles, DanceStyle};
use crate::event::{Event, EventTime, EventTimeView, EventView};
use crate::events::Events;
use crate::sorting::{is_ascending_order, order_of_numbers};
use crate::text::{
    chars_of, join, joined, lowercase, lowercased, replace, replaced, same_text, starts_with,
    string_of,
};
use crate::time::{date_read, parse_compact_date};
use vstd::prelude::*;

verus! {

/// What stands between the names of the bands in the name of an event.
pub const BAND_SEPARATOR: &'static str = " & ";

/// What stands between the bands and the city in the name of an event.
pub const IN: &'static str = " in ";

/// What a title begins with that is a remark and no name.
pub const REMARK_START: &'static str = "[";

/// The remark on an event that has been cancelled.
pub const CANCELLED: &'static str = "[Cancelled]";

/// The remark on an event that has been postponed.
pub const POSTPONED: &'static str = "[Postponed]";

/// The country of every event of this listing.
pub const COUNTRY: &'static str = "UK";

/// The place given for events that are held online.
pub const ONLINE: &'static str = "Zoom";

/// The organisation of every event of this listing.
pub const ORGANISATION: &'static str = "Webfeet";

/// A caller of this name calls a ceilidh.
pub const CEILIDH: &'static str = "ceilidh";

/// An entity that XML does not define.
pub const I_CIRCUMFLEX_ENTITY: &'static str = "&icirc;";

/// The character reference that stands in for it.
pub const I_CIRCUMFLEX_REFERENCE: &'static str = "&#238;";

/// The styles by which the listing marks its entries.
#[derive(Clone, Copy, Debug, PartialEq, Eq, Structural, Hash)]
pub enum Style {
    Contra,
    DanceContra,
    DanceAmericanAmericanContra,
    DanceEurobal,
    DanceEuropean,
    DanceFrenchBreton,
    DanceCountryDance,
    DanceEnglishCeilidh,
    DanceEnglishFolk,
}

/// The dance style that a style of the listing stands for, if any.
pub open spec fn style_meant(style: Style) -> Option<DanceStyle> {
    match style {
        Style::Contra | Style::DanceContra | Style::DanceAmericanAmericanContra => Some(
            DanceStyle::Contra,
        ),
        Style::DanceEurobal | Style::DanceEuropean | Style::DanceFrenchBreton => Some(
            DanceStyle::Balfolk,
        ),
        Style::DanceCountryDance => Some(DanceStyle::Playford),
        Style::DanceEnglishCeilidh => Some(DanceStyle::EnglishCeilidh),
        Style::DanceEnglishFolk => None,
    }
}

/// The dance style that a style of the listing stands for, if any.
pub fn convert_style(style: Style) -> (converted: Option<DanceStyle>)
    ensures
        converted == style_meant(style),
{
    match style {
        Style::Contra | Style::DanceContra | Style::DanceAmericanAmericanContra => {
            Some(DanceStyle::Contra)
        },
        Style::DanceEurobal | Style::DanceEuropean | Style::DanceFrenchBreton => {
            Some(DanceStyle::Balfolk)
        },
        Style::DanceCountryDance => Some(DanceStyle::Playford),
        Style::DanceEnglishCeilidh => Some(DanceStyle::EnglishCeilidh),
        Style::DanceEnglishFolk => None,
    }
}

/// The source with the entity that XML does not define replaced by a
/// character reference.
pub fn replace_entities(source: &str) -> (result: String)
    ensures
        result@ == replaced(source@, I_CIRCUMFLEX_ENTITY@, I_CIRCUMFLEX_REFERENCE@),
{
    replace(source, I_CIRCUMFLEX_ENTITY, I_CIRCUMFLEX_REFERENCE)
}

/// What an [`Entry`] stands for.
pub ghost struct EntryView {
    pub value: Seq<char>,
    pub style: Option<Style>,
}

impl EntryView {
    /// The dance style that the entry is marked with, if it stands for one.
    pub open spec fn styles(self) -> Seq<DanceStyle> {
        match self.style {
            Some(style) => match style_meant(style) {
                Some(dance) => seq![dance],
                None => Seq::empty(),
            },
            None => Seq::empty(),
        }
    }

    /// The styles that the entry stands for as a caller: that of its mark,
    /// and English ceilidh if its name is "ceilidh" in whatever case.
    pub open spec fn caller_styles(self) -> Seq<DanceStyle> {
        self.styles() + (if lowercased(self.value) == CEILIDH@ {
            seq![DanceStyle::EnglishCeilidh]
        } else {
            Seq::empty()
        })
    }
}

/// A band, a caller or a title of a record, with the style it is marked with.
#[derive(Clone, Debug, PartialEq, Eq)]
pub struct Entry {
    pub value: String,
    pub style: Option<Style>,
}

impl View for Entry {
    type V = EntryView;

    open spec fn view(&self) -> EntryView {
        EntryView { value: self.value@, style: self.style }
    }
}

impl DeepView for Entry {
    type V = EntryView;

    open spec fn deep_view(&self) -> EntryView {
        self@
    }
}

/// The names of the entries, in order.
pub open spec fn values_of(entries: Seq<EntryView>) -> Seq<Seq<char>> {
    entries.map_values(|entry: EntryView| entry.value)
}

/// The styles that the entries are marked with, in order.
pub open spec fn marked_styles(entries: Seq<EntryView>) -> Seq<DanceStyle>
    decreases entries.len(),
{
    if entries.len() == 0 {
        Seq::empty()
    } else {
        marked_styles(entries.drop_last()) + entries.last().styles()
    }
}

/// The styles that the entries stand for as callers, in order.
pub open spec fn styles_called(entries: Seq<EntryView>) -> Seq<DanceStyle>
    decreases entries.len(),
{
    if entries.len() == 0 {
        Seq::empty()
    } else {
        styles_called(entries.drop_last()) + entries.last().caller_styles()
    }
}

/// The text of the last day of a span such as "20210114-16": as much of the
/// first day as the span leaves unsaid, and then what follows the separator.
pub open spec fn end_text(span: Seq<char>) -> Seq<char> {
    span.subrange(0, 17 - span.len()) + span.subrange(9, span.len() as int)
}

/// The days that a span stands for: a date of eight digits, alone or
/// followed by a separator and the last digits of the last day.
pub open spec fn span_read(span: Seq<char>) -> Option<EventTimeView> {
    if span.len() < 8 || span.len() > 17 {
        None
    } else {
        match date_read(span.subrange(0, 8)) {
            None => None,
            Some(start_date) => if span.len() == 8 {
                Some(EventTimeView::DateOnly { start_date, end_date: start_date })
            } else {
                match date_read(end_text(span)) {
                    None => None,
                    Some(end_date) => Some(EventTimeView::DateOnly { start_date, end_date }),
                }
            },
        }
    }
}

/// What an [`EventRecord`] stands for.
pub ghost struct EventRecordView {
    pub id: u32,
    pub bands: Seq<EntryView>,
    pub callers: Seq<EntryView>,
    pub titles: Seq<EntryView>,
    pub location: Seq<char>,
    pub url: Seq<char>,
    pub date: Seq<char>,
}

impl EventRecordView {
    /// The record's first title is a remark in brackets.
    pub open spec fn has_remark(self) -> bool {
        self.titles.len() > 0 && REMARK_START@.is_prefix_of(self.titles[0].value)
    }

    /// The name of the event: its first title, or where there is none or it
    /// is a remark, the bands and the city.
    pub open spec fn name(self) -> Seq<char> {
        if self.titles.len() > 0 && !self.has_remark() {
            self.titles[0].value
        } else {
            joined(values_of(self.bands), BAND_SEPARATOR@) + IN@ + self.location
        }
    }

    /// The remark, if the first title is one.
    pub open spec fn details(self) -> Option<Seq<char>> {
        if self.has_remark() {
            Some(self.titles[0].value)
        } else {
            None
        }
    }

    /// The remark says that the event does not take place as planned.
    pub open spec fn cancelled(self) -> bool {
        self.has_remark() && (self.titles[0].value == CANCELLED@ || self.titles[0].value
            == POSTPONED@)
    }

    /// All the styles that the record gives, with repeats.
    pub open spec fn styles(self) -> Seq<DanceStyle> {
        marked_styles(self.titles) + marked_styles(self.bands) + styles_called(self.callers)
    }

    /// The event that the record describes, if `event` is it.
    pub open spec fn describes(self, event: EventView) -> bool {
        &&& event.name == self.name()
        &&& event.details == self.details()
        &&& event.links == seq![self.url]
        &&& Some(event.time) == span_read(self.date)
        &&& event.country == COUNTRY@
        &&& event.city == self.location
        &&& lists_styles(event.styles, self.styles().to_set())
        &&& !event.workshop
        &&& event.social
        &&& event.bands == values_of(self.bands)
        &&& event.callers == values_of(self.callers)
        &&& event.price is None
        &&& event.organisation == Some(ORGANISATION@)
        &&& event.cancelled == self.cancelled()
    }

    /// The record gives no event: it names no style, is held online, or its
    /// date cannot be read.
    pub open spec fn is_dropped(self) -> bool {
        ||| self.styles().len() == 0
        ||| self.location == ONLINE@
        ||| span_read(self.date) is None
    }
}

/// One record of the listing.
#[derive(Clone, Debug, PartialEq, Eq)]
pub struct EventRecord {
    pub id: u32,
    pub bands: Vec<Entry>,
    pub callers: Vec<Entry>,
    pub titles: Vec<Entry>,
    /// The city.
    pub location: String,
    /// Where to read more.
    pub url: String,
    /// The day or days, such as "20210114" or "20210114-16".
    pub date: String,
}

impl View for EventRecord {
    type V = EventRecordView;

    open spec fn view(&self) -> EventRecordView {
        EventRecordView {
            id: self.id,
            bands: self.bands.deep_view(),
            callers: self.callers.deep_view(),
            titles: self.titles.deep_view(),
            location: self.location@,
            url: self.url@,
            date: self.date@,
        }
    }
}

impl DeepView for EventRecord {
    type V = EventRecordView;

    open spec fn deep_view(&self) -> EventRecordView {
        self@
    }
}

/// The names of the entries, in order.
fn values(entries: &Vec<Entry>) -> (names: Vec<String>)
    ensures
        names.deep_view() == values_of(entries.deep_view()),
{
    let mut names: Vec<String> = Vec::new();
    let mut i: usize = 0;
    while i < entries.len()
        invariant
            i <= entries.len(),
            names.len() == i,
            forall|k: int|
                0 <= k < i ==> (#[trigger] names.deep_view()[k]) == entries.deep_view()[k].value,
        decreases entries.len() - i,
    {
        let ghost before = names.deep_view();
        names.push(entries[i].value.clone());
        proof {
            assert forall|k: int| 0 <= k < i + 1 implies (#[trigger] names.deep_view()[k])
                == entries.deep_view()[k].value by {
                if k < i {
                    assert(names.deep_view()[k] == before[k]);
                }
            }
        }
        i += 1;
    }
    assert(names.deep_view() =~= values_of(entries.deep_view()));
    names
}

/// Adds the styles that the entries are marked with to `styles`; with
/// `calling`, also the style that a caller's name stands for.
fn add_styles(styles: &mut Vec<DanceStyle>, entries: &Vec<Entry>, calling: bool)
    ensures
        final(styles)@ == old(styles)@ + (if calling {
            styles_called(entries.deep_view())
        } else {
            marked_styles(entries.deep_view())
        }),
{
    let mut i: usize = 0;
    assert(styles@ =~= old(styles)@ + Seq::<DanceStyle>::empty());
    while i < entries.len()
        invariant
            i <= entries.len(),
            styles@ == old(styles)@ + (if calling {
                styles_called(entries.deep_view().take(i as int))
            } else {
                marked_styles(entries.deep_view().take(i as int))
            }),
        decreases entries.len() - i,
    {
        let ghost before = styles@;
        let ghost done = entries.deep_view().take(i as int);
        let ghost next = entries.deep_view().take(i + 1);
        proof {
            assert(next.drop_last() =~= done);
            assert(next.last() == entries@[i as int]@);
        }
        match entries[i].style {
            Some(style) => {
                match convert_style(style) {
                    Some(dance) => {
                        styles.push(dance);
                    },
                    None => {},
                }
            },
            None => {},
        }
        assert(styles@ =~= before + entries@[i as int]@.styles());
        if calling {
            let lower = lowercase(entries[i].value.as_str());
            if same_text(lower.as_str(), CEILIDH) {
                styles.push(DanceStyle::EnglishCeilidh);
            }
            assert(styles@ =~= before + entries@[i as int]@.caller_styles());
            assert(styles@ =~= old(styles)@ + styles_called(next));
        } else {
            assert(styles@ =~= old(styles)@ + marked_styles(next));
        }
        i += 1;
    }
    assert(entries.deep_view().take(entries.len() as int) =~= entries.deep_view());
}

/// The characters of `chars` from `from` up to `to`, as a vector of their own.
fn slice(chars: &Vec<char>, from: usize, to: usize) -> (part: Vec<char>)
    requires
        from <= to <= chars.len(),
    ensures
        part@ == chars@.subrange(from as int, to as int),
{
    let mut part: Vec<char> = Vec::new();
    let mut i: usize = from;
    while i < to
        invariant
            from <= i <= to <= chars.len(),
            part@ == chars@.subrange(from as int, i as int),
        decreases to - i,
    {
        part.push(chars[i]);
        assert(chars@.subrange(from as int, i + 1) =~= chars@.subrange(from as int, i as int).push(
            chars@[i as int],
        ));
        i += 1;
    }
    part
}

/// The days that a span such as "20210114", "20210114-16", "20210114-0203"
/// or "20210114-20220607" stands for, if it can be read.
pub fn parse_date(date_str: &str) -> (time: Option<EventTime>)
    ensures
        time is Some <==> span_read(date_str@) is Some,
        time matches Some(t) ==> Some(t@) == span_read(date_str@),
{
    let chars = chars_of(date_str);
    let len = chars.len();
    if len < 8 || len > 17 {
        return None;
    }
    let start_text = string_of(&slice(&chars, 0, 8));
    let start_date = match parse_compact_date(start_text.as_str()) {
        Some(date) => date,
        None => {
            return None;
        },
    };
    let end_date = if len > 8 {
        let mut end_chars = slice(&chars, 0, 17 - len);
        let mut tail = slice(&chars, 9, len);
        end_chars.append(&mut tail);
        let end_text = string_of(&end_chars);
        match parse_compact_date(end_text.as_str()) {
            Some(date) => date,
            None => {
                return None;
            },
        }
    } else {
        start_date
    };
    Some(EventTime::DateOnly { start_date, end_date })
}

/// The event that the record describes, unless the record is dropped.
pub fn convert(record: &EventRecord) -> (event: Option<Event>)
    ensures
        event is Some <==> !record@.is_dropped(),
        event matches Some(e) ==> record@.describes(e@),
{
    let bands = values(&record.bands);
    let callers = values(&record.callers);
    let city = record.location.clone();

    let mut name = join(&bands, BAND_SEPARATOR);
    name.append(IN);
    name.append(city.as_str());
    let mut details: Option<String> = None;
    let mut cancelled = false;
    if record.titles.len() > 0 {
        let title = &record.titles[0];
        assert(title@ == record@.titles[0]);
        if starts_with(title.value.as_str(), REMARK_START) {
            if same_text(title.value.as_str(), CANCELLED) || same_text(
                title.value.as_str(),
                POSTPONED,
            ) {
                cancelled = true;
            }
            details = Some(title.value.clone());
        } else {
            name = title.value.clone();
        }
    }
    let mut styles: Vec<DanceStyle> = Vec::new();
    add_styles(&mut styles, &record.titles, false);
    add_styles(&mut styles, &record.bands, false);
    add_styles(&mut styles, &record.callers, true);
    assert(styles@ =~= record@.styles());
    let distinct = distinct_styles(&styles);
    proof {
        if styles.len() > 0 {
            assert(styles@.contains(styles@[0]));
            assert(distinct@.contains(styles@[0]));
        }
        if distinct.len() > 0 {
            assert(distinct@.contains(distinct@[0]));
        }
    }

    if distinct.len() == 0 {
        None
    } else if same_text(city.as_str(), ONLINE) {
        None
    } else {
        let time = match parse_date(record.date.as_str()) {
            Some(time) => time,
            None => {
                return None;
            },
        };
        let mut links: Vec<String> = Vec::new();
        links.push(record.url.clone());
        assert(links.deep_view() =~= seq![record@.url]);
        let price: Option<String> = None;
        Some(
            Event {
                name,
                details,
                links,
                time,
                country: COUNTRY.to_owned(),
                city,
                styles: distinct,
                workshop: false,
                social: true,
                bands,
                callers,
                price,
                organisation: Some(ORGANISATION.to_owned()),
                cancelled,
            },
        )
    }
}

/// The events that the records describe, one for each record that is not
/// dropped, in the order of the records.
pub open spec fn imported(records: Seq<EventRecordView>, events: Seq<EventView>) -> bool
    decreases records.len(),
{
    if records.len() == 0 {
        events.len() == 0
    } else if records.last().is_dropped() {
        imported(records.drop_last(), events)
    } else {
        events.len() > 0 && records.last().describes(events.last()) && imported(
            records.drop_last(),
            events.drop_last(),
        )
    }
}

/// The numbers of the records, in order.
pub open spec fn ids_of(records: Seq<EventRecordView>) -> Seq<u32> {
    records.map_values(|record: EventRecordView| record.id)
}

/// `sorted` holds the records in ascending order of their numbers; records
/// with the same number keep their order.
pub open spec fn in_id_order(records: Seq<EventRecordView>, sorted: Seq<EventRecordView>) -> bool {
    exists|order: Seq<usize>| #[trigger]
        is_ascending_order(ids_of(records), order) && sorted == order.map_values(
            |position: usize| records[position as int],
        )
}

/// The events of the listing, made from its records in the order of their
/// numbers.
pub fn import_events(records: &Vec<EventRecord>) -> (events: Events)
    ensures
        exists|sorted: Seq<EventRecordView>| #[trigger]
            in_id_order(records.deep_view(), sorted) && imported(sorted, events@),
{
    let mut ids: Vec<u32> = Vec::new();
    let mut k: usize = 0;
    while k < records.len()
        invariant
            k <= records.len(),
            ids@ == ids_of(records.deep_view()).take(k as int),
        decreases records.len() - k,
    {
        ids.push(records[k].id);
        assert(ids_of(records.deep_view()).take(k + 1) =~= ids_of(records.deep_view()).take(
            k as int,
        ).push(records@[k as int].id));
        k += 1;
    }
    assert(ids_of(records.deep_view()).take(records.len() as int) =~= ids_of(records.deep_view()));
    // Sort by ID to give a stable order.
    let order = order_of_numbers(&ids);
    let ghost sorted = order@.map_values(|position: usize| records.deep_view()[position as int]);
    let mut events: Vec<Event> = Vec::new();
    let mut i: usize = 0;
    while i < order.len()
        invariant
            i <= order.len(),
            order.len() == records.len(),
            forall|p: int| 0 <= p < order.len() ==> (#[trigger] order@[p]) < records.len(),
            sorted == order@.map_values(|position: usize| records.deep_view()[position as int]),
            imported(sorted.take(i as int), events.deep_view()),
        decreases order.len() - i,
    {
        let ghost before = events.deep_view();
        let ghost next = sorted.take(i + 1);
        proof {
            assert(next.drop_last() =~= sorted.take(i as int));
            assert(next.last() == records@[order@[i as int] as int]@);
        }
        match convert(&records[order[i]]) {
            Some(event) => {
                events.push(event);
                assert(events.deep_view().drop_last() =~= before);
            },
            None => {},
        }
        i += 1;
    }
    assert(sorted.take(order.len() as int) =~= sorted);
    assert(in_id_order(records.deep_view(), sorted)) by {
        assert(is_ascending_order(ids_of(records.deep_view()), order@));
    }
    Events { events }
}

} // verus!
