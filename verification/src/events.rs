//! The list of all events, and what can be asked of it: the events that pass
//! a set of filters, and the bands, callers, organisations, countries, cities
//! and styles that occur.

use crate::dancestyle::{distinct_styles, lists_styles, DanceStyle};
use crate::event::{copy_styles, Event, EventView};
use crate::filters::{Filters, FiltersView};
use crate::sorting::{insert_ascending, strictly_ascending};
use crate::text::same_text;
use crate::time::{is_utc_reading, now, DateTime, Instant, Moment};
use vstd::prelude::*;

verus! {

/// The test that an event passes the filters at the instant `now`.
pub open spec fn accepting(filters: FiltersView, now: Moment) -> spec_fn(EventView) -> bool {
    |event: EventView| filters.accepts(event, now)
}

/// The events that pass the filters at the instant `now`, in the order they
/// have in `events`.
pub open spec fn matched(events: Seq<EventView>, filters: FiltersView, now: Moment) -> Seq<
    EventView,
> {
    events.filter(accepting(filters, now))
}

/// `positions` picks a sub-list out of a list of length `len`: each position
/// is in range and greater than the one before.
pub open spec fn picks(positions: Seq<int>, len: int) -> bool {
    &&& forall|i: int| 0 <= i < positions.len() ==> 0 <= #[trigger] positions[i] < len
    &&& forall|i: int, j: int| 0 <= i < j < positions.len() ==> positions[i] < positions[j]
}

/// The events that pass a set of filters are a sub-list of the events, in
/// the same order: they stand at ascending positions of `events`, each of
/// them passes the filters, and no event that passes is left out.
pub proof fn lemma_matched_is_sublist(events: Seq<EventView>, filters: FiltersView, now: Moment)
    ensures
        exists|positions: Seq<int>|
            {
                &&& picks(positions, events.len() as int)
                &&& #[trigger] positions.len() == matched(events, filters, now).len()
                &&& forall|i: int|
                    0 <= i < positions.len() ==> matched(events, filters, now)[i]
                        == events[positions[i]]
                &&& forall|k: int|
                    0 <= k < events.len() ==> (filters.accepts(events[k], now)
                        <==> positions.contains(k))
            },
        forall|i: int|
            0 <= i < matched(events, filters, now).len() ==> filters.accepts(
                #[trigger] matched(events, filters, now)[i],
                now,
            ),
    decreases events.len(),
{
    reveal(Seq::filter);
    let pred = accepting(filters, now);
    if events.len() == 0 {
        let positions = Seq::<int>::empty();
        assert(picks(positions, 0));
        assert(positions.len() == matched(events, filters, now).len());
    } else {
        let front = events.drop_last();
        lemma_matched_is_sublist(front, filters, now);
        let before = choose|positions: Seq<int>|
            {
                &&& picks(positions, front.len() as int)
                &&& #[trigger] positions.len() == matched(front, filters, now).len()
                &&& forall|i: int|
                    0 <= i < positions.len() ==> matched(front, filters, now)[i]
                        == front[positions[i]]
                &&& forall|k: int|
                    0 <= k < front.len() ==> (filters.accepts(front[k], now)
                        <==> positions.contains(k))
            };
        let last = events.len() - 1;
        let positions = if pred(events.last()) {
            before.push(last)
        } else {
            before
        };
        assert(picks(positions, events.len() as int));
        assert forall|k: int| 0 <= k < events.len() implies (filters.accepts(events[k], now)
            <==> positions.contains(k)) by {
            if k < last {
                assert(front[k] == events[k]);
                if before.contains(k) {
                    let at = choose|at: int| 0 <= at < before.len() && before[at] == k;
                    assert(positions[at] == k);
                }
                if positions.contains(k) {
                    let at = choose|at: int| 0 <= at < positions.len() && positions[at] == k;
                    assert(before[at] == k);
                }
            } else {
                if pred(events.last()) {
                    assert(positions[positions.len() - 1] == k);
                } else if positions.contains(k) {
                    let at = choose|at: int| 0 <= at < positions.len() && positions[at] == k;
                    assert(before[at] < front.len());
                }
            }
        }
        assert(positions.len() == matched(events, filters, now).len());
        assert forall|i: int| 0 <= i < positions.len() implies matched(events, filters, now)[i]
            == events[positions[i]] by {
            if i < before.len() {
                assert(matched(front, filters, now)[i] == front[before[i]]);
            }
        }
    }
}

/// With no criterion set, every event passes, whatever the time.
pub proof fn lemma_everything_matches(events: Seq<EventView>, now: Moment)
    ensures
        matched(events, FiltersView::everything(), now) == events,
    decreases events.len(),
{
    reveal(Seq::filter);
    if events.len() > 0 {
        lemma_everything_matches(events.drop_last(), now);
        assert(events =~= events.drop_last().push(events.last()));
    }
}

/// The names of all bands that play at one of the events.
pub open spec fn band_names(events: Seq<EventView>) -> Set<Seq<char>> {
    Set::new(
        |name: Seq<char>|
            exists|i: int| 0 <= i < events.len() && (#[trigger] events[i]).bands.contains(name),
    )
}

/// The names of all callers who call at one of the events.
pub open spec fn caller_names(events: Seq<EventView>) -> Set<Seq<char>> {
    Set::new(
        |name: Seq<char>|
            exists|i: int| 0 <= i < events.len() && (#[trigger] events[i]).callers.contains(name),
    )
}

/// The names of all organisations that run one of the events.
pub open spec fn organisation_names(events: Seq<EventView>) -> Set<Seq<char>> {
    Set::new(
        |name: Seq<char>|
            exists|i: int| 0 <= i < events.len() && (#[trigger] events[i]).organisation == Some(name),
    )
}

/// The cities in which one of the events takes place.
pub open spec fn city_names(events: Seq<EventView>) -> Set<Seq<char>> {
    Set::new(
        |name: Seq<char>| exists|i: int| 0 <= i < events.len() && (#[trigger] events[i]).city == name,
    )
}

/// The countries in which one of the events takes place.
pub open spec fn country_names(events: Seq<EventView>) -> Set<Seq<char>> {
    Set::new(
        |name: Seq<char>|
            exists|i: int| 0 <= i < events.len() && (#[trigger] events[i]).country == name,
    )
}

/// The cities of `country` in which one of the events takes place.
pub open spec fn cities_in(events: Seq<EventView>, country: Seq<char>) -> Set<Seq<char>> {
    Set::new(
        |name: Seq<char>|
            exists|i: int|
                0 <= i < events.len() && (#[trigger] events[i]).country == country && events[i].city
                    == name,
    )
}

/// The dance styles that one of the events includes.
pub open spec fn styles_of(events: Seq<EventView>) -> Set<DanceStyle> {
    Set::new(
        |style: DanceStyle|
            exists|i: int| 0 <= i < events.len() && (#[trigger] events[i]).styles.contains(style),
    )
}

/// `list` holds the members of `members`, each once, in dictionary order.
pub open spec fn lists(list: Seq<Seq<char>>, members: Set<Seq<char>>) -> bool {
    &&& strictly_ascending(list)
    &&& forall|name: Seq<char>| list.contains(name) <==> members.contains(name)
}

/// What a [`Country`] stands for.
pub ghost struct CountryView {
    pub name: Seq<char>,
    pub cities: Seq<Seq<char>>,
}

/// The names of the countries, in order.
pub open spec fn names_of(countries: Seq<CountryView>) -> Seq<Seq<char>> {
    countries.map_values(|country: CountryView| country.name)
}

/// `countries` holds each country in which one of the events takes place,
/// once and in dictionary order, and with each country the cities of that
/// country in which one of the events takes place, once and in dictionary order.
pub open spec fn lists_countries(countries: Seq<CountryView>, events: Seq<EventView>) -> bool {
    &&& lists(names_of(countries), country_names(events))
    &&& forall|k: int|
        0 <= k < countries.len() ==> lists(
            (#[trigger] countries[k]).cities,
            cities_in(events, countries[k].name),
        )
}

/// `city` is listed under the country called `country`.
pub open spec fn listed_under(countries: Seq<CountryView>, country: Seq<char>, city: Seq<char>) -> bool {
    exists|k: int|
        0 <= k < countries.len() && (#[trigger] countries[k]).name == country
            && countries[k].cities.contains(city)
}

/// A city is listed under each country in which it has an event, and under
/// no country in which it has none.
pub proof fn lemma_countries_hold_every_city(countries: Seq<CountryView>, events: Seq<EventView>)
    requires
        lists_countries(countries, events),
    ensures
        forall|i: int|
            0 <= i < events.len() ==> listed_under(
                countries,
                (#[trigger] events[i]).country,
                events[i].city,
            ),
        forall|country: Seq<char>, city: Seq<char>| #[trigger]
            listed_under(countries, country, city) ==> cities_in(events, country).contains(city),
{
    assert forall|i: int| 0 <= i < events.len() implies listed_under(
        countries,
        (#[trigger] events[i]).country,
        events[i].city,
    ) by {
        let name = events[i].country;
        assert(country_names(events).contains(name));
        assert(names_of(countries).contains(name));
        let k = choose|k: int| 0 <= k < names_of(countries).len() && names_of(countries)[k] == name;
        assert(countries[k].name == name);
        assert(cities_in(events, name).contains(events[i].city));
    }
}

/// A country with the cities in it that have events.
#[derive(Clone, Debug, PartialEq, Eq, PartialOrd, Ord)]
pub struct Country {
    pub name: String,
    pub cities: Vec<String>,
}

impl View for Country {
    type V = CountryView;

    open spec fn view(&self) -> CountryView {
        CountryView { name: self.name@, cities: self.cities.deep_view() }
    }
}

impl DeepView for Country {
    type V = CountryView;

    open spec fn deep_view(&self) -> CountryView {
        self@
    }
}

/// What an [`InvalidEvent`] stands for.
pub ghost struct InvalidEventView {
    pub name: Seq<char>,
    pub problems: Seq<Seq<char>>,
}

/// An event that is not sound, by its name, with what is wrong with it.
#[derive(Debug, PartialEq, Eq)]
pub struct InvalidEvent {
    pub name: String,
    pub problems: Vec<&'static str>,
}

impl View for InvalidEvent {
    type V = InvalidEventView;

    open spec fn view(&self) -> InvalidEventView {
        InvalidEventView { name: self.name@, problems: self.problems.deep_view() }
    }
}

/// `at` is the position of the first event that is not sound.
pub open spec fn first_unsound(events: Seq<EventView>, at: int) -> bool {
    &&& 0 <= at < events.len()
    &&& !events[at].is_sound()
    &&& forall|k: int| 0 <= k < at ==> (#[trigger] events[k]).is_sound()
}

/// All the events there are.
#[derive(Debug, PartialEq, Eq)]
pub struct Events {
    pub events: Vec<Event>,
}

impl View for Events {
    type V = Seq<EventView>;

    open spec fn view(&self) -> Seq<EventView> {
        self.events.deep_view()
    }
}

impl Clone for Events {
    fn clone(&self) -> (copy: Events)
        ensures
            copy@ == self@,
    {
        let mut copies: Vec<Event> = Vec::new();
        let mut i: usize = 0;
        while i < self.events.len()
            invariant
                i <= self.events.len(),
                copies.deep_view() == self@.take(i as int),
            decreases self.events.len() - i,
        {
            copies.push(self.events[i].clone());
            assert(copies.deep_view() =~= self@.take(i as int).push(self.events@[i as int]@));
            assert(self@.take(i + 1) =~= self@.take(i as int).push(self.events@[i as int]@));
            i += 1;
        }
        assert(self@.take(self.events.len() as int) =~= self@);
        Events { events: copies }
    }
}

/// Puts each of `names` into the strictly ascending `list`, unless the list
/// holds its text already.
fn add_names(list: &mut Vec<String>, names: &Vec<String>)
    requires
        strictly_ascending(old(list).deep_view()),
    ensures
        strictly_ascending(final(list).deep_view()),
        forall|name: Seq<char>|
            final(list).deep_view().contains(name) <==> (old(list).deep_view().contains(name)
                || names.deep_view().contains(name)),
{
    let mut i: usize = 0;
    while i < names.len()
        invariant
            i <= names.len(),
            strictly_ascending(list.deep_view()),
            forall|name: Seq<char>|
                list.deep_view().contains(name) <==> (old(list).deep_view().contains(name)
                    || names.deep_view().take(i as int).contains(name)),
        decreases names.len() - i,
    {
        let ghost before = list.deep_view();
        insert_ascending(list, names[i].clone());
        proof {
            let done = names.deep_view().take(i as int);
            let next = names.deep_view().take(i + 1);
            assert(next =~= done.push(names@[i as int]@));
            assert forall|name: Seq<char>|
                list.deep_view().contains(name) <==> (old(list).deep_view().contains(name)
                    || next.contains(name)) by {
                if done.contains(name) {
                    let k = choose|k: int| 0 <= k < done.len() && done[k] == name;
                    assert(next[k] == name);
                }
                if next.contains(name) {
                    let k = choose|k: int| 0 <= k < next.len() && next[k] == name;
                    if k < i {
                        assert(done[k] == name);
                    }
                }
                assert(next[i as int] == names@[i as int]@);
            }
        }
        i += 1;
    }
    assert(names.deep_view().take(names.len() as int) =~= names.deep_view());
}

/// The cities in which one of the events takes place, in dictionary order.
fn cities_among(events: &Vec<&Event>) -> (cities: Vec<String>)
    ensures
        lists(cities.deep_view(), city_names(events.deep_view())),
{
    let mut cities: Vec<String> = Vec::new();
    let mut i: usize = 0;
    while i < events.len()
        invariant
            i <= events.len(),
            lists(cities.deep_view(), city_names(events.deep_view().take(i as int))),
        decreases events.len() - i,
    {
        let ghost before = cities.deep_view();
        let ghost done = events.deep_view().take(i as int);
        let ghost next = events.deep_view().take(i + 1);
        insert_ascending(&mut cities, events[i].city.clone());
        proof {
            assert forall|name: Seq<char>|
                cities.deep_view().contains(name) <==> city_names(next).contains(name) by {
                if city_names(done).contains(name) {
                    let k = choose|k: int| 0 <= k < done.len() && (#[trigger] done[k]).city == name;
                    assert(next[k].city == name);
                }
                if city_names(next).contains(name) {
                    let k = choose|k: int| 0 <= k < next.len() && (#[trigger] next[k]).city == name;
                    if k < i {
                        assert(done[k].city == name);
                    }
                }
                assert(next[i as int].city == events@[i as int].city@);
            }
        }
        i += 1;
    }
    assert(events.deep_view().take(events.len() as int) =~= events.deep_view());
    cities
}

/// The countries in which one of the events takes place, in dictionary order.
fn country_names_among(events: &Vec<&Event>) -> (countries: Vec<String>)
    ensures
        lists(countries.deep_view(), country_names(events.deep_view())),
{
    let mut countries: Vec<String> = Vec::new();
    let mut i: usize = 0;
    while i < events.len()
        invariant
            i <= events.len(),
            lists(countries.deep_view(), country_names(events.deep_view().take(i as int))),
        decreases events.len() - i,
    {
        let ghost done = events.deep_view().take(i as int);
        let ghost next = events.deep_view().take(i + 1);
        insert_ascending(&mut countries, events[i].country.clone());
        proof {
            assert forall|name: Seq<char>|
                countries.deep_view().contains(name) <==> country_names(next).contains(name) by {
                if country_names(done).contains(name) {
                    let k = choose|k: int|
                        0 <= k < done.len() && (#[trigger] done[k]).country == name;
                    assert(next[k].country == name);
                }
                if country_names(next).contains(name) {
                    let k = choose|k: int|
                        0 <= k < next.len() && (#[trigger] next[k]).country == name;
                    if k < i {
                        assert(done[k].country == name);
                    }
                }
                assert(next[i as int].country == events@[i as int].country@);
            }
        }
        i += 1;
    }
    assert(events.deep_view().take(events.len() as int) =~= events.deep_view());
    countries
}

/// The cities of `country` in which one of the events takes place, in
/// dictionary order.
fn cities_in_country(events: &Vec<&Event>, country: &str) -> (cities: Vec<String>)
    ensures
        lists(cities.deep_view(), cities_in(events.deep_view(), country@)),
{
    let mut cities: Vec<String> = Vec::new();
    let mut i: usize = 0;
    while i < events.len()
        invariant
            i <= events.len(),
            lists(cities.deep_view(), cities_in(events.deep_view().take(i as int), country@)),
        decreases events.len() - i,
    {
        let ghost before = cities.deep_view();
        let ghost done = events.deep_view().take(i as int);
        let ghost next = events.deep_view().take(i + 1);
        let here = same_text(events[i].country.as_str(), country);
        if here {
            insert_ascending(&mut cities, events[i].city.clone());
        }
        proof {
            assert(next[i as int] == events@[i as int]@);
            assert forall|name: Seq<char>|
                cities.deep_view().contains(name) <==> cities_in(next, country@).contains(name) by {
                if cities_in(done, country@).contains(name) {
                    let k = choose|k: int|
                        0 <= k < done.len() && (#[trigger] done[k]).country == country@
                            && done[k].city == name;
                    assert(next[k].country == country@ && next[k].city == name);
                }
                if cities_in(next, country@).contains(name) {
                    let k = choose|k: int|
                        0 <= k < next.len() && (#[trigger] next[k]).country == country@
                            && next[k].city == name;
                    if k < i {
                        assert(done[k].country == country@ && done[k].city == name);
                    }
                }
            }
        }
        i += 1;
    }
    assert(events.deep_view().take(events.len() as int) =~= events.deep_view());
    cities
}

/// The countries in which one of the events takes place, each with its
/// cities, in dictionary order.
fn countries_among(events: &Vec<&Event>) -> (countries: Vec<Country>)
    ensures
        lists_countries(countries.deep_view(), events.deep_view()),
{
    let mut names = country_names_among(events);
    let mut countries: Vec<Country> = Vec::new();
    let mut k: usize = 0;
    while k < names.len()
        invariant
            k <= names.len(),
            countries.len() == k,
            forall|j: int|
                0 <= j < k ==> (#[trigger] countries.deep_view()[j]).name == names.deep_view()[j],
            forall|j: int|
                0 <= j < k ==> lists(
                    (#[trigger] countries.deep_view()[j]).cities,
                    cities_in(events.deep_view(), countries.deep_view()[j].name),
                ),
        decreases names.len() - k,
    {
        let cities = cities_in_country(events, names[k].as_str());
        let ghost before = countries.deep_view();
        countries.push(Country { name: names[k].clone(), cities });
        proof {
            let after = countries.deep_view();
            assert forall|j: int| 0 <= j < k + 1 implies (#[trigger] after[j]).name
                == names.deep_view()[j] && lists(
                after[j].cities,
                cities_in(events.deep_view(), after[j].name),
            ) by {
                if j < k {
                    assert(after[j] == before[j]);
                }
            }
        }
        k += 1;
    }
    assert(names_of(countries.deep_view()) =~= names.deep_view());
    countries
}

/// The styles that one of the events includes, in their declared order.
fn styles_among(events: &Vec<&Event>) -> (styles: Vec<DanceStyle>)
    ensures
        lists_styles(styles@, styles_of(events.deep_view())),
{
    let mut gathered: Vec<DanceStyle> = Vec::new();
    let mut i: usize = 0;
    while i < events.len()
        invariant
            i <= events.len(),
            forall|style: DanceStyle|
                gathered@.contains(style) <==> styles_of(events.deep_view().take(i as int)).contains(
                    style,
                ),
        decreases events.len() - i,
    {
        let ghost done = events.deep_view().take(i as int);
        let ghost next = events.deep_view().take(i + 1);
        let ghost before = gathered@;
        let added = copy_styles(&events[i].styles);
        let mut added = added;
        gathered.append(&mut added);
        proof {
            assert(next[i as int].styles == events@[i as int].styles@);
            assert forall|style: DanceStyle|
                gathered@.contains(style) <==> styles_of(next).contains(style) by {
                if before.contains(style) {
                    let at = choose|at: int| 0 <= at < before.len() && before[at] == style;
                    assert(gathered@[at] == style);
                }
                if events@[i as int].styles@.contains(style) {
                    let at = choose|at: int|
                        0 <= at < events@[i as int].styles@.len() && events@[i as int].styles@[at]
                            == style;
                    assert(gathered@[before.len() + at] == style);
                    assert(next[i as int].styles.contains(style));
                }
                if gathered@.contains(style) {
                    let at = choose|at: int| 0 <= at < gathered@.len() && gathered@[at] == style;
                    if at < before.len() {
                        assert(before[at] == style);
                    } else {
                        assert(events@[i as int].styles@[at - before.len()] == style);
                    }
                }
                if styles_of(done).contains(style) {
                    let k = choose|k: int|
                        0 <= k < done.len() && (#[trigger] done[k]).styles.contains(style);
                    assert(next[k].styles.contains(style));
                }
                if styles_of(next).contains(style) {
                    let k = choose|k: int|
                        0 <= k < next.len() && (#[trigger] next[k]).styles.contains(style);
                    if k < i {
                        assert(done[k].styles.contains(style));
                    }
                }
            }
        }
        i += 1;
    }
    assert(events.deep_view().take(events.len() as int) =~= events.deep_view());
    distinct_styles(&gathered)
}

impl Events {
    /// A list that holds a copy of each of the given events, in the same order.
    pub fn cloned(events: Vec<&Event>) -> (copy: Events)
        ensures
            copy@ == events.deep_view(),
    {
        let mut copies: Vec<Event> = Vec::new();
        let mut i: usize = 0;
        while i < events.len()
            invariant
                i <= events.len(),
                copies.deep_view() == events.deep_view().take(i as int),
            decreases events.len() - i,
        {
            copies.push(events[i].clone());
            assert(copies.deep_view() =~= events.deep_view().take(i as int).push(events@[i as int]@));
            assert(events.deep_view().take(i + 1) =~= events.deep_view().take(i as int).push(
                events@[i as int]@,
            ));
            i += 1;
        }
        assert(events.deep_view().take(events.len() as int) =~= events.deep_view());
        Events { events: copies }
    }

    /// Checks that every event is sound; if not, tells the first that is not.
    pub fn validate(&self) -> (result: Result<(), InvalidEvent>)
        ensures
            match result {
                Ok(_) => forall|k: int| 0 <= k < self@.len() ==> (#[trigger] self@[k]).is_sound(),
                Err(invalid) => exists|at: int|
                    first_unsound(self@, at) && invalid@ == (InvalidEventView {
                        name: self@[at].name,
                        problems: self@[at].problems(),
                    }),
            },
    {
        let mut i: usize = 0;
        while i < self.events.len()
            invariant
                i <= self.events.len(),
                forall|k: int| 0 <= k < i ==> (#[trigger] self@[k]).is_sound(),
            decreases self.events.len() - i,
        {
            let problems = self.events[i].validate();
            if problems.len() > 0 {
                assert(first_unsound(self@, i as int));
                return Err(InvalidEvent { name: self.events[i].name.clone(), problems });
            }
            i += 1;
        }
        Ok(())
    }

    /// All events that pass the given filters at the instant `now`, in the
    /// order in which the list holds them.
    pub fn matching_at(&self, filters: &Filters, now: &Instant) -> (found: Vec<&Event>)
        ensures
            found.deep_view() == matched(self@, filters@, now@),
    {
        let mut found: Vec<&Event> = Vec::new();
        let mut i: usize = 0;
        assert(self@.take(0).filter(accepting(filters@, now@)) =~= Seq::<EventView>::empty()) by {
            reveal(Seq::filter);
        }
        while i < self.events.len()
            invariant
                i <= self.events.len(),
                found.deep_view() == matched(self@.take(i as int), filters@, now@),
            decreases self.events.len() - i,
        {
            let event = &self.events[i];
            let ghost before = found.deep_view();
            proof {
                self@.take(i as int).lemma_filter_push(event@, accepting(filters@, now@));
                assert(self@.take(i + 1) =~= self@.take(i as int).push(event@));
            }
            if filters.matches_at(event, now) {
                found.push(event);
                assert(found.deep_view() =~= before.push(event@));
            }
            i += 1;
        }
        assert(self@.take(self.events.len() as int) =~= self@);
        found
    }

    /// All events that pass the given filters at the time `now`.
    pub fn matching_on(&self, filters: &Filters, now: &DateTime) -> (found: Vec<&Event>)
        ensures
            found.deep_view() == matched(self@, filters@, now@.moment()),
    {
        let instant = now.instant();
        self.matching_at(filters, &instant)
    }

    /// Get all events matching the given filters, as of the time at which it
    /// is called.
    pub fn matching(&self, filters: &Filters) -> (found: Vec<&Event>)
        ensures
            exists|now: Moment|
                #[trigger] is_utc_reading(now)
                    && found.deep_view() == matched(self@, filters@, now),
    {
        let instant = now();
        self.matching_at(filters, &instant)
    }

    /// Gets all bands who play for at least one event, in alphabetical order.
    pub fn bands(&self) -> (bands: Vec<String>)
        ensures
            lists(bands.deep_view(), band_names(self@)),
    {
        let mut bands: Vec<String> = Vec::new();
        let mut i: usize = 0;
        while i < self.events.len()
            invariant
                i <= self.events.len(),
                lists(bands.deep_view(), band_names(self@.take(i as int))),
            decreases self.events.len() - i,
        {
            let ghost done = self@.take(i as int);
            let ghost next = self@.take(i + 1);
            add_names(&mut bands, &self.events[i].bands);
            proof {
                assert(next[i as int].bands == self.events@[i as int].bands.deep_view());
                assert forall|name: Seq<char>|
                    bands.deep_view().contains(name) <==> band_names(next).contains(name) by {
                    if band_names(done).contains(name) {
                        let k = choose|k: int|
                            0 <= k < done.len() && (#[trigger] done[k]).bands.contains(name);
                        assert(next[k].bands.contains(name));
                    }
                    if band_names(next).contains(name) {
                        let k = choose|k: int|
                            0 <= k < next.len() && (#[trigger] next[k]).bands.contains(name);
                        if k < i {
                            assert(done[k].bands.contains(name));
                        }
                    }
                    if self.events@[i as int].bands.deep_view().contains(name) {
                        assert(next[i as int].bands.contains(name));
                    }
                }
            }
            i += 1;
        }
        assert(self@.take(self.events.len() as int) =~= self@);
        bands
    }

    /// Gets all callers who call for at least one event, in alphabetical order.
    pub fn callers(&self) -> (callers: Vec<String>)
        ensures
            lists(callers.deep_view(), caller_names(self@)),
    {
        let mut callers: Vec<String> = Vec::new();
        let mut i: usize = 0;
        while i < self.events.len()
            invariant
                i <= self.events.len(),
                lists(callers.deep_view(), caller_names(self@.take(i as int))),
            decreases self.events.len() - i,
        {
            let ghost done = self@.take(i as int);
            let ghost next = self@.take(i + 1);
            add_names(&mut callers, &self.events[i].callers);
            proof {
                assert(next[i as int].callers == self.events@[i as int].callers.deep_view());
                assert forall|name: Seq<char>|
                    callers.deep_view().contains(name) <==> caller_names(next).contains(name) by {
                    if caller_names(done).contains(name) {
                        let k = choose|k: int|
                            0 <= k < done.len() && (#[trigger] done[k]).callers.contains(name);
                        assert(next[k].callers.contains(name));
                    }
                    if caller_names(next).contains(name) {
                        let k = choose|k: int|
                            0 <= k < next.len() && (#[trigger] next[k]).callers.contains(name);
                        if k < i {
                            assert(done[k].callers.contains(name));
                        }
                    }
                    if self.events@[i as int].callers.deep_view().contains(name) {
                        assert(next[i as int].callers.contains(name));
                    }
                }
            }
            i += 1;
        }
        assert(self@.take(self.events.len() as int) =~= self@);
        callers
    }

    /// Gets all dance organisations, in alphabetical order.
    pub fn organisations(&self) -> (organisations: Vec<String>)
        ensures
            lists(organisations.deep_view(), organisation_names(self@)),
    {
        let mut organisations: Vec<String> = Vec::new();
        let mut i: usize = 0;
        while i < self.events.len()
            invariant
                i <= self.events.len(),
                lists(organisations.deep_view(), organisation_names(self@.take(i as int))),
            decreases self.events.len() - i,
        {
            let ghost done = self@.take(i as int);
            let ghost next = self@.take(i + 1);
            match &self.events[i].organisation {
                Some(organisation) => {
                    insert_ascending(&mut organisations, organisation.clone());
                },
                None => {},
            }
            proof {
                assert(next[i as int].organisation == self.events@[i as int].organisation.deep_view());
                assert forall|name: Seq<char>|
                    organisations.deep_view().contains(name) <==> organisation_names(
                        next,
                    ).contains(name) by {
                    if organisation_names(done).contains(name) {
                        let k = choose|k: int|
                            0 <= k < done.len() && (#[trigger] done[k]).organisation == Some(name);
                        assert(next[k].organisation == Some(name));
                    }
                    if organisation_names(next).contains(name) {
                        let k = choose|k: int|
                            0 <= k < next.len() && (#[trigger] next[k]).organisation == Some(name);
                        if k < i {
                            assert(done[k].organisation == Some(name));
                        }
                    }
                }
            }
            i += 1;
        }
        assert(self@.take(self.events.len() as int) =~= self@);
        organisations
    }

    /// The countries that have events passing the filters at the instant
    /// `now`, each with its cities that have such events.
    pub fn countries_at(&self, filters: &Filters, now: &Instant) -> (countries: Vec<Country>)
        ensures
            lists_countries(countries.deep_view(), matched(self@, filters@, now@)),
    {
        let found = self.matching_at(filters, now);
        countries_among(&found)
    }

    /// Gets all cities which have dance events matching the given filters, grouped by country, in
    /// alphabetical order.
    pub fn countries(&self, filters: &Filters) -> (countries: Vec<Country>)
        ensures
            exists|now: Moment|
                #[trigger] is_utc_reading(now)
                    && lists_countries(countries.deep_view(), matched(self@, filters@, now)),
    {
        let instant = now();
        self.countries_at(filters, &instant)
    }

    /// The cities that have events passing the filters at the instant `now`.
    pub fn cities_at(&self, filters: &Filters, now: &Instant) -> (cities: Vec<String>)
        ensures
            lists(cities.deep_view(), city_names(matched(self@, filters@, now@))),
    {
        let found = self.matching_at(filters, now);
        cities_among(&found)
    }

    /// Gets all cities which have dance events matching the given filters, in alphabetical order.
    pub fn cities(&self, filters: &Filters) -> (cities: Vec<String>)
        ensures
            exists|now: Moment|
                #[trigger] is_utc_reading(now)
                    && lists(cities.deep_view(), city_names(matched(self@, filters@, now))),
    {
        let instant = now();
        self.cities_at(filters, &instant)
    }

    /// The dance styles that events passing the filters at the instant `now` include.
    pub fn styles_at(&self, filters: &Filters, now: &Instant) -> (styles: Vec<DanceStyle>)
        ensures
            lists_styles(styles@, styles_of(matched(self@, filters@, now@))),
    {
        let found = self.matching_at(filters, now);
        styles_among(&found)
    }

    /// Gets all dance styles which have events matching the given filters, in order.
    pub fn styles(&self, filters: &Filters) -> (styles: Vec<DanceStyle>)
        ensures
            exists|now: Moment|
                #[trigger] is_utc_reading(now)
                    && lists_styles(styles@, styles_of(matched(self@, filters@, now))),
    {
        let instant = now();
        self.styles_at(filters, &instant)
    }
}

} // verus!
