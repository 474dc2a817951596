//! Events in order of their start, and gathered by the month they start in.

use crate::event::{Event, EventView};
use crate::sorting::{comes_first, is_stable_order, lemma_stable_order_unique, stable_order};
use crate::time::{month_year, month_year_text, moments, Date, DateView, Instant, Moment};
use vstd::prelude::*;

verus! {

/// The moments by which the events are put in order, one for each event.
pub open spec fn starts(events: Seq<EventView>) -> Seq<Moment> {
    events.map_values(|event: EventView| event.time.start())
}

/// The events taken in the given order of their positions.
pub open spec fn arranged(events: Seq<EventView>, order: Seq<usize>) -> Seq<EventView> {
    order.map_values(|position: usize| events[position as int])
}

/// `sorted` holds the events of `events` in ascending order of their start;
/// events that start at the same moment keep the order they have in `events`.
pub open spec fn is_sorted_by_start(sorted: Seq<EventView>, events: Seq<EventView>) -> bool {
    exists|order: Seq<usize>| #[trigger]
        is_stable_order(starts(events), order) && sorted == arranged(events, order)
}

/// There is one way only to put events in order of their start.
pub proof fn lemma_sorted_by_start_unique(
    events: Seq<EventView>,
    first: Seq<EventView>,
    second: Seq<EventView>,
)
    requires
        is_sorted_by_start(first, events),
        is_sorted_by_start(second, events),
    ensures
        first == second,
{
    let a = choose|order: Seq<usize>| #[trigger]
        is_stable_order(starts(events), order) && first == arranged(events, order);
    let b = choose|order: Seq<usize>| #[trigger]
        is_stable_order(starts(events), order) && second == arranged(events, order);
    lemma_stable_order_unique(starts(events), a, b);
}

/// Two events that start at the same moment come out of the sorting in the
/// order in which they went in: of two places in the sorted order, the
/// earlier holds the event from the lower position.
pub proof fn lemma_ties_keep_order(events: Seq<EventView>, order: Seq<usize>, i: int, j: int)
    requires
        is_stable_order(starts(events), order),
        0 <= i < j < order.len(),
        events[order[i] as int].time.start() == events[order[j] as int].time.start(),
    ensures
        order[i] < order[j],
{
    assert(comes_first(starts(events), order[i] as int, order[j] as int));
}

/// In the sorted order no event starts before the one in front of it.
pub proof fn lemma_sorted_ascends(events: Seq<EventView>, order: Seq<usize>, i: int, j: int)
    requires
        is_stable_order(starts(events), order),
        0 <= i < j < order.len(),
    ensures
        arranged(events, order)[i].time.start().not_after(arranged(events, order)[j].time.start()),
{
    assert(comes_first(starts(events), order[i] as int, order[j] as int));
}

/// Sorting what is sorted changes nothing. The list must be one that a
/// machine can hold.
pub proof fn lemma_sorting_twice_is_sorting_once(
    events: Seq<EventView>,
    once: Seq<EventView>,
    twice: Seq<EventView>,
)
    requires
        events.len() <= usize::MAX,
        is_sorted_by_start(once, events),
        is_sorted_by_start(twice, once),
    ensures
        twice == once,
{
    let first = choose|order: Seq<usize>| #[trigger]
        is_stable_order(starts(events), order) && once == arranged(events, order);
    let second = choose|order: Seq<usize>| #[trigger]
        is_stable_order(starts(once), order) && twice == arranged(once, order);
    assert(once.len() == events.len());
    // What is sorted is in stable order as it stands.
    let as_it_stands = Seq::new(once.len(), |position: int| position as usize);
    assert(is_stable_order(starts(once), as_it_stands)) by {
        assert forall|i: int, j: int| 0 <= i < j < as_it_stands.len() implies comes_first(
            starts(once),
            as_it_stands[i] as int,
            as_it_stands[j] as int,
        ) by {
            assert(comes_first(starts(events), first[i] as int, first[j] as int));
            assert(starts(once)[i] == starts(events)[first[i] as int]);
            assert(starts(once)[j] == starts(events)[first[j] as int]);
            assert(as_it_stands[i] == i);
            assert(as_it_stands[j] == j);
        }
        assert forall|k: usize| k < starts(once).len() implies as_it_stands.contains(k) by {
            assert(as_it_stands[k as int] == k);
        }
    }
    lemma_stable_order_unique(starts(once), second, as_it_stands);
    assert forall|i: int| 0 <= i < twice.len() implies twice[i] == once[i] by {
        assert(as_it_stands[i] == i);
    }
    assert(twice =~= once);
}

/// The events in ascending order of their start; events that start at the
/// same moment keep their order.
pub fn sort_by_start<'a>(events: &Vec<&'a Event>) -> (sorted: Vec<&'a Event>)
    ensures
        is_sorted_by_start(sorted.deep_view(), events.deep_view()),
{
    let mut keys: Vec<Instant> = Vec::new();
    let mut i: usize = 0;
    while i < events.len()
        invariant
            i <= events.len(),
            keys.len() == i,
            forall|k: int|
                0 <= k < i ==> (#[trigger] keys@[k])@ == events.deep_view()[k].time.start(),
        decreases events.len() - i,
    {
        keys.push(events[i].start_time_sort_key());
        i += 1;
    }
    assert(moments(keys@) =~= starts(events.deep_view()));
    let order = stable_order(&keys);
    let mut sorted: Vec<&'a Event> = Vec::new();
    let mut j: usize = 0;
    while j < order.len()
        invariant
            j <= order.len(),
            order.len() == events.len(),
            forall|k: int| 0 <= k < order.len() ==> (#[trigger] order@[k]) < events.len(),
            sorted.len() == j,
            forall|k: int|
                0 <= k < j ==> (#[trigger] sorted.deep_view()[k]) == events.deep_view()[order@[k] as int],
        decreases order.len() - j,
    {
        let ghost before = sorted.deep_view();
        sorted.push(events[order[j]]);
        proof {
            assert forall|k: int| 0 <= k < j + 1 implies (#[trigger] sorted.deep_view()[k])
                == events.deep_view()[order@[k] as int] by {
                if k < j {
                    assert(sorted.deep_view()[k] == before[k]);
                }
            }
        }
        j += 1;
    }
    assert(sorted.deep_view() =~= arranged(events.deep_view(), order@));
    sorted
}

/// What a [`Month`] stands for.
pub ghost struct MonthView {
    pub start: DateView,
    pub events: Seq<EventView>,
}

impl MonthView {
    /// The event starts in this month.
    pub open spec fn holds(self, event: EventView) -> bool {
        event.time.start_date().year == self.start.year && event.time.start_date().month
            == self.start.month
    }

    /// The month is marked by its first day, holds an event, and every event
    /// it holds starts in it.
    pub open spec fn is_filled(self) -> bool {
        &&& self.start.day == 1
        &&& self.events.len() > 0
        &&& forall|i: int| 0 <= i < self.events.len() ==> self.holds(#[trigger] self.events[i])
    }

    /// The two months are different months of the calendar.
    pub open spec fn differs_from(self, other: MonthView) -> bool {
        self.start.year != other.start.year || self.start.month != other.start.month
    }
}

/// The events of all the months, one month after the other.
pub open spec fn events_of(months: Seq<MonthView>) -> Seq<EventView>
    decreases months.len(),
{
    if months.len() == 0 {
        Seq::empty()
    } else {
        events_of(months.drop_last()) + months.last().events
    }
}

/// `months` divides `events`, as they stand, into runs of events that start
/// in the same month: no run is empty, and no run could be longer.
pub open spec fn is_grouping(months: Seq<MonthView>, events: Seq<EventView>) -> bool {
    &&& events_of(months) == events
    &&& forall|k: int| 0 <= k < months.len() ==> (#[trigger] months[k]).is_filled()
    &&& forall|k: int|
        0 <= k < months.len() - 1 ==> (#[trigger] months[k]).differs_from(months[k + 1])
}

/// The events of the months make up a list at least as long as that of the
/// last month.
proof fn lemma_events_end_with_last_month(months: Seq<MonthView>)
    requires
        months.len() > 0,
    ensures
        events_of(months) == events_of(months.drop_last()) + months.last().events,
        events_of(months).len() == events_of(months.drop_last()).len() + months.last().events.len(),
{
}

/// There is one way only to divide a list of events into months.
pub proof fn lemma_grouping_unique(
    first: Seq<MonthView>,
    second: Seq<MonthView>,
    events: Seq<EventView>,
)
    requires
        is_grouping(first, events),
        is_grouping(second, events),
    ensures
        first == second,
    decreases first.len(),
{
    if first.len() == 0 {
        if second.len() > 0 {
            lemma_events_end_with_last_month(second);
            assert(second[second.len() - 1].is_filled());
        }
        assert(first =~= second);
    } else if second.len() == 0 {
        lemma_events_end_with_last_month(first);
        assert(first[first.len() - 1].is_filled());
    } else {
        lemma_events_end_with_last_month(first);
        lemma_events_end_with_last_month(second);
        let a = first.last();
        let b = second.last();
        let front_a = first.drop_last();
        let front_b = second.drop_last();
        assert(a == first[first.len() - 1] && a.is_filled());
        assert(b == second[second.len() - 1] && b.is_filled());
        let total = events.len() as int;
        // Both last months hold the last event.
        assert(events[total - 1] == a.events[a.events.len() - 1]);
        assert(events[total - 1] == b.events[b.events.len() - 1]);
        assert(a.holds(a.events[a.events.len() - 1]));
        assert(b.holds(b.events[b.events.len() - 1]));
        assert(a.start == b.start);
        // Neither can hold more than the other: the month before starts elsewhere.
        assert(a.events =~= events.skip(total - a.events.len()));
        assert(b.events =~= events.skip(total - b.events.len()));
        lemma_run_ends_with_month(first, b, events);
        lemma_run_ends_with_month(second, a, events);
        assert(a.events =~= b.events) by {
            assert forall|i: int| 0 <= i < a.events.len() implies a.events[i] == b.events[i] by {
                assert(events[total - a.events.len() + i] == a.events[i]);
                assert(events[total - b.events.len() + i] == b.events[i]);
            }
        }
        assert(a == b);
        assert(events_of(front_a) =~= events.take(total - a.events.len()));
        assert(events_of(front_b) =~= events.take(total - b.events.len()));
        let rest = events.take(total - a.events.len());
        assert(is_grouping(front_a, rest)) by {
            assert forall|k: int| 0 <= k < front_a.len() implies (#[trigger] front_a[k]).is_filled() by {
                assert(front_a[k] == first[k]);
            }
            assert forall|k: int| 0 <= k < front_a.len() - 1 implies (
            #[trigger] front_a[k]).differs_from(front_a[k + 1]) by {
                assert(front_a[k] == first[k]);
                assert(front_a[k + 1] == first[k + 1]);
            }
        }
        assert(is_grouping(front_b, rest)) by {
            assert forall|k: int| 0 <= k < front_b.len() implies (#[trigger] front_b[k]).is_filled() by {
                assert(front_b[k] == second[k]);
            }
            assert forall|k: int| 0 <= k < front_b.len() - 1 implies (
            #[trigger] front_b[k]).differs_from(front_b[k + 1]) by {
                assert(front_b[k] == second[k]);
                assert(front_b[k + 1] == second[k + 1]);
            }
        }
        lemma_grouping_unique(front_a, front_b, rest);
        assert(first =~= front_a.push(a));
        assert(second =~= front_b.push(b));
    }
}

/// A run of events at the end of the list that all start in the month of
/// the last month is no longer than that month: the month before starts
/// elsewhere.
proof fn lemma_run_ends_with_month(months: Seq<MonthView>, run: MonthView, events: Seq<EventView>)
    requires
        is_grouping(months, events),
        months.len() > 0,
        run.events.len() <= events.len(),
        run.events == events.skip(events.len() - run.events.len()),
        run.start.year == months.last().start.year,
        run.start.month == months.last().start.month,
        forall|i: int| 0 <= i < run.events.len() ==> run.holds(#[trigger] run.events[i]),
    ensures
        run.events.len() <= months.last().events.len(),
{
    lemma_events_end_with_last_month(months);
    let last = months.last();
    let front = months.drop_last();
    let total = events.len() as int;
    if run.events.len() > last.events.len() {
        assert(events_of(front).len() > 0);
        assert(front.len() > 0);
        lemma_events_end_with_last_month(front);
        let before = front.last();
        assert(before == months[months.len() - 2]);
        assert(before.is_filled());
        assert(before.differs_from(months[months.len() - 1]));
        // The event just before the last month belongs to the month before,
        // and to the run.
        let at = total - last.events.len() - 1;
        assert(events_of(front)[events_of(front).len() - 1] == before.events[before.events.len()
            - 1]);
        assert(events[at] == events_of(front)[at]);
        assert(before.holds(before.events[before.events.len() - 1]));
        assert(events[at] == run.events[at - (total - run.events.len())]);
        assert(run.holds(run.events[at - (total - run.events.len())]));
    }
}

/// The events that start in one month.
#[derive(Debug, PartialEq, Eq)]
pub struct Month {
    /// The first day of the month.
    pub start: Date,
    pub events: Vec<Event>,
}

impl View for Month {
    type V = MonthView;

    open spec fn view(&self) -> MonthView {
        MonthView { start: self.start@, events: self.events.deep_view() }
    }
}

impl DeepView for Month {
    type V = MonthView;

    open spec fn deep_view(&self) -> MonthView {
        self@
    }
}

impl Month {
    /// The name of the month followed by the year, such as "January 2022".
    pub fn name(&self) -> (name: String)
        ensures
            name@ == month_year_text(self@.start.year, self@.start.month),
    {
        month_year(&self.start)
    }
}

/// Whether the event starts in the month that begins on `start`.
fn starts_in(event: &Event, start: &Date) -> (within: bool)
    ensures
        within == (MonthView { start: start@, events: Seq::empty() }).holds(event@),
{
    event.start_year() == start.year() && event.start_month() == start.month()
}

/// Divides the events, as they stand, into runs of events that start in the
/// same month.
pub fn group_by_month(events: &Vec<&Event>) -> (months: Vec<Month>)
    ensures
        is_grouping(months.deep_view(), events.deep_view()),
{
    let mut months: Vec<Month> = Vec::new();
    let mut i: usize = 0;
    while i < events.len()
        invariant
            i <= events.len(),
            events_of(months.deep_view()) == events.deep_view().take(i as int),
            forall|k: int| 0 <= k < months.len() ==> (#[trigger] months.deep_view()[k]).is_filled(),
            forall|k: int|
                0 <= k < months.len() - 1 ==> (#[trigger] months.deep_view()[k]).differs_from(
                    months.deep_view()[k + 1],
                ),
            months.len() > 0 && i < events.len() ==> !months.deep_view().last().holds(
                events.deep_view()[i as int],
            ),
        decreases events.len() - i,
    {
        let start = events[i].time.start_date().first_of_month();
        let ghost first = i;
        let ghost marker = MonthView { start: start@, events: Seq::empty() };
        let mut run: Vec<Event> = Vec::new();
        run.push(events[i].clone());
        assert(run.deep_view() =~= events.deep_view().subrange(first as int, first + 1));
        i += 1;
        while i < events.len() && starts_in(events[i], &start)
            invariant
                first < i <= events.len(),
                marker == (MonthView { start: start@, events: Seq::empty() }),
                run.deep_view() == events.deep_view().subrange(first as int, i as int),
                forall|k: int| first <= k < i ==> marker.holds(#[trigger] events.deep_view()[k]),
            decreases events.len() - i,
        {
            let ghost before = run.deep_view();
            run.push(events[i].clone());
            assert(run.deep_view() =~= before.push(events@[i as int]@));
            assert(events.deep_view().subrange(first as int, i + 1) =~= before.push(
                events@[i as int]@,
            ));
            i += 1;
        }
        let ghost before = months.deep_view();
        months.push(Month { start, events: run });
        proof {
            let after = months.deep_view();
            let added = after.last();
            assert(after.drop_last() =~= before);
            assert(added.events == events.deep_view().subrange(first as int, i as int));
            assert(events.deep_view().take(i as int) =~= events.deep_view().take(first as int)
                + added.events);
            assert(added.is_filled()) by {
                assert forall|k: int| 0 <= k < added.events.len() implies added.holds(
                    #[trigger] added.events[k],
                ) by {
                    assert(marker.holds(events.deep_view()[first + k]));
                }
            }
            assert forall|k: int| 0 <= k < after.len() implies (#[trigger] after[k]).is_filled() by {
                if k < before.len() {
                    assert(after[k] == before[k]);
                }
            }
            assert forall|k: int| 0 <= k < after.len() - 1 implies (#[trigger] after[k]).differs_from(
                after[k + 1],
            ) by {
                if k < before.len() - 1 {
                    assert(after[k] == before[k]);
                    assert(after[k + 1] == before[k + 1]);
                } else {
                    assert(after[k] == before.last());
                    assert(added.holds(events.deep_view()[first as int]));
                }
            }
        }
    }
    assert(events.deep_view().take(events.len() as int) =~= events.deep_view());
    months
}

/// Given a list of events in arbitrary order, sort them in ascending order of
/// start date, then group them by starting month.
pub fn sort_and_group_by_month(events: Vec<&Event>) -> (months: Vec<Month>)
    ensures
        exists|sorted: Seq<EventView>| #[trigger]
            is_sorted_by_start(sorted, events.deep_view()) && is_grouping(
                months.deep_view(),
                sorted,
            ),
{
    let sorted = sort_by_start(&events);
    group_by_month(&sorted)
}

} // verus!
