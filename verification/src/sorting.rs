//! Sorted lists of names without repeats, and a stable order by instant.

use crate::text::{
    lemma_precedes_irreflexive, lemma_precedes_total, lemma_precedes_transitive, precedes,
    same_text, text_precedes,
};
use crate::time::{moments, Instant, Moment};
use vstd::prelude::*;

verus! {

/// Each text comes before all the texts after it: the list is in dictionary
/// order and holds nothing twice.
pub open spec fn strictly_ascending(list: Seq<Seq<char>>) -> bool {
    forall|i: int, j: int| 0 <= i < j < list.len() ==> text_precedes(list[i], list[j])
}

/// Two strictly ascending lists with the same members are the same list.
pub proof fn lemma_strictly_ascending_unique(a: Seq<Seq<char>>, b: Seq<Seq<char>>)
    requires
        strictly_ascending(a),
        strictly_ascending(b),
        forall|t: Seq<char>| a.contains(t) <==> b.contains(t),
    ensures
        a == b,
    decreases a.len(),
{
    if a.len() == 0 {
        if b.len() > 0 {
            assert(b.contains(b[0]));
        }
        assert(a =~= b);
    } else if b.len() == 0 {
        assert(a.contains(a[0]));
    } else {
        // The first member of each list is the least of the shared members.
        assert(a.contains(a[0]));
        assert(b.contains(b[0]));
        let i = choose|i: int| 0 <= i < b.len() && b[i] == a[0];
        let j = choose|j: int| 0 <= j < a.len() && a[j] == b[0];
        if i > 0 && j > 0 {
            lemma_precedes_transitive(a[0], a[j], b[i]);
            lemma_precedes_irreflexive(a[0]);
        }
        if i > 0 && j == 0 {
            lemma_precedes_irreflexive(a[0]);
        }
        if i == 0 && j > 0 {
            lemma_precedes_irreflexive(a[0]);
        }
        assert(a[0] == b[0]);
        let ta = a.drop_first();
        let tb = b.drop_first();
        assert forall|t: Seq<char>| ta.contains(t) <==> tb.contains(t) by {
            if ta.contains(t) {
                let k = choose|k: int| 0 <= k < ta.len() && ta[k] == t;
                assert(a[k + 1] == t);
                assert(a.contains(t));
                let m = choose|m: int| 0 <= m < b.len() && b[m] == t;
                if m == 0 {
                    lemma_precedes_irreflexive(t);
                }
                assert(tb[m - 1] == t);
            }
            if tb.contains(t) {
                let k = choose|k: int| 0 <= k < tb.len() && tb[k] == t;
                assert(b[k + 1] == t);
                assert(b.contains(t));
                let m = choose|m: int| 0 <= m < a.len() && a[m] == t;
                if m == 0 {
                    lemma_precedes_irreflexive(t);
                }
                assert(ta[m - 1] == t);
            }
        }
        assert(strictly_ascending(ta)) by {
            assert forall|x: int, y: int| 0 <= x < y < ta.len() implies text_precedes(
                ta[x],
                ta[y],
            ) by {
                assert(text_precedes(a[x + 1], a[y + 1]));
            }
        }
        assert(strictly_ascending(tb)) by {
            assert forall|x: int, y: int| 0 <= x < y < tb.len() implies text_precedes(
                tb[x],
                tb[y],
            ) by {
                assert(text_precedes(b[x + 1], b[y + 1]));
            }
        }
        lemma_strictly_ascending_unique(ta, tb);
        assert(a =~= seq![a[0]] + ta);
        assert(b =~= seq![b[0]] + tb);
    }
}

/// The position of the first member of `list` that does not come before `item`.
fn lower_bound(list: &Vec<String>, item: &str) -> (at: usize)
    requires
        strictly_ascending(list.deep_view()),
    ensures
        at <= list.len(),
        forall|k: int| 0 <= k < at ==> text_precedes(#[trigger] list@[k]@, item@),
        forall|k: int| at <= k < list.len() ==> !text_precedes(#[trigger] list@[k]@, item@),
{
    let mut low: usize = 0;
    let mut high: usize = list.len();
    while low < high
        invariant
            low <= high <= list.len(),
            strictly_ascending(list.deep_view()),
            forall|k: int| 0 <= k < low ==> text_precedes(#[trigger] list@[k]@, item@),
            forall|k: int| high <= k < list.len() ==> !text_precedes(#[trigger] list@[k]@, item@),
        decreases high - low,
    {
        let middle: usize = low + (high - low) / 2;
        if precedes(list[middle].as_str(), item) {
            assert forall|k: int| 0 <= k < middle + 1 implies text_precedes(
                #[trigger] list@[k]@,
                item@,
            ) by {
                if k < middle {
                    assert(text_precedes(list.deep_view()[k], list.deep_view()[middle as int]));
                    lemma_precedes_transitive(list@[k]@, list@[middle as int]@, item@);
                }
            }
            low = middle + 1;
        } else {
            assert forall|k: int| middle <= k < list.len() implies !text_precedes(
                #[trigger] list@[k]@,
                item@,
            ) by {
                if k > middle && text_precedes(list@[k]@, item@) {
                    assert(text_precedes(list.deep_view()[middle as int], list.deep_view()[k]));
                    lemma_precedes_transitive(list@[middle as int]@, list@[k]@, item@);
                }
            }
            high = middle;
        }
    }
    low
}

/// Puts `item` into the strictly ascending `list` at its place, unless the
/// list holds its text already.
pub fn insert_ascending(list: &mut Vec<String>, item: String)
    requires
        strictly_ascending(old(list).deep_view()),
    ensures
        strictly_ascending(final(list).deep_view()),
        forall|t: Seq<char>|
            final(list).deep_view().contains(t) <==> (old(list).deep_view().contains(t) || t == item@),
{
    let at = lower_bound(list, item.as_str());
    let ghost before = list.deep_view();
    if at < list.len() && same_text(list[at].as_str(), item.as_str()) {
        assert(before[at as int] == item@);
        return ;
    }
    list.insert(at, item);
    proof {
        let after = list.deep_view();
        assert(after =~= before.insert(at as int, item@));
        assert forall|i: int, j: int| 0 <= i < j < after.len() implies text_precedes(
            after[i],
            after[j],
        ) by {
            if j == at {
                assert(after[i] == before[i]);
            } else if i == at {
                assert(after[j] == before[j - 1]);
                lemma_precedes_total(before[j - 1], item@);
                if j - 1 > at {
                    assert(text_precedes(before[at as int], before[j - 1]));
                    lemma_precedes_total(before[at as int], item@);
                    if text_precedes(item@, before[at as int]) {
                        lemma_precedes_transitive(item@, before[at as int], before[j - 1]);
                    }
                }
            } else {
                let bi = if i < at { i } else { i - 1 };
                let bj = if j < at { j } else { j - 1 };
                assert(after[i] == before[bi]);
                assert(after[j] == before[bj]);
            }
        }
        assert forall|t: Seq<char>| after.contains(t) <==> (before.contains(t) || t == item@) by {
            if after.contains(t) {
                let k = choose|k: int| 0 <= k < after.len() && after[k] == t;
                if k < at {
                    assert(before[k] == t);
                } else if k > at {
                    assert(before[k - 1] == t);
                }
            }
            if before.contains(t) {
                let k = choose|k: int| 0 <= k < before.len() && before[k] == t;
                if k < at {
                    assert(after[k] == t);
                } else {
                    assert(after[k + 1] == t);
                }
            }
            if t == item@ {
                assert(after[at as int] == t);
            }
        }
    }
}

/// `order` lists every position of `keys` once, so that the keys ascend and
/// positions with equal keys keep their order.
pub open spec fn is_stable_order(keys: Seq<Moment>, order: Seq<usize>) -> bool {
    &&& order.len() == keys.len()
    &&& forall|i: int| 0 <= i < order.len() ==> (#[trigger] order[i]) < keys.len()
    &&& forall|i: int, j: int|
        0 <= i < j < order.len() ==> comes_first(keys, order[i] as int, order[j] as int)
    &&& forall|k: usize| k < keys.len() ==> order.contains(k)
}

/// Position `a` of `keys` goes before position `b` in the stable order: its
/// key is earlier, or the keys are equal and `a` is the lower position.
pub open spec fn comes_first(keys: Seq<Moment>, a: int, b: int) -> bool {
    keys[a].precedes(keys[b]) || (keys[a] == keys[b] && a < b)
}

/// `order` lists every position from `low` up to, but without, `high` once,
/// so that the keys ascend and positions with equal keys keep their order.
pub open spec fn orders_range(keys: Seq<Moment>, order: Seq<usize>, low: int, high: int) -> bool {
    &&& order.len() == high - low
    &&& forall|i: int| 0 <= i < order.len() ==> low <= (#[trigger] order[i]) < high
    &&& forall|i: int, j: int|
        0 <= i < j < order.len() ==> comes_first(keys, order[i] as int, order[j] as int)
    &&& forall|k: usize| low <= k < high ==> order.contains(k)
}

/// Merges the stable orders of two ranges of positions that lie side by
/// side into the stable order of both.
fn merge(
    keys: &Vec<Instant>,
    left: &Vec<usize>,
    right: &Vec<usize>,
    low: usize,
    middle: usize,
    high: usize,
) -> (order: Vec<usize>)
    requires
        low <= middle <= high <= keys.len(),
        orders_range(moments(keys@), left@, low as int, middle as int),
        orders_range(moments(keys@), right@, middle as int, high as int),
    ensures
        orders_range(moments(keys@), order@, low as int, high as int),
{
    let ghost times = moments(keys@);
    let mut order: Vec<usize> = Vec::new();
    let mut i: usize = 0;
    let mut j: usize = 0;
    while i < left.len() || j < right.len()
        invariant
            low <= middle <= high <= keys.len(),
            times == moments(keys@),
            orders_range(times, left@, low as int, middle as int),
            orders_range(times, right@, middle as int, high as int),
            i <= left.len(),
            j <= right.len(),
            order.len() == i + j,
            forall|a: int| 0 <= a < order.len() ==> low <= (#[trigger] order@[a]) < high,
            forall|a: int, b: int|
                0 <= a < b < order.len() ==> comes_first(
                    times,
                    order@[a] as int,
                    order@[b] as int,
                ),
            forall|a: int, b: int|
                0 <= a < order.len() && i <= b < left.len() ==> comes_first(
                    times,
                    order@[a] as int,
                    left@[b] as int,
                ),
            forall|a: int, b: int|
                0 <= a < order.len() && j <= b < right.len() ==> comes_first(
                    times,
                    order@[a] as int,
                    right@[b] as int,
                ),
            forall|b: int| 0 <= b < i ==> order@.contains(#[trigger] left@[b]),
            forall|b: int| 0 <= b < j ==> order@.contains(#[trigger] right@[b]),
        decreases left.len() - i + right.len() - j,
    {
        let ghost before = order@;
        let from_left = if j == right.len() {
            true
        } else if i == left.len() {
            false
        } else {
            !keys[right[j]].is_before(&keys[left[i]])
        };
        if from_left {
            let taken = left[i];
            proof {
                assert forall|b: int| i < b < left.len() implies comes_first(
                    times,
                    taken as int,
                    left@[b] as int,
                ) by {
                    assert(comes_first(times, left@[i as int] as int, left@[b] as int));
                }
                assert forall|b: int| j <= b < right.len() implies comes_first(
                    times,
                    taken as int,
                    right@[b] as int,
                ) by {
                    assert(taken < middle <= right@[b]);
                    if b > j {
                        assert(comes_first(times, right@[j as int] as int, right@[b] as int));
                    }
                }
            }
            order.push(taken);
            i += 1;
        } else {
            let taken = right[j];
            proof {
                assert forall|b: int| j < b < right.len() implies comes_first(
                    times,
                    taken as int,
                    right@[b] as int,
                ) by {
                    assert(comes_first(times, right@[j as int] as int, right@[b] as int));
                }
                assert forall|b: int| i <= b < left.len() implies comes_first(
                    times,
                    taken as int,
                    left@[b] as int,
                ) by {
                    if b > i {
                        assert(comes_first(times, left@[i as int] as int, left@[b] as int));
                    }
                }
            }
            order.push(taken);
            j += 1;
        }
        proof {
            let last = order@.len() - 1;
            assert forall|a: int| 0 <= a < last implies order@[a] == before[a] by {}
            assert forall|b: int| 0 <= b < i implies order@.contains(#[trigger] left@[b]) by {
                if from_left && b == i - 1 {
                    assert(order@[last] == left@[b]);
                } else {
                    let at = choose|at: int| 0 <= at < before.len() && before[at] == left@[b];
                    assert(order@[at] == left@[b]);
                }
            }
            assert forall|b: int| 0 <= b < j implies order@.contains(#[trigger] right@[b]) by {
                if !from_left && b == j - 1 {
                    assert(order@[last] == right@[b]);
                } else {
                    let at = choose|at: int| 0 <= at < before.len() && before[at] == right@[b];
                    assert(order@[at] == right@[b]);
                }
            }
        }
    }
    proof {
        assert forall|k: usize| low <= k < high implies order@.contains(k) by {
            if k < middle {
                assert(left@.contains(k));
                let b = choose|b: int| 0 <= b < left@.len() && left@[b] == k;
                assert(order@.contains(left@[b]));
            } else {
                assert(right@.contains(k));
                let b = choose|b: int| 0 <= b < right@.len() && right@[b] == k;
                assert(order@.contains(right@[b]));
            }
        }
    }
    order
}

/// The positions from `low` up to, but without, `high` in stable order.
fn order_range(keys: &Vec<Instant>, low: usize, high: usize) -> (order: Vec<usize>)
    requires
        low <= high <= keys.len(),
    ensures
        orders_range(moments(keys@), order@, low as int, high as int),
    decreases high - low,
{
    let mut order: Vec<usize> = Vec::new();
    if high - low == 0 {
        return order;
    }
    if high - low == 1 {
        order.push(low);
        assert(order@[0] == low);
        return order;
    }
    let middle: usize = low + (high - low) / 2;
    let left = order_range(keys, low, middle);
    let right = order_range(keys, middle, high);
    merge(keys, &left, &right, low, middle, high)
}

/// The positions of `keys` in ascending order of key; positions with equal
/// keys stay in the order they have in `keys`.
pub fn stable_order(keys: &Vec<Instant>) -> (order: Vec<usize>)
    ensures
        is_stable_order(moments(keys@), order@),
{
    order_range(keys, 0, keys.len())
}

/// `order` lists every position of `numbers` once, so that the numbers
/// ascend and positions with equal numbers keep their order.
pub open spec fn is_ascending_order(numbers: Seq<u32>, order: Seq<usize>) -> bool {
    &&& order.len() == numbers.len()
    &&& forall|i: int| 0 <= i < order.len() ==> (#[trigger] order[i]) < numbers.len()
    &&& forall|i: int, j: int|
        0 <= i < j < order.len() ==> numbers[order[i] as int] < numbers[order[j] as int] || (
        numbers[order[i] as int] == numbers[order[j] as int] && order[i] < order[j])
    &&& forall|k: usize| k < numbers.len() ==> order.contains(k)
}

/// The positions of `numbers` in ascending order of number; positions with
/// equal numbers stay in the order they have in `numbers`.
pub fn order_of_numbers(numbers: &Vec<u32>) -> (order: Vec<usize>)
    ensures
        is_ascending_order(numbers@, order@),
{
    let mut keys: Vec<Instant> = Vec::new();
    let mut i: usize = 0;
    while i < numbers.len()
        invariant
            i <= numbers.len(),
            keys.len() == i,
            forall|k: int|
                0 <= k < i ==> (#[trigger] keys@[k]) == (Instant {
                    seconds: numbers@[k] as i64,
                    nanosecond: 0,
                }),
        decreases numbers.len() - i,
    {
        keys.push(Instant { seconds: numbers[i] as i64, nanosecond: 0 });
        i += 1;
    }
    let order = stable_order(&keys);
    proof {
        assert forall|a: int, b: int| 0 <= a < b < order.len() implies numbers@[order@[a] as int]
            < numbers@[order@[b] as int] || (numbers@[order@[a] as int] == numbers@[order@[b] as int]
            && order@[a] < order@[b]) by {
            assert(comes_first(moments(keys@), order@[a] as int, order@[b] as int));
        }
    }
    order
}

/// The stable order of a list of keys is unique.
pub proof fn lemma_stable_order_unique(keys: Seq<Moment>, a: Seq<usize>, b: Seq<usize>)
    requires
        is_stable_order(keys, a),
        is_stable_order(keys, b),
    ensures
        a == b,
{
    assert forall|i: int| 0 <= i < a.len() implies a[i] == b[i] by {
        lemma_same_prefix(keys, a, b, i);
    }
    assert(a =~= b);
}

/// Two stable orders of the same keys agree up to and at position `upto`.
proof fn lemma_same_prefix(keys: Seq<Moment>, a: Seq<usize>, b: Seq<usize>, upto: int)
    requires
        is_stable_order(keys, a),
        is_stable_order(keys, b),
        0 <= upto < a.len(),
    ensures
        a[upto] == b[upto],
    decreases upto,
{
    assert forall|i: int| 0 <= i < upto implies a[i] == b[i] by {
        lemma_same_prefix(keys, a, b, i);
    }
    // Where `a[upto]` stands in `b`, and `b[upto]` in `a`: neither can stand
    // before `upto`, since there the orders agree and hold nothing twice.
    assert(b.contains(a[upto]));
    assert(a.contains(b[upto]));
    let i = choose|i: int| 0 <= i < b.len() && b[i] == a[upto];
    let j = choose|j: int| 0 <= j < a.len() && a[j] == b[upto];
    if i < upto {
        assert(comes_first(keys, a[i] as int, a[upto] as int));
    }
    if j < upto {
        assert(comes_first(keys, b[j] as int, b[upto] as int));
    }
    if i > upto && j > upto {
        assert(comes_first(keys, b[upto] as int, b[i] as int));
        assert(comes_first(keys, a[upto] as int, a[j] as int));
    }
}

} // verus!
