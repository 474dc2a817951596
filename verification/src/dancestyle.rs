//! The styles of dance an event can offer.

use vstd::prelude::*;

verus! {

/// The number of dance styles.
pub const STYLE_COUNT: usize = 7;

/// A style of dance, in the order in which styles are listed.
#[derive(Clone, Copy, Debug, PartialEq, Eq, Structural, Hash, PartialOrd, Ord)]
pub enum DanceStyle {
    Balfolk,
    Contra,
    EnglishCeilidh,
    Playford,
    Reeling,
    ScottishCeilidh,
    ScottishCountryDance,
}

impl DanceStyle {
    /// The position of the style in the declared order.
    pub open spec fn rank(self) -> int {
        match self {
            DanceStyle::Balfolk => 0,
            DanceStyle::Contra => 1,
            DanceStyle::EnglishCeilidh => 2,
            DanceStyle::Playford => 3,
            DanceStyle::Reeling => 4,
            DanceStyle::ScottishCeilidh => 5,
            DanceStyle::ScottishCountryDance => 6,
        }
    }

    /// The name of the style as people write it.
    pub open spec fn name_text(self) -> Seq<char> {
        match self {
            DanceStyle::Balfolk => "Balfolk"@,
            DanceStyle::Contra => "Contra"@,
            DanceStyle::EnglishCeilidh => "English Ceilidh"@,
            DanceStyle::Playford => "Playford"@,
            DanceStyle::Reeling => "Reeling"@,
            DanceStyle::ScottishCeilidh => "Scottish Ceilidh"@,
            DanceStyle::ScottishCountryDance => "Scottish Country Dance"@,
        }
    }

    /// The name of the style as people write it.
    pub fn name(self) -> (name: &'static str)
        ensures
            name@ == self.name_text(),
    {
        match self {
            DanceStyle::Balfolk => "Balfolk",
            DanceStyle::Contra => "Contra",
            DanceStyle::EnglishCeilidh => "English Ceilidh",
            DanceStyle::Playford => "Playford",
            DanceStyle::Reeling => "Reeling",
            DanceStyle::ScottishCeilidh => "Scottish Ceilidh",
            DanceStyle::ScottishCountryDance => "Scottish Country Dance",
        }
    }

    /// The position of the style in the declared order.
    pub fn index(self) -> (r: usize)
        ensures
            r == self.rank(),
    {
        match self {
            DanceStyle::Balfolk => 0,
            DanceStyle::Contra => 1,
            DanceStyle::EnglishCeilidh => 2,
            DanceStyle::Playford => 3,
            DanceStyle::Reeling => 4,
            DanceStyle::ScottishCeilidh => 5,
            DanceStyle::ScottishCountryDance => 6,
        }
    }

    /// Every style has a position among the styles.
    pub proof fn lemma_rank_in_range(self)
        ensures
            0 <= self.rank() < STYLE_COUNT,
    {
    }

    /// Styles at the same position are the same style.
    pub proof fn lemma_rank_determines(self, other: DanceStyle)
        requires
            self.rank() == other.rank(),
        ensures
            self == other,
    {
    }
}

/// Every style, in the declared order.
pub fn every_style() -> (styles: Vec<DanceStyle>)
    ensures
        styles.len() == STYLE_COUNT,
        forall|i: int| 0 <= i < styles.len() ==> (#[trigger] styles@[i]).rank() == i,
{
    let mut styles: Vec<DanceStyle> = Vec::new();
    styles.push(DanceStyle::Balfolk);
    styles.push(DanceStyle::Contra);
    styles.push(DanceStyle::EnglishCeilidh);
    styles.push(DanceStyle::Playford);
    styles.push(DanceStyle::Reeling);
    styles.push(DanceStyle::ScottishCeilidh);
    styles.push(DanceStyle::ScottishCountryDance);
    styles
}

/// `list` holds each of `members` once, in the declared order of the styles.
pub open spec fn lists_styles(list: Seq<DanceStyle>, members: Set<DanceStyle>) -> bool {
    &&& forall|i: int, j: int| 0 <= i < j < list.len() ==> list[i].rank() < list[j].rank()
    &&& forall|style: DanceStyle| list.contains(style) <==> members.contains(style)
}

/// Whether `style` is among `styles`.
pub fn has_style(styles: &Vec<DanceStyle>, style: DanceStyle) -> (found: bool)
    ensures
        found == styles@.contains(style),
{
    let mut i: usize = 0;
    while i < styles.len()
        invariant
            i <= styles.len(),
            forall|k: int| 0 <= k < i ==> styles@[k] != style,
        decreases styles.len() - i,
    {
        if styles[i] == style {
            return true;
        }
        i += 1;
    }
    false
}

/// The styles that occur in `styles`, each once, in their declared order.
pub fn distinct_styles(styles: &Vec<DanceStyle>) -> (distinct: Vec<DanceStyle>)
    ensures
        lists_styles(distinct@, styles@.to_set()),
{
    let every = every_style();
    let mut distinct: Vec<DanceStyle> = Vec::new();
    let mut k: usize = 0;
    while k < every.len()
        invariant
            k <= every.len(),
            every.len() == STYLE_COUNT,
            forall|i: int| 0 <= i < every.len() ==> (#[trigger] every@[i]).rank() == i,
            forall|i: int| 0 <= i < distinct.len() ==> (#[trigger] distinct@[i]).rank() < k,
            forall|i: int, j: int|
                0 <= i < j < distinct.len() ==> distinct@[i].rank() < distinct@[j].rank(),
            forall|style: DanceStyle|
                distinct@.contains(style) <==> (style.rank() < k && styles@.contains(style)),
        decreases every.len() - k,
    {
        let style = every[k];
        let found = has_style(styles, style);
        let ghost before = distinct@;
        if found {
            distinct.push(style);
        }
        proof {
            assert forall|other: DanceStyle|
                distinct@.contains(other) <==> (other.rank() < k + 1 && styles@.contains(
                    other,
                )) by {
                if before.contains(other) {
                    let at = choose|at: int| 0 <= at < before.len() && before[at] == other;
                    assert(distinct@[at] == other);
                }
                if distinct@.contains(other) {
                    let at = choose|at: int| 0 <= at < distinct@.len() && distinct@[at] == other;
                    if at < before.len() {
                        assert(before[at] == other);
                    }
                }
                other.lemma_rank_in_range();
                if other.rank() == k {
                    other.lemma_rank_determines(style);
                    if found {
                        assert(distinct@[distinct@.len() - 1] == other);
                    }
                }
            }
        }
        k += 1;
    }
    proof {
        assert forall|style: DanceStyle|
            distinct@.contains(style) <==> styles@.to_set().contains(style) by {
            style.lemma_rank_in_range();
        }
    }
    distinct
}

} // verus!
