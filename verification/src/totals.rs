//! Totals over some of the names counted: what the sections say of a
//! chosen list of names, added up, and why that never exceeds the total
//! over all names.

use vstd::prelude::*;
use crate::ballot::PickView;
use crate::tally::{
    female_for, first_for, male_for, occurrences, sum_over, total_female_of, total_first_of,
    total_male_of, total_votes_of, votes_for, Counted,
};
use crate::text::distinct;

verus! {

/// The totals that a ranking reports.
pub ghost enum Total {
    Votes,
    First,
    Male,
    Female,
}

/// The statistic of the name `n` that goes into a total.
pub open spec fn stat_for(h: Seq<Counted>, n: Seq<char>, which: Total) -> nat {
    match which {
        Total::Votes => votes_for(h, n),
        Total::First => first_for(h, n),
        Total::Male => male_for(h, n),
        Total::Female => female_for(h, n),
    }
}

/// A total over all counted sections.
pub open spec fn total_for(h: Seq<Counted>, which: Total) -> nat {
    match which {
        Total::Votes => total_votes_of(h),
        Total::First => total_first_of(h),
        Total::Male => total_male_of(h),
        Total::Female => total_female_of(h),
    }
}

/// A total over the given names alone.
pub open spec fn sum_for(names: Seq<Seq<char>>, h: Seq<Counted>, which: Total) -> nat
    decreases names.len(),
{
    if names.len() == 0 {
        0
    } else {
        sum_for(names.drop_last(), h, which) + stat_for(h, names.last(), which)
    }
}

/// What one section adds to a statistic of the name `n`.
spec fn part(b: Counted, n: Seq<char>, which: Total) -> nat {
    match which {
        Total::Votes => occurrences(b.picks, n),
        Total::First => if b.first == Some(n) { 1nat } else { 0nat },
        Total::Male => if b.male { occurrences(b.picks, n) } else { 0nat },
        Total::Female => if !b.male { occurrences(b.picks, n) } else { 0nat },
    }
}

/// What one section adds to a total.
spec fn whole(b: Counted, which: Total) -> nat {
    match which {
        Total::Votes => b.picks.len(),
        Total::First => if b.first.is_some() { 1nat } else { 0nat },
        Total::Male => if b.male { b.picks.len() } else { 0nat },
        Total::Female => if !b.male { b.picks.len() } else { 0nat },
    }
}

/// What one section adds to the statistics of the given names together.
spec fn parts_sum(names: Seq<Seq<char>>, b: Counted, which: Total) -> nat
    decreases names.len(),
{
    if names.len() == 0 {
        0
    } else {
        parts_sum(names.drop_last(), b, which) + part(b, names.last(), which)
    }
}

/// How many of the names are `x`.
spec fn matches(names: Seq<Seq<char>>, x: Seq<char>) -> nat
    decreases names.len(),
{
    if names.len() == 0 {
        0
    } else {
        matches(names.drop_last(), x) + (if names.last() == x { 1nat } else { 0nat })
    }
}

proof fn lemma_sum_push(h: Seq<Counted>, x: Counted, f: spec_fn(Counted) -> nat)
    ensures
        sum_over(h.push(x), f) == sum_over(h, f) + f(x),
{
    assert(h.push(x).drop_last() =~= h);
}

proof fn lemma_stat_push(h: Seq<Counted>, b: Counted, n: Seq<char>, which: Total)
    ensures
        stat_for(h.push(b), n, which) == stat_for(h, n, which) + part(b, n, which),
        total_for(h.push(b), which) == total_for(h, which) + whole(b, which),
{
    lemma_sum_push(h, b, |c: Counted| occurrences(c.picks, n));
    lemma_sum_push(h, b, |c: Counted| if c.first == Some(n) { 1nat } else { 0nat });
    lemma_sum_push(h, b, |c: Counted| if c.male { occurrences(c.picks, n) } else { 0nat });
    lemma_sum_push(h, b, |c: Counted| if !c.male { occurrences(c.picks, n) } else { 0nat });
    lemma_sum_push(h, b, |c: Counted| c.picks.len());
    lemma_sum_push(h, b, |c: Counted| if c.first.is_some() { 1nat } else { 0nat });
    lemma_sum_push(h, b, |c: Counted| if c.male { c.picks.len() } else { 0nat });
    lemma_sum_push(h, b, |c: Counted| if !c.male { c.picks.len() } else { 0nat });
}

proof fn lemma_sum_for_push(names: Seq<Seq<char>>, h: Seq<Counted>, b: Counted, which: Total)
    ensures
        sum_for(names, h.push(b), which) == sum_for(names, h, which) + parts_sum(names, b, which),
    decreases names.len(),
{
    if names.len() > 0 {
        lemma_sum_for_push(names.drop_last(), h, b, which);
        lemma_stat_push(h, b, names.last(), which);
    }
}

proof fn lemma_matches_once(names: Seq<Seq<char>>, x: Seq<char>)
    requires
        distinct(names),
    ensures
        matches(names, x) <= 1,
        matches(names, x) == 1 ==> names.contains(x),
        !names.contains(x) ==> matches(names, x) == 0,
    decreases names.len(),
{
    if names.len() > 0 {
        let init = names.drop_last();
        assert(distinct(init)) by {
            assert forall|i: int, j: int| 0 <= i < j < init.len() implies init[i] != init[j] by {
                assert(init[i] == names[i] && init[j] == names[j]);
            }
        }
        lemma_matches_once(init, x);
        if names.last() == x {
            if init.contains(x) {
                let k = choose|k: int| 0 <= k < init.len() && init[k] == x;
                assert(names[k] == x && names[names.len() - 1] == x);
            }
        }
        if matches(names, x) == 1 {
            if names.last() == x {
                assert(names[names.len() - 1] == x);
            } else {
                let k = choose|k: int| 0 <= k < init.len() && init[k] == x;
                assert(names[k] == x);
            }
        }
        if !names.contains(x) {
            if init.contains(x) {
                let k = choose|k: int| 0 <= k < init.len() && init[k] == x;
                assert(names[k] == x);
            }
            if names.last() == x {
                assert(names[names.len() - 1] == x);
            }
        }
    }
}

/// Occurrences in `picks` of the given names together.
spec fn occurrences_sum(names: Seq<Seq<char>>, picks: Seq<PickView>) -> nat
    decreases names.len(),
{
    if names.len() == 0 {
        0
    } else {
        occurrences_sum(names.drop_last(), picks) + occurrences(picks, names.last())
    }
}

proof fn lemma_occurrences_sum_step(names: Seq<Seq<char>>, picks: Seq<PickView>)
    requires
        picks.len() > 0,
    ensures
        occurrences_sum(names, picks) == occurrences_sum(names, picks.drop_last()) + matches(names, picks.last().name),
    decreases names.len(),
{
    if names.len() > 0 {
        lemma_occurrences_sum_step(names.drop_last(), picks);
    }
}

proof fn lemma_occurrences_sum_bound(names: Seq<Seq<char>>, picks: Seq<PickView>)
    requires
        distinct(names),
    ensures
        occurrences_sum(names, picks) <= picks.len(),
    decreases picks.len(),
{
    if picks.len() == 0 {
        lemma_occurrences_sum_empty(names, picks);
    } else {
        lemma_occurrences_sum_step(names, picks);
        lemma_occurrences_sum_bound(names, picks.drop_last());
        lemma_matches_once(names, picks.last().name);
    }
}

proof fn lemma_occurrences_sum_empty(names: Seq<Seq<char>>, picks: Seq<PickView>)
    requires
        picks.len() == 0,
    ensures
        occurrences_sum(names, picks) == 0,
    decreases names.len(),
{
    if names.len() > 0 {
        lemma_occurrences_sum_empty(names.drop_last(), picks);
    }
}

proof fn lemma_parts_as_sums(names: Seq<Seq<char>>, b: Counted, which: Total)
    ensures
        parts_sum(names, b, which) == (match which {
            Total::Votes => occurrences_sum(names, b.picks),
            Total::First => if b.first.is_some() { matches(names, b.first.unwrap()) } else { 0nat },
            Total::Male => if b.male { occurrences_sum(names, b.picks) } else { 0nat },
            Total::Female => if !b.male { occurrences_sum(names, b.picks) } else { 0nat },
        }),
    decreases names.len(),
{
    if names.len() > 0 {
        lemma_parts_as_sums(names.drop_last(), b, which);
    }
}

/// Names that differ share no vote: one section adds no more to their
/// statistics together than it adds to the total.
proof fn lemma_parts_bound(names: Seq<Seq<char>>, b: Counted, which: Total)
    requires
        distinct(names),
    ensures
        parts_sum(names, b, which) <= whole(b, which),
{
    lemma_parts_as_sums(names, b, which);
    lemma_occurrences_sum_bound(names, b.picks);
    if b.first.is_some() {
        lemma_matches_once(names, b.first.unwrap());
    }
}

/// A total over names that differ never exceeds the total over all counted
/// sections.
pub proof fn lemma_sum_for_bound(names: Seq<Seq<char>>, h: Seq<Counted>, which: Total)
    requires
        distinct(names),
    ensures
        sum_for(names, h, which) <= total_for(h, which),
    decreases h.len(),
{
    if h.len() == 0 {
        lemma_sum_for_empty(names, h, which);
    } else {
        let g = h.drop_last();
        let b = h.last();
        assert(h =~= g.push(b));
        lemma_sum_for_bound(names, g, which);
        lemma_sum_for_push(names, g, b, which);
        lemma_stat_push(g, b, Seq::empty(), which);
        lemma_parts_bound(names, b, which);
    }
}

proof fn lemma_sum_for_empty(names: Seq<Seq<char>>, h: Seq<Counted>, which: Total)
    requires
        h.len() == 0,
    ensures
        sum_for(names, h, which) == 0,
    decreases names.len(),
{
    if names.len() > 0 {
        lemma_sum_for_empty(names.drop_last(), h, which);
    }
}

/// A total over the first of the names is no more than the total over all
/// of them.
pub proof fn lemma_sum_for_grows(names: Seq<Seq<char>>, h: Seq<Counted>, which: Total, k: int)
    requires
        0 <= k <= names.len(),
    ensures
        sum_for(names.take(k), h, which) <= sum_for(names, h, which),
    decreases names.len(),
{
    if k == names.len() {
        assert(names.take(k) =~= names);
    } else {
        assert(names.drop_last().take(k) =~= names.take(k));
        lemma_sum_for_grows(names.drop_last(), h, which, k);
    }
}

} // verus!
