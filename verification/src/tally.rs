//! The vote aggregator: one pass over the ballots, accumulating per-item and
//! global counters. What each counter means is defined here over the
//! sequence of counted sections.

use vstd::hash_map::StringHashMap;
use vstd::prelude::*;
use crate::ballot::{
    Ballot, CPItem, hour_bucket, hour_of, ItemVotes, PairVotes, Pick, picks_view, PickView,
    Section, TAG_COUNT, TREND_WINDOW_HOURS, UNTAGGED,
};
use crate::pairing::{active_tag, identity, pair_key, pair_pick};
use crate::text::{distinct, opt_text, texts};

verus! {

/// One section that was counted: its picks, its first-choice pick, the
/// hourly bucket of its submission (`no_hour()` for a section that bears no
/// time) and the voter's demographic class.
pub ghost struct Counted {
    pub picks: Seq<PickView>,
    pub first: Option<Seq<char>>,
    pub hour: int,
    pub male: bool,
}

/// The hour of a section that bears no time: it falls into no bucket.
pub open spec fn no_hour() -> int {
    -1
}

/// The hourly bucket as the counted sections hold it.
pub open spec fn hour_view(hour: Option<usize>) -> int {
    match hour {
        Some(x) => x as int,
        None => no_hour(),
    }
}

/// The hourly bucket of a section submitted at `created_at`: none where
/// the time lies outside the window; `no_hour()` where the section bears no
/// time.
pub open spec fn section_hour(start: i64, created_at: Option<i64>) -> Option<int> {
    match created_at {
        Some(at) => hour_of(start, at),
        None => Some(no_hour()),
    }
}

impl Counted {
    /// The same section with only its first `j` picks.
    pub open spec fn upto(self, j: int) -> Counted {
        Counted { picks: self.picks.take(j), first: self.first, hour: self.hour, male: self.male }
    }
}

/// How often `n` is picked in `picks`.
pub open spec fn occurrences(picks: Seq<PickView>, n: Seq<char>) -> nat
    decreases picks.len(),
{
    if picks.len() == 0 {
        0
    } else {
        occurrences(picks.drop_last(), n) + (if picks.last().name == n { 1nat } else { 0nat })
    }
}

/// How often `n` is picked in `picks` with a pick of class `tag`.
pub open spec fn tagged(picks: Seq<PickView>, n: Seq<char>, tag: int) -> nat
    decreases picks.len(),
{
    if picks.len() == 0 {
        0
    } else {
        tagged(picks.drop_last(), n, tag) + (if picks.last().name == n
            && picks.last().tag == tag { 1nat } else { 0nat })
    }
}

/// The reasons given for `n` in `picks`, in order.
pub open spec fn reasons_in(picks: Seq<PickView>, n: Seq<char>) -> Seq<Seq<char>>
    decreases picks.len(),
{
    if picks.len() == 0 {
        Seq::empty()
    } else {
        let rest = reasons_in(picks.drop_last(), n);
        let p = picks.last();
        if p.name == n && p.reason.is_some() {
            rest.push(p.reason.unwrap())
        } else {
            rest
        }
    }
}

/// The sum of `f` over the counted sections.
pub open spec fn sum_over(h: Seq<Counted>, f: spec_fn(Counted) -> nat) -> nat
    decreases h.len(),
{
    if h.len() == 0 {
        0
    } else {
        sum_over(h.drop_last(), f) + f(h.last())
    }
}

/// Votes for `n`: one for each time it is picked.
pub open spec fn votes_for(h: Seq<Counted>, n: Seq<char>) -> nat {
    sum_over(h, |b: Counted| occurrences(b.picks, n))
}

/// First-choice votes for `n`: one for each section that names it first.
pub open spec fn first_for(h: Seq<Counted>, n: Seq<char>) -> nat {
    sum_over(h, |b: Counted| if b.first == Some(n) { 1nat } else { 0nat })
}

/// Votes for `n` cast by male voters.
pub open spec fn male_for(h: Seq<Counted>, n: Seq<char>) -> nat {
    sum_over(h, |b: Counted| if b.male { occurrences(b.picks, n) } else { 0nat })
}

/// Votes for `n` cast by the other voters.
pub open spec fn female_for(h: Seq<Counted>, n: Seq<char>) -> nat {
    sum_over(h, |b: Counted| if !b.male { occurrences(b.picks, n) } else { 0nat })
}

/// Votes for `n` submitted in the hourly bucket `hr`.
pub open spec fn bin_for(h: Seq<Counted>, n: Seq<char>, hr: int) -> nat {
    sum_over(h, |b: Counted| if b.hour == hr { occurrences(b.picks, n) } else { 0nat })
}

/// Votes for `n` of class `tag`.
pub open spec fn tag_for(h: Seq<Counted>, n: Seq<char>, tag: int) -> nat {
    sum_over(h, |b: Counted| tagged(b.picks, n, tag))
}

/// Supporters of `n`: the counted sections that pick it, each once however
/// often it picks it.
pub open spec fn supporters_for(h: Seq<Counted>, n: Seq<char>) -> nat {
    sum_over(h, |b: Counted| if occurrences(b.picks, n) >= 1 { 1nat } else { 0nat })
}

/// The number, counted from one, of the last section that picks `n`; zero
/// if none does.
pub open spec fn last_support(h: Seq<Counted>, n: Seq<char>) -> nat
    decreases h.len(),
{
    if h.len() == 0 {
        0
    } else if occurrences(h.last().picks, n) >= 1 {
        h.len()
    } else {
        last_support(h.drop_last(), n)
    }
}

/// First-choice votes for `n` submitted in the hourly bucket `hr`.
pub open spec fn bin_first_for(h: Seq<Counted>, n: Seq<char>, hr: int) -> nat {
    sum_over(h, |b: Counted| if b.first == Some(n) && b.hour == hr { 1nat } else { 0nat })
}

/// All votes: one for each pick of each counted section.
pub open spec fn total_votes_of(h: Seq<Counted>) -> nat {
    sum_over(h, |b: Counted| b.picks.len())
}

/// All first-choice votes: one for each section that names a first choice.
pub open spec fn total_first_of(h: Seq<Counted>) -> nat {
    sum_over(h, |b: Counted| if b.first.is_some() { 1nat } else { 0nat })
}

/// All votes cast by male voters.
pub open spec fn total_male_of(h: Seq<Counted>) -> nat {
    sum_over(h, |b: Counted| if b.male { b.picks.len() } else { 0nat })
}

/// All votes cast by the other voters.
pub open spec fn total_female_of(h: Seq<Counted>) -> nat {
    sum_over(h, |b: Counted| if !b.male { b.picks.len() } else { 0nat })
}

/// The reasons given for `n`, in the order in which they were counted.
pub open spec fn reasons_for(h: Seq<Counted>, n: Seq<char>) -> Seq<Seq<char>>
    decreases h.len(),
{
    if h.len() == 0 {
        Seq::empty()
    } else {
        reasons_for(h.drop_last(), n) + reasons_in(h.last().picks, n)
    }
}

/// `seen` with `n` added at the end unless it is there already.
pub open spec fn note(seen: Seq<Seq<char>>, n: Seq<char>) -> Seq<Seq<char>> {
    if seen.contains(n) {
        seen
    } else {
        seen.push(n)
    }
}

/// `seen` after each of the picks was noted, in order.
pub open spec fn note_picks(seen: Seq<Seq<char>>, picks: Seq<PickView>) -> Seq<Seq<char>>
    decreases picks.len(),
{
    if picks.len() == 0 {
        seen
    } else {
        note(note_picks(seen, picks.drop_last()), picks.last().name)
    }
}

/// `seen` after the first-choice pick, if there is one, was noted.
pub open spec fn note_first(seen: Seq<Seq<char>>, first: Option<Seq<char>>) -> Seq<Seq<char>> {
    match first {
        Some(f) => note(seen, f),
        None => seen,
    }
}

/// The names mentioned so far, each once, in the order of first mention: in
/// each section the first-choice pick comes before the picks.
pub open spec fn seen_names(h: Seq<Counted>) -> Seq<Seq<char>>
    decreases h.len(),
{
    if h.len() == 0 {
        Seq::empty()
    } else {
        note_picks(note_first(seen_names(h.drop_last()), h.last().first), h.last().picks)
    }
}

/// Every counted section holds at least one pick.
pub open spec fn all_nonempty(h: Seq<Counted>) -> bool {
    forall|k: int| 0 <= k < h.len() ==> (#[trigger] h[k]).picks.len() >= 1
}

proof fn lemma_sum_push(h: Seq<Counted>, x: Counted, f: spec_fn(Counted) -> nat)
    ensures
        sum_over(h.push(x), f) == sum_over(h, f) + f(x),
{
    assert(h.push(x).drop_last() =~= h);
}

proof fn lemma_sum_le(h: Seq<Counted>, f: spec_fn(Counted) -> nat, g: spec_fn(Counted) -> nat)
    requires
        forall|k: int| 0 <= k < h.len() ==> f(#[trigger] h[k]) <= g(h[k]),
    ensures
        sum_over(h, f) <= sum_over(h, g),
    decreases h.len(),
{
    if h.len() > 0 {
        assert forall|k: int| 0 <= k < h.drop_last().len() implies
            f(#[trigger] h.drop_last()[k]) <= g(h.drop_last()[k]) by {
            assert(h.drop_last()[k] == h[k]);
        }
        lemma_sum_le(h.drop_last(), f, g);
        assert(h.last() == h[h.len() - 1]);
    }
}

proof fn lemma_occurrences_step(picks: Seq<PickView>, j: int, n: Seq<char>)
    requires
        0 <= j < picks.len(),
    ensures
        occurrences(picks.take(j + 1), n) == occurrences(picks.take(j), n) + (if picks[j].name
            == n { 1nat } else { 0nat }),
        reasons_in(picks.take(j + 1), n) == (if picks[j].name == n && picks[j].reason.is_some() {
            reasons_in(picks.take(j), n).push(picks[j].reason.unwrap())
        } else {
            reasons_in(picks.take(j), n)
        }),
        forall|seen: Seq<Seq<char>>| #[trigger] note_picks(seen, picks.take(j + 1))
            == note(note_picks(seen, picks.take(j)), picks[j].name),
        forall|tag: int| #[trigger] tagged(picks.take(j + 1), n, tag)
            == tagged(picks.take(j), n, tag) + (if picks[j].name == n
            && picks[j].tag == tag { 1nat } else { 0nat }),
{
    assert(picks.take(j + 1).drop_last() =~= picks.take(j));
    assert(picks.take(j + 1).last() == picks[j]);
}

proof fn lemma_occurrences_bounds(picks: Seq<PickView>, n: Seq<char>)
    ensures
        occurrences(picks, n) <= picks.len(),
    decreases picks.len(),
{
    if picks.len() > 0 {
        lemma_occurrences_bounds(picks.drop_last(), n);
    }
}

proof fn lemma_tagged_bounds(picks: Seq<PickView>, n: Seq<char>, tag: int)
    ensures
        tagged(picks, n, tag) <= occurrences(picks, n),
    decreases picks.len(),
{
    if picks.len() > 0 {
        lemma_tagged_bounds(picks.drop_last(), n, tag);
    }
}

/// No class of votes for a name has more votes than the name.
pub proof fn lemma_tag_bounds(h: Seq<Counted>, n: Seq<char>, tag: int)
    ensures
        tag_for(h, n, tag) <= votes_for(h, n),
{
    assert forall|k: int| 0 <= k < h.len() implies
        tagged((#[trigger] h[k]).picks, n, tag) <= occurrences(h[k].picks, n) by {
        lemma_tagged_bounds(h[k].picks, n, tag);
    }
    lemma_sum_le(h, |b: Counted| tagged(b.picks, n, tag), |b: Counted| occurrences(b.picks, n));
}

/// A name has no more supporters than votes and than sections; a name
/// without votes has no supporter.
pub proof fn lemma_support_bounds(h: Seq<Counted>, n: Seq<char>)
    ensures
        supporters_for(h, n) <= votes_for(h, n),
        supporters_for(h, n) <= h.len(),
        last_support(h, n) <= h.len(),
        votes_for(h, n) == 0 ==> last_support(h, n) == 0,
        supporters_for(h, n) >= 1 <==> votes_for(h, n) >= 1,
    decreases h.len(),
{
    lemma_sum_le(
        h,
        |b: Counted| if occurrences(b.picks, n) >= 1 { 1nat } else { 0nat },
        |b: Counted| occurrences(b.picks, n),
    );
    if h.len() > 0 {
        lemma_support_bounds(h.drop_last(), n);
    }
}

/// A history of sections that all hold a pick is no longer than its votes.
proof fn lemma_sections_bound(h: Seq<Counted>)
    requires
        all_nonempty(h),
    ensures
        h.len() <= total_votes_of(h),
    decreases h.len(),
{
    if h.len() > 0 {
        assert forall|k: int| 0 <= k < h.drop_last().len() implies (#[trigger] h.drop_last()[k]).picks.len() >= 1 by {
            assert(h.drop_last()[k] == h[k]);
        }
        lemma_sections_bound(h.drop_last());
        assert(h.last() == h[h.len() - 1]);
    }
}

/// Counting the first-choice pick of a section adds no supporter.
proof fn lemma_support_first_step(h: Seq<Counted>, b: Counted, n: Seq<char>)
    ensures
        supporters_for(h.push(b.upto(0)), n) == supporters_for(h, n),
        last_support(h.push(b.upto(0)), n) == last_support(h, n),
{
    let x = b.upto(0);
    assert(x.picks =~= Seq::empty());
    lemma_sum_push(h, x, |c: Counted| if occurrences(c.picks, n) >= 1 { 1nat } else { 0nat });
    assert(h.push(x).drop_last() =~= h);
}

/// Counting pick `j` of a section adds a supporter to the name picked,
/// unless the section has picked it before.
proof fn lemma_support_pick_step(h: Seq<Counted>, b: Counted, j: int, n: Seq<char>)
    requires
        0 <= j < b.picks.len(),
    ensures
        ({
            let before = h.push(b.upto(j));
            let after = h.push(b.upto(j + 1));
            let hit = b.picks[j].name == n;
            let known = last_support(before, n) == h.len() + 1;
            &&& known <==> occurrences(b.picks.take(j), n) >= 1
            &&& supporters_for(after, n) == supporters_for(before, n) + (if hit && !known { 1nat } else { 0nat })
            &&& last_support(after, n) == (if hit { h.len() + 1 } else { last_support(before, n) })
        }),
{
    let x = b.upto(j);
    let y = b.upto(j + 1);
    lemma_occurrences_step(b.picks, j, n);
    lemma_sum_push(h, x, |c: Counted| if occurrences(c.picks, n) >= 1 { 1nat } else { 0nat });
    lemma_sum_push(h, y, |c: Counted| if occurrences(c.picks, n) >= 1 { 1nat } else { 0nat });
    assert(h.push(x).drop_last() =~= h);
    assert(h.push(y).drop_last() =~= h);
    lemma_support_bounds(h, n);
}

/// Bounds between the counters: none exceeds the total it is part of.
pub proof fn lemma_counter_bounds(h: Seq<Counted>, n: Seq<char>, hr: int)
    ensures
        votes_for(h, n) <= total_votes_of(h),
        male_for(h, n) <= votes_for(h, n),
        female_for(h, n) <= votes_for(h, n),
        bin_for(h, n, hr) <= votes_for(h, n),
        first_for(h, n) <= total_first_of(h),
        bin_first_for(h, n, hr) <= first_for(h, n),
        total_male_of(h) <= total_votes_of(h),
        total_female_of(h) <= total_votes_of(h),
        all_nonempty(h) ==> total_first_of(h) <= total_votes_of(h),
{
    assert forall|k: int| 0 <= k < h.len() implies occurrences((#[trigger] h[k]).picks, n) <= h[k].picks.len() by {
        lemma_occurrences_bounds(h[k].picks, n);
    }
    lemma_sum_le(h, |b: Counted| occurrences(b.picks, n), |b: Counted| b.picks.len());
    lemma_sum_le(h, |b: Counted| if b.male { occurrences(b.picks, n) } else { 0nat },
        |b: Counted| occurrences(b.picks, n));
    lemma_sum_le(h, |b: Counted| if !b.male { occurrences(b.picks, n) } else { 0nat },
        |b: Counted| occurrences(b.picks, n));
    lemma_sum_le(h, |b: Counted| if b.hour
        == hr { occurrences(b.picks, n) } else { 0nat }, |b: Counted| occurrences(b.picks, n));
    lemma_sum_le(h, |b: Counted| if b.first
        == Some(n) { 1nat } else { 0nat }, |b: Counted| if b.first.is_some() { 1nat } else { 0nat });
    lemma_sum_le(h, |b: Counted| if b.first == Some(n)
        && b.hour == hr { 1nat } else { 0nat }, |b: Counted| if b.first == Some(n) { 1nat } else { 0nat });
    lemma_sum_le(h, |b: Counted| if b.male { b.picks.len() } else { 0nat }, |b: Counted| b.picks.len());
    lemma_sum_le(h, |b: Counted| if !b.male { b.picks.len() } else { 0nat }, |b: Counted| b.picks.len());
    if all_nonempty(h) {
        lemma_sum_le(h, |b: Counted| if b.first.is_some() { 1nat } else { 0nat }, |b: Counted| b.picks.len());
    }
}

pub proof fn lemma_reasons_bound(h: Seq<Counted>, n: Seq<char>)
    ensures
        reasons_for(h, n).len() <= votes_for(h, n),
    decreases h.len(),
{
    if h.len() > 0 {
        lemma_reasons_bound(h.drop_last(), n);
        lemma_reasons_in_bound(h.last().picks, n);
    }
}

proof fn lemma_reasons_in_bound(picks: Seq<PickView>, n: Seq<char>)
    ensures
        reasons_in(picks, n).len() <= occurrences(picks, n),
    decreases picks.len(),
{
    if picks.len() > 0 {
        lemma_reasons_in_bound(picks.drop_last(), n);
    }
}

/// What counting the first-choice pick of a section adds for the name `n`.
proof fn lemma_first_step(h: Seq<Counted>, b: Counted, n: Seq<char>)
    ensures
        votes_for(h.push(b.upto(0)), n) == votes_for(h, n),
        male_for(h.push(b.upto(0)), n) == male_for(h, n),
        female_for(h.push(b.upto(0)), n) == female_for(h, n),
        first_for(h.push(b.upto(0)), n) == first_for(h, n) + (if b.first == Some(n) { 1nat } else { 0nat }),
        reasons_for(h.push(b.upto(0)), n) == reasons_for(h, n),
        forall|hr: int| #[trigger] bin_for(h.push(b.upto(0)), n, hr) == bin_for(h, n, hr),
        forall|hr: int| #[trigger] bin_first_for(h.push(b.upto(0)), n, hr)
            == bin_first_for(h, n, hr) + (if b.first == Some(n)
            && b.hour == hr { 1nat } else { 0nat }),
        forall|tag: int| #[trigger] tag_for(h.push(b.upto(0)), n, tag) == tag_for(h, n, tag),
{
    let x = b.upto(0);
    assert forall|tag: int| #[trigger] tag_for(h.push(b.upto(0)), n, tag) == tag_for(h, n, tag) by {
        assert(x.picks =~= Seq::empty());
        lemma_sum_push(h, x, |c: Counted| tagged(c.picks, n, tag));
    }
    assert(x.picks =~= Seq::empty());
    lemma_sum_push(h, x, |c: Counted| occurrences(c.picks, n));
    lemma_sum_push(h, x, |c: Counted| if c.male { occurrences(c.picks, n) } else { 0nat });
    lemma_sum_push(h, x, |c: Counted| if !c.male { occurrences(c.picks, n) } else { 0nat });
    lemma_sum_push(h, x, |c: Counted| if c.first == Some(n) { 1nat } else { 0nat });
    assert(h.push(x).drop_last() =~= h);
    assert(reasons_for(h, n) + reasons_in(x.picks, n) =~= reasons_for(h, n));
    assert forall|hr: int| #[trigger] bin_for(h.push(b.upto(0)), n, hr) == bin_for(h, n, hr) by {
        lemma_sum_push(h, x, |c: Counted| if c.hour == hr { occurrences(c.picks, n) } else { 0nat });
    }
    assert forall|hr: int| #[trigger] bin_first_for(h.push(b.upto(0)), n, hr)
        == bin_first_for(h, n, hr) + (if b.first == Some(n)
        && b.hour == hr { 1nat } else { 0nat }) by {
        lemma_sum_push(h, x, |c: Counted| if c.first == Some(n) && c.hour == hr { 1nat } else { 0nat });
    }
}

/// What counting the first-choice pick of a section adds to the totals.
proof fn lemma_first_step_totals(h: Seq<Counted>, b: Counted)
    ensures
        total_votes_of(h.push(b.upto(0))) == total_votes_of(h),
        total_male_of(h.push(b.upto(0))) == total_male_of(h),
        total_female_of(h.push(b.upto(0))) == total_female_of(h),
        total_first_of(h.push(b.upto(0))) == total_first_of(h) + (if b.first.is_some() { 1nat } else { 0nat }),
        seen_names(h.push(b.upto(0))) == note_first(seen_names(h), b.first),
{
    let x = b.upto(0);
    assert(x.picks =~= Seq::empty());
    lemma_sum_push(h, x, |c: Counted| c.picks.len());
    lemma_sum_push(h, x, |c: Counted| if c.male { c.picks.len() } else { 0nat });
    lemma_sum_push(h, x, |c: Counted| if !c.male { c.picks.len() } else { 0nat });
    lemma_sum_push(h, x, |c: Counted| if c.first.is_some() { 1nat } else { 0nat });
    assert(h.push(x).drop_last() =~= h);
}

/// What counting pick `j` of a section adds for the name `n`.
proof fn lemma_pick_step(h: Seq<Counted>, b: Counted, j: int, n: Seq<char>)
    requires
        0 <= j < b.picks.len(),
    ensures
        ({
            let before = h.push(b.upto(j));
            let after = h.push(b.upto(j + 1));
            let hit = b.picks[j].name == n;
            &&& votes_for(after, n) == votes_for(before, n) + (if hit { 1nat } else { 0nat })
            &&& male_for(after, n) == male_for(before, n) + (if hit && b.male { 1nat } else { 0nat })
            &&& female_for(after, n) == female_for(before, n) + (if hit && !b.male { 1nat } else { 0nat })
            &&& first_for(after, n) == first_for(before, n)
            &&& reasons_for(after, n) == (if hit && b.picks[j].reason.is_some() {
                reasons_for(before, n).push(b.picks[j].reason.unwrap())
            } else {
                reasons_for(before, n)
            })
            &&& forall|hr: int| #[trigger] bin_for(after, n, hr) == bin_for(before, n, hr) + (if hit
                && b.hour == hr { 1nat } else { 0nat })
            &&& forall|hr: int| #[trigger] bin_first_for(after, n, hr) == bin_first_for(before, n, hr)
            &&& forall|tag: int| #[trigger] tag_for(after, n, tag) == tag_for(before, n, tag) + (if hit
                && b.picks[j].tag == tag { 1nat } else { 0nat })
        }),
{
    let x = b.upto(j);
    let y = b.upto(j + 1);
    let before = h.push(x);
    let after = h.push(y);
    lemma_occurrences_step(b.picks, j, n);
    lemma_sum_push(h, x, |c: Counted| occurrences(c.picks, n));
    lemma_sum_push(h, y, |c: Counted| occurrences(c.picks, n));
    lemma_sum_push(h, x, |c: Counted| if c.male { occurrences(c.picks, n) } else { 0nat });
    lemma_sum_push(h, y, |c: Counted| if c.male { occurrences(c.picks, n) } else { 0nat });
    lemma_sum_push(h, x, |c: Counted| if !c.male { occurrences(c.picks, n) } else { 0nat });
    lemma_sum_push(h, y, |c: Counted| if !c.male { occurrences(c.picks, n) } else { 0nat });
    lemma_sum_push(h, x, |c: Counted| if c.first == Some(n) { 1nat } else { 0nat });
    lemma_sum_push(h, y, |c: Counted| if c.first == Some(n) { 1nat } else { 0nat });
    assert(before.drop_last() =~= h);
    assert(after.drop_last() =~= h);
    let base = reasons_for(h, n);
    let part = reasons_in(x.picks, n);
    if b.picks[j].name == n && b.picks[j].reason.is_some() {
        assert(base + part.push(b.picks[j].reason.unwrap()) =~= (base + part).push(b.picks[j].reason.unwrap()));
    }
    assert forall|hr: int| #[trigger] bin_for(after, n, hr) == bin_for(before, n, hr) + (if b.picks[j].name
        == n && b.hour
        == hr { 1nat } else { 0nat }) by {
        lemma_sum_push(h, x, |c: Counted| if c.hour == hr { occurrences(c.picks, n) } else { 0nat });
        lemma_sum_push(h, y, |c: Counted| if c.hour == hr { occurrences(c.picks, n) } else { 0nat });
    }
    assert forall|hr: int| #[trigger] bin_first_for(after, n, hr) == bin_first_for(before, n, hr) by {
        lemma_sum_push(h, x, |c: Counted| if c.first == Some(n) && c.hour == hr { 1nat } else { 0nat });
        lemma_sum_push(h, y, |c: Counted| if c.first == Some(n) && c.hour == hr { 1nat } else { 0nat });
    }
    assert forall|tag: int| #[trigger] tag_for(after, n, tag) == tag_for(before, n, tag) + (if b.picks[j].name
        == n && b.picks[j].tag
        == tag { 1nat } else { 0nat }) by {
        lemma_sum_push(h, x, |c: Counted| tagged(c.picks, n, tag));
        lemma_sum_push(h, y, |c: Counted| tagged(c.picks, n, tag));
    }
}

/// What counting pick `j` of a section adds to the totals.
proof fn lemma_pick_step_totals(h: Seq<Counted>, b: Counted, j: int)
    requires
        0 <= j < b.picks.len(),
    ensures
        ({
            let before = h.push(b.upto(j));
            let after = h.push(b.upto(j + 1));
            &&& total_votes_of(after) == total_votes_of(before) + 1
            &&& total_male_of(after) == total_male_of(before) + (if b.male { 1nat } else { 0nat })
            &&& total_female_of(after) == total_female_of(before) + (if !b.male { 1nat } else { 0nat })
            &&& total_first_of(after) == total_first_of(before)
            &&& seen_names(after) == note(seen_names(before), b.picks[j].name)
        }),
{
    let x = b.upto(j);
    let y = b.upto(j + 1);
    lemma_occurrences_step(b.picks, j, Seq::empty());
    lemma_sum_push(h, x, |c: Counted| c.picks.len());
    lemma_sum_push(h, y, |c: Counted| c.picks.len());
    lemma_sum_push(h, x, |c: Counted| if c.male { c.picks.len() } else { 0nat });
    lemma_sum_push(h, y, |c: Counted| if c.male { c.picks.len() } else { 0nat });
    lemma_sum_push(h, x, |c: Counted| if !c.male { c.picks.len() } else { 0nat });
    lemma_sum_push(h, y, |c: Counted| if !c.male { c.picks.len() } else { 0nat });
    lemma_sum_push(h, x, |c: Counted| if c.first.is_some() { 1nat } else { 0nat });
    lemma_sum_push(h, y, |c: Counted| if c.first.is_some() { 1nat } else { 0nat });
    assert(h.push(x).drop_last() =~= h);
    assert(h.push(y).drop_last() =~= h);
    let seen0 = note_first(seen_names(h), b.first);
    assert(note_picks(seen0, b.picks.take(j + 1)) == note(note_picks(seen0, b.picks.take(j)), b.picks[j].name));
}

/// Why a ballot could not be counted.
#[derive(Clone, Copy, Debug, PartialEq, Eq, Structural)]
pub enum TallyError {
    /// The section was submitted before the poll started or after the end
    /// of the trend window.
    HourOutOfWindow,
    /// Counting the section would take the number of votes past `u32::MAX`.
    TooManyVotes,
}

/// The counters of one item.
#[derive(Clone, Debug)]
pub struct ItemTally {
    pub name: String,
    pub vote_count: u32,
    pub first_count: u32,
    pub male_count: u32,
    pub female_count: u32,
    /// Votes per hourly bucket.
    pub bins: Vec<u32>,
    /// First-choice votes per hourly bucket.
    pub bins_first: Vec<u32>,
    /// Votes per class of pick.
    pub tags: Vec<u32>,
    /// Sections that pick the item.
    pub supporters: u32,
    /// The number, counted from one, of the last section that picked the
    /// item; zero if none did.
    pub last_section: u32,
    pub reasons: Vec<String>,
}

impl ItemTally {
    /// The counters hold what the counted sections `h` say of this item.
    pub open spec fn agrees(&self, h: Seq<Counted>) -> bool {
        let n = self.name@;
        &&& self.vote_count == votes_for(h, n)
        &&& self.first_count == first_for(h, n)
        &&& self.male_count == male_for(h, n)
        &&& self.female_count == female_for(h, n)
        &&& self.bins.len() == TREND_WINDOW_HOURS
        &&& self.bins_first.len() == TREND_WINDOW_HOURS
        &&& forall|hr: int| 0 <= hr < TREND_WINDOW_HOURS ==> #[trigger] self.bins[hr] == bin_for(h, n, hr)
        &&& forall|hr: int| 0 <= hr < TREND_WINDOW_HOURS ==> #[trigger] self.bins_first[hr] == bin_first_for(h, n, hr)
        &&& self.tags.len() == TAG_COUNT
        &&& forall|tag: int| 0 <= tag < TAG_COUNT ==> #[trigger] self.tags[tag] == tag_for(h, n, tag)
        &&& self.supporters == supporters_for(h, n)
        &&& self.last_section == last_support(h, n)
        &&& texts(self.reasons@) == reasons_for(h, n)
    }

    /// A record with all counters at zero.
    pub open spec fn fresh(&self) -> bool {
        &&& self.vote_count == 0
        &&& self.first_count == 0
        &&& self.male_count == 0
        &&& self.female_count == 0
        &&& self.bins.len() == TREND_WINDOW_HOURS
        &&& self.bins_first.len() == TREND_WINDOW_HOURS
        &&& forall|hr: int| 0 <= hr < TREND_WINDOW_HOURS ==> #[trigger] self.bins[hr] == 0
        &&& forall|hr: int| 0 <= hr < TREND_WINDOW_HOURS ==> #[trigger] self.bins_first[hr] == 0
        &&& self.tags.len() == TAG_COUNT
        &&& forall|tag: int| 0 <= tag < TAG_COUNT ==> #[trigger] self.tags[tag] == 0
        &&& self.supporters == 0
        &&& self.last_section == 0
        &&& self.reasons.len() == 0
    }
}

/// The names of a list of records.
pub open spec fn item_names(items: Seq<ItemTally>) -> Seq<Seq<char>> {
    Seq::new(items.len(), |i: int| items[i].name@)
}

fn zeros(n: usize) -> (v: Vec<u32>)
    ensures
        v.len() == n,
        forall|i: int| 0 <= i < n ==> #[trigger] v[i] == 0,
{
    let mut v: Vec<u32> = Vec::new();
    while v.len() < n
        invariant
            v.len() <= n,
            forall|i: int| 0 <= i < v.len() ==> #[trigger] v[i] == 0,
        decreases n - v.len(),
    {
        v.push(0);
    }
    v
}

/// The section that `ballot` holds for `section`, unless it is absent or
/// has no pick.
pub open spec fn submitted(ballot: Ballot, section: Section) -> Option<ItemVotes> {
    match ballot.item_votes(section) {
        Some(v) => if v.picks.len() == 0 { None } else { Some(v) },
        None => None,
    }
}

/// The counted sections after a section was offered: unchanged when the
/// section has no pick; an error when it bears a time outside the trend
/// window or would overflow the vote count; else one section more.
pub open spec fn count_step(
    h: Seq<Counted>,
    start: i64,
    picks: Seq<PickView>,
    first: Option<Seq<char>>,
    created_at: Option<i64>,
    male: bool,
) -> Result<Seq<Counted>, TallyError> {
    if picks.len() == 0 {
        Ok(h)
    } else {
        match section_hour(start, created_at) {
            None => Err(TallyError::HourOutOfWindow),
            Some(hr) => if total_votes_of(h) + picks.len() > u32::MAX {
                Err(TallyError::TooManyVotes)
            } else {
                Ok(h.push(Counted { picks, first, hour: hr, male }))
            },
        }
    }
}

/// The counted sections after the item section of `ballot` was offered.
pub open spec fn tally_step(
    h: Seq<Counted>,
    section: Section,
    start: i64,
    ballot: Ballot,
) -> Result<Seq<Counted>, TallyError> {
    match ballot.item_votes(section) {
        None => Ok(h),
        Some(v) => count_step(h, start, picks_view(v.picks@), opt_text(v.first), Some(v.created_at), ballot.male()),
    }
}

/// The pairing picks as the aggregator counts them.
pub open spec fn pair_picks_view(picks: Seq<CPItem>) -> Seq<PickView> {
    Seq::new(picks.len(), |i: int| pair_pick(picks[i]))
}

/// The identity of an optional pairing.
pub open spec fn opt_identity(first: Option<CPItem>) -> Option<Seq<char>> {
    match first {
        Some(p) => Some(identity(p)),
        None => None,
    }
}

/// The counted sections after the pairing section of `ballot` was offered.
pub open spec fn pair_step(
    h: Seq<Counted>,
    start: i64,
    ballot: Ballot,
) -> Result<Seq<Counted>, TallyError> {
    match ballot.cps {
        None => Ok(h),
        Some(v) => count_step(h, start, pair_picks_view(v.picks@), opt_identity(v.first), Some(v.created_at),
            ballot.male()),
    }
}

/// The counted sections after the ballots were offered one after the other,
/// or the error of the first ballot that was refused.
pub open spec fn tally_all(
    h: Seq<Counted>,
    section: Section,
    start: i64,
    ballots: Seq<Ballot>,
) -> Result<Seq<Counted>, TallyError>
    decreases ballots.len(),
{
    if ballots.len() == 0 {
        Ok(h)
    } else {
        match tally_all(h, section, start, ballots.drop_last()) {
            Err(e) => Err(e),
            Ok(counted) => tally_step(counted, section, start, ballots.last()),
        }
    }
}

/// The counted sections after the pairing sections of the ballots were
/// offered one after the other, or the error of the first that was refused.
pub open spec fn pairs_all(
    h: Seq<Counted>,
    start: i64,
    ballots: Seq<Ballot>,
) -> Result<Seq<Counted>, TallyError>
    decreases ballots.len(),
{
    if ballots.len() == 0 {
        Ok(h)
    } else {
        match pairs_all(h, start, ballots.drop_last()) {
            Err(e) => Err(e),
            Ok(counted) => pair_step(counted, start, ballots.last()),
        }
    }
}

/// The streaming accumulator of one ranking request.
pub struct Tally {
    start: i64,
    index: StringHashMap<usize>,
    items: Vec<ItemTally>,
    total_votes: u32,
    total_first: u32,
    total_male: u32,
    total_female: u32,
    sections: u32,
    history: Ghost<Seq<Counted>>,
}

impl View for Tally {
    type V = Seq<Counted>;

    /// The sections counted so far, in order.
    closed spec fn view(&self) -> Seq<Counted> {
        self.history@
    }
}

impl Tally {
    /// The start of the poll, in milliseconds since the epoch.
    pub closed spec fn start(&self) -> i64 {
        self.start
    }

    spec fn names(&self) -> Seq<Seq<char>> {
        Seq::new(self.items.len() as nat, |i: int| self.items[i].name@)
    }

    spec fn index_ok(&self) -> bool {
        &&& forall|n: Seq<char>| #[trigger] self.index@.contains_key(n) ==> self.index@[n] < self.items.len()
            && self.items[self.index@[n] as int].name@ == n
        &&& forall|i: int| 0 <= i < self.items.len() ==> self.index@.contains_key((#[trigger] self.items[i]).name@)
            && self.index@[self.items[i].name@] == i
        &&& forall|i: int| 0 <= i < self.items.len() ==> (#[trigger] self.items[i]).bins.len() == TREND_WINDOW_HOURS
            && self.items[i].bins_first.len() == TREND_WINDOW_HOURS && self.items[i].tags.len() == TAG_COUNT
    }

    spec fn agrees(&self, h: Seq<Counted>) -> bool {
        &&& self.index_ok()
        &&& self.names() == seen_names(h)
        &&& self.total_votes == total_votes_of(h)
        &&& self.total_first == total_first_of(h)
        &&& self.total_male == total_male_of(h)
        &&& self.total_female == total_female_of(h)
        &&& forall|i: int| 0 <= i < self.items.len() ==> (#[trigger] self.items[i]).agrees(h)
        &&& forall|n: Seq<char>| !(#[trigger] self.index@.contains_key(n))
            ==> votes_for(h, n) == 0 && first_for(h, n) == 0
    }

    /// The counters hold what the counted sections say.
    pub closed spec fn wf(&self) -> bool {
        &&& self.agrees(self.history@)
        &&& all_nonempty(self.history@)
        &&& self.sections == self.history@.len()
    }

    /// An accumulator for a poll that started at `start` (milliseconds
    /// since the epoch), with nothing counted.
    pub fn new(start: i64) -> (t: Tally)
        ensures
            t.wf(),
            t@ == Seq::<Counted>::empty(),
            t.start() == start,
    {
        let t = Tally {
            start,
            index: StringHashMap::new(),
            items: Vec::new(),
            total_votes: 0,
            total_first: 0,
            total_male: 0,
            total_female: 0,
            sections: 0,
            history: Ghost(Seq::empty()),
        };
        proof {
            assert(t.names() =~= seen_names(Seq::empty()));
        }
        t
    }

    /// The records, one for each name mentioned, in the order of first
    /// mention.
    pub fn items(&self) -> (items: &Vec<ItemTally>)
        requires
            self.wf(),
        ensures
            item_names(items@) == seen_names(self@),
            forall|i: int| 0 <= i < items.len() ==> (#[trigger] items[i]).agrees(self@),
            forall|i: int, j: int| 0 <= i < j < items.len()
                ==> (#[trigger] items[i]).name@ != (#[trigger] items[j]).name@,
    {
        proof {
            assert(item_names(self.items@) =~= self.names());
            assert forall|i: int, j: int| 0 <= i < j < self.items.len() implies (#[trigger] self.items[i]).name@
                != (#[trigger] self.items[j]).name@ by {
                assert(self.index@[self.items[i].name@] == i);
                assert(self.index@[self.items[j].name@] == j);
            }
        }
        &self.items
    }

    /// The place of `name` among the names mentioned, if it was mentioned.
    pub fn slot_of(&self, name: &str) -> (r: Option<usize>)
        requires
            self.wf(),
        ensures
            match r {
                Some(i) => i < seen_names(self@).len() && seen_names(self@)[i as int] == name@,
                None => !seen_names(self@).contains(name@),
            },
    {
        let r: Option<usize> = match self.index.get(name) {
            Some(i) => Some(*i),
            None => None,
        };
        proof {
            match r {
                Some(i) => {
                    assert(self.names()[i as int] == name@);
                },
                None => {
                    if self.names().contains(name@) {
                        let k = choose|k: int| 0 <= k < self.names().len() && self.names()[k] == name@;
                        assert(self.index@.contains_key(self.items[k].name@));
                    }
                },
            }
        }
        r
    }

    /// A name that was never mentioned has no votes.
    pub proof fn lemma_unseen(&self, n: Seq<char>)
        requires
            self.wf(),
            !seen_names(self@).contains(n),
        ensures
            votes_for(self@, n) == 0,
            first_for(self@, n) == 0,
            reasons_for(self@, n) == Seq::<Seq<char>>::empty(),
            forall|hr: int| #[trigger] bin_for(self@, n, hr) == 0,
    {
        if self.index@.contains_key(n) {
            assert(self.names()[self.index@[n] as int] == n);
        }
        lemma_reasons_bound(self@, n);
        assert(reasons_for(self@, n) =~= Seq::<Seq<char>>::empty());
        assert forall|hr: int| #[trigger] bin_for(self@, n, hr) == 0 by {
            lemma_counter_bounds(self@, n, hr);
        }
    }

    /// No name is mentioned twice among the names mentioned.
    pub proof fn lemma_seen_distinct(&self)
        requires
            self.wf(),
        ensures
            distinct(seen_names(self@)),
    {
        assert forall|i: int, j: int| 0 <= i < j < self.names().len() implies
            #[trigger] self.names()[i] != #[trigger] self.names()[j] by {
            assert(self.index@[self.items[i].name@] == i);
            assert(self.index@[self.items[j].name@] == j);
        }
    }

    /// All votes counted.
    pub fn total_votes(&self) -> (n: u32)
        requires
            self.wf(),
        ensures
            n == total_votes_of(self@),
    {
        self.total_votes
    }

    /// All first-choice votes counted.
    pub fn total_first(&self) -> (n: u32)
        requires
            self.wf(),
        ensures
            n == total_first_of(self@),
    {
        self.total_first
    }

    /// All votes of male voters counted.
    pub fn total_male(&self) -> (n: u32)
        requires
            self.wf(),
        ensures
            n == total_male_of(self@),
    {
        self.total_male
    }

    /// All votes of the other voters counted.
    pub fn total_female(&self) -> (n: u32)
        requires
            self.wf(),
        ensures
            n == total_female_of(self@),
    {
        self.total_female
    }

    /// The record of `name`, made with zero counters if there was none.
    fn slot_for(&mut self, name: &String) -> (i: usize)
        requires
            old(self).index_ok(),
        ensures
            final(self).index_ok(),
            i < final(self).items.len(),
            final(self).items[i as int].name@ == name@,
            final(self).names() == note(old(self).names(), name@),
            final(self).start == old(self).start,
            final(self).total_votes == old(self).total_votes,
            final(self).total_first == old(self).total_first,
            final(self).total_male == old(self).total_male,
            final(self).total_female == old(self).total_female,
            final(self).history == old(self).history,
            final(self).sections == old(self).sections,
            old(self).index@.contains_key(name@)
                ==> final(self).items@ == old(self).items@ && final(self).index@ == old(
                self,
            ).index@,
            !old(self).index@.contains_key(name@) ==> i == old(self).items.len() && final(self).items@.len() == i + 1
                && final(self).items@.take(i as int) == old(self).items@ && final(self).items[i as int].fresh()
                && final(self).index@ == old(self).index@.insert(name@, i),
    {
        let found: Option<usize> = match self.index.get(name.as_str()) {
            Some(i) => Some(*i),
            None => None,
        };
        match found {
            Some(i) => {
                proof {
                    assert(self.names().contains(name@)) by {
                        assert(self.names()[i as int] == name@);
                    }
                }
                i
            },
            None => {
                let i = self.items.len();
                let item = ItemTally {
                    name: name.clone(),
                    vote_count: 0,
                    first_count: 0,
                    male_count: 0,
                    female_count: 0,
                    bins: zeros(TREND_WINDOW_HOURS),
                    bins_first: zeros(TREND_WINDOW_HOURS),
                    tags: zeros(TAG_COUNT),
                    supporters: 0,
                    last_section: 0,
                    reasons: Vec::new(),
                };
                self.items.push(item);
                self.index.insert(name.clone(), i);
                proof {
                    assert(self.items@.take(i as int) =~= old(self).items@);
                    assert forall|k: int| 0 <= k < self.items.len() implies self.index@.contains_key(
                        (#[trigger] self.items[k]).name@,
                    ) && self.index@[self.items[k].name@] == k by {
                        if k < i {
                            assert(self.items[k] == old(self).items[k]);
                        }
                    }
                    assert(!old(self).names().contains(name@)) by {
                        if old(self).names().contains(name@) {
                            let k = choose|k: int| 0 <= k < old(self).names().len() && old(self).names()[k] == name@;
                            assert(old(self).index@.contains_key(old(self).items[k].name@));
                        }
                    }
                    assert(self.names() =~= old(self).names().push(name@)) by {
                        assert forall|k: int| 0 <= k < i implies self.names()[k] == old(self).names()[k] by {
                            assert(self.items[k] == old(self).items[k]);
                        }
                    }
                }
                i
            },
        }
    }

    /// After `slot_for`, every record still agrees with the sections `h`.
    proof fn lemma_slot_keeps(self, before: Tally, name: Seq<char>, h: Seq<Counted>)
        requires
            before.agrees(h),
            self.index_ok(),
            self.names() == note(before.names(), name),
            self.total_votes == before.total_votes,
            self.total_first == before.total_first,
            self.total_male == before.total_male,
            self.total_female == before.total_female,
            before.index@.contains_key(name) ==> self.items@ == before.items@ && self.index@ == before.index@,
            !before.index@.contains_key(name) ==> self.items@.len() == before.items@.len() + 1 && self.items@.take(
                before.items@.len() as int,
            ) == before.items@ && self.items[before.items@.len() as int].fresh()
                && self.items[before.items@.len() as int].name@
                == name && self.index@ == before.index@.insert(name, before.items.len()),
        ensures
            forall|k: int| 0 <= k < self.items.len() ==> (#[trigger] self.items[k]).agrees(h),
            forall|n: Seq<char>| !(#[trigger] self.index@.contains_key(n))
                ==> votes_for(h, n) == 0 && first_for(h, n) == 0,
    {
        if !before.index@.contains_key(name) {
            let last = before.items@.len() as int;
            assert forall|k: int| 0 <= k < self.items.len() implies (#[trigger] self.items[k]).agrees(h) by {
                if k < last {
                    assert(self.items@.take(last)[k] == self.items[k]);
                    assert(before.items[k].agrees(h));
                } else {
                    lemma_reasons_bound(h, name);
                    assert forall|hr: int| 0 <= hr < TREND_WINDOW_HOURS implies
                        #[trigger] self.items[k].bins[hr] == bin_for(
                        h,
                        name,
                        hr,
                    ) by {
                        lemma_counter_bounds(h, name, hr);
                    }
                    assert forall|hr: int| 0 <= hr < TREND_WINDOW_HOURS implies
                        #[trigger] self.items[k].bins_first[hr]
                        == bin_first_for(h, name, hr) by {
                        lemma_counter_bounds(h, name, hr);
                    }
                    assert forall|tag: int| 0 <= tag < TAG_COUNT implies
                        #[trigger] self.items[k].tags[tag] == tag_for(h, name, tag) by {
                        lemma_tag_bounds(h, name, tag);
                    }
                    lemma_counter_bounds(h, name, 0);
                    lemma_support_bounds(h, name);
                    assert(texts(self.items[k].reasons@) =~= reasons_for(h, name));
                }
            }
        }
    }

    /// Counts the first-choice pick of a section that is about to be counted.
    fn count_first(
        &mut self,
        first: &Option<String>,
        hour: Option<usize>,
        Ghost(h): Ghost<Seq<Counted>>,
        Ghost(b): Ghost<Counted>,
    )
        requires
            old(self).agrees(h),
            all_nonempty(h),
            total_votes_of(h) < u32::MAX,
            b.first == opt_text(*first),
            b.hour == hour_view(hour),
            hour.is_some() ==> hour.unwrap() < TREND_WINDOW_HOURS,
        ensures
            final(self).agrees(h.push(b.upto(0))),
            final(self).start == old(self).start,
            final(self).history == old(self).history,
            final(self).sections == old(self).sections,
    {
        let ghost after = h.push(b.upto(0));
        proof {
            lemma_first_step_totals(h, b);
        }
        match first {
            None => {
                proof {
                    assert forall|k: int| 0 <= k < self.items.len() implies
                        (#[trigger] self.items[k]).agrees(after) by {
                        lemma_first_step(h, b, self.items[k].name@);
                        lemma_support_first_step(h, b, self.items[k].name@);
                        assert(self.items[k].agrees(h));
                    }
                    assert forall|n: Seq<char>| !(#[trigger] self.index@.contains_key(n)) implies
                        votes_for(after, n) == 0
                        && first_for(after, n) == 0 by {
                        lemma_first_step(h, b, n);
                        lemma_support_first_step(h, b, n);
                    }
                }
            },
            Some(f) => {
                let ghost m = f@;
                let i = self.slot_for(f);
                let ghost s1 = *self;
                proof {
                    s1.lemma_slot_keeps(*old(self), m, h);
                    lemma_counter_bounds(h, m, hour_view(hour));
                    assert(s1.items[i as int].agrees(h));
                }
                self.items[i].first_count += 1;
                match hour {
                    Some(x) => {
                        self.items[i].bins_first[x] += 1;
                    },
                    None => {},
                }
                self.total_first += 1;
                proof {
                    assert(self.names() =~= s1.names());
                    assert forall|k: int| 0 <= k < self.items.len() implies
                        (#[trigger] self.items[k]).agrees(after) by {
                        let n = self.items[k].name@;
                        lemma_first_step(h, b, n);
                        lemma_support_first_step(h, b, n);
                        assert(s1.items[k].agrees(h));
                        if k == i {
                        } else {
                            assert(self.items[k] == s1.items[k]);
                            assert(s1.index@[s1.items[k].name@] == k);
                        }
                    }
                    assert forall|n: Seq<char>| !(#[trigger] self.index@.contains_key(n)) implies
                        votes_for(after, n) == 0
                        && first_for(after, n) == 0 by {
                        lemma_first_step(h, b, n);
                        lemma_support_first_step(h, b, n);
                    }
                    assert forall|k: int| 0 <= k < self.items.len() implies self.index@.contains_key(
                        (#[trigger] self.items[k]).name@,
                    ) && self.index@[self.items[k].name@] == k by {
                        assert(self.items[k].name@ == s1.items[k].name@);
                    }
                }
            },
        }
    }

    /// Counts pick `j` of a section that is being counted.
    #[verifier::rlimit(40)]
    fn count_pick(
        &mut self,
        name: &String,
        reason: &Option<String>,
        tag: usize,
        hour: Option<usize>,
        male: bool,
        section: u32,
        Ghost(h): Ghost<Seq<Counted>>,
        Ghost(b): Ghost<Counted>,
        Ghost(j): Ghost<int>,
    )
        requires
            old(self).agrees(h.push(b.upto(j))),
            0 <= j < b.picks.len(),
            b.picks[j] == (PickView { name: name@, reason: opt_text(*reason), tag: tag as int }),
            tag < TAG_COUNT,
            b.hour == hour_view(hour),
            b.male == male,
            section == h.len() + 1,
            hour.is_some() ==> hour.unwrap() < TREND_WINDOW_HOURS,
            total_votes_of(h.push(b.upto(j))) < u32::MAX,
        ensures
            final(self).agrees(h.push(b.upto(j + 1))),
            final(self).start == old(self).start,
            final(self).history == old(self).history,
            final(self).sections == old(self).sections,
    {
        let ghost before = h.push(b.upto(j));
        let ghost after = h.push(b.upto(j + 1));
        let ghost m = name@;
        let i = self.slot_for(name);
        let ghost s1 = *self;
        proof {
            lemma_pick_step_totals(h, b, j);
            s1.lemma_slot_keeps(*old(self), m, before);
            lemma_counter_bounds(before, m, hour_view(hour));
            lemma_tag_bounds(before, m, tag as int);
            lemma_support_bounds(before, m);
            lemma_support_pick_step(h, b, j, m);
            assert(s1.items[i as int].agrees(before));
        }
        self.items[i].vote_count += 1;
        match hour {
            Some(x) => {
                self.items[i].bins[x] += 1;
            },
            None => {},
        }
        self.items[i].tags[tag] += 1;
        if self.items[i].last_section != section {
            self.items[i].supporters += 1;
            self.items[i].last_section = section;
        }
        if male {
            self.items[i].male_count += 1;
            self.total_male += 1;
        } else {
            self.items[i].female_count += 1;
            self.total_female += 1;
        }
        match reason {
            Some(r) => {
                self.items[i].reasons.push(r.clone());
            },
            None => {},
        }
        self.total_votes += 1;
        proof {
            assert(self.names() =~= s1.names());
            assert forall|k: int| 0 <= k < self.items.len() implies (#[trigger] self.items[k]).agrees(after) by {
                let n = self.items[k].name@;
                lemma_pick_step(h, b, j, n);
                lemma_support_pick_step(h, b, j, n);
                assert(s1.items[k].agrees(before));
                if k == i {
                    if reason.is_some() {
                        assert(texts(self.items[k].reasons@) =~= texts(s1.items[k].reasons@).push(reason.unwrap()@));
                    } else {
                        assert(texts(self.items[k].reasons@) =~= texts(s1.items[k].reasons@));
                    }
                } else {
                    assert(self.items[k] == s1.items[k]);
                    assert(s1.index@[s1.items[k].name@] == k);
                }
            }
            assert forall|n: Seq<char>| !(#[trigger] self.index@.contains_key(n)) implies votes_for(after, n) == 0
                && first_for(after, n) == 0 by {
                lemma_pick_step(h, b, j, n);
                lemma_support_pick_step(h, b, j, n);
            }
            assert forall|k: int| 0 <= k < self.items.len() implies self.index@.contains_key(
                (#[trigger] self.items[k]).name@,
            ) && self.index@[self.items[k].name@] == k by {
                assert(self.items[k].name@ == s1.items[k].name@);
            }
        }
    }

    /// Opens a section of `count` picks: checks its hour and the room left
    /// for its votes, and counts its first-choice pick.
    fn open_section(
        &mut self,
        count: usize,
        created_at: Option<i64>,
        first: &Option<String>,
        Ghost(picks): Ghost<Seq<PickView>>,
        Ghost(male): Ghost<bool>,
    ) -> (r: Result<Option<usize>, TallyError>)
        requires
            old(self).wf(),
            picks.len() == count,
            count > 0,
        ensures
            final(self).start == old(self).start,
            final(self).history == old(self).history,
            final(self).sections == old(self).sections,
            match r {
                Ok(hour) => {
                    let b = Counted { picks, first: opt_text(*first), hour: hour_view(hour), male };
                    &&& hour.is_some() ==> hour.unwrap() < TREND_WINDOW_HOURS
                    &&& count_step(old(self)@, old(self).start, picks, opt_text(*first), created_at, male)
                        == Ok::<Seq<Counted>, TallyError>(
                        old(self)@.push(b),
                    )
                    &&& final(self).agrees(old(self)@.push(b.upto(0)))
                    &&& total_votes_of(old(self)@.push(b.upto(0))) == total_votes_of(old(self)@)
                    &&& total_votes_of(old(self)@) + count <= u32::MAX
                    &&& all_nonempty(old(self)@)
                },
                Err(e) => {
                    &&& count_step(old(self)@, old(self).start, picks, opt_text(*first), created_at, male)
                        == Err::<Seq<Counted>, TallyError>(e)
                    &&& final(self).wf()
                },
            },
    {
        let hour: Option<usize> = match created_at {
            None => None,
            Some(at) => match hour_bucket(self.start, at) {
                None => {
                    return Err(TallyError::HourOutOfWindow);
                },
                Some(h) => Some(h),
            },
        };
        if count > (u32::MAX - self.total_votes) as usize {
            return Err(TallyError::TooManyVotes);
        }
        let ghost h = self.history@;
        let ghost b = Counted { picks, first: opt_text(*first), hour: hour_view(hour), male };
        self.count_first(first, hour, Ghost(h), Ghost(b));
        proof {
            lemma_first_step_totals(h, b);
        }
        Ok(hour)
    }

    /// Closes the section that was counted.
    fn close_section(&mut self, Ghost(b): Ghost<Counted>)
        requires
            old(self).agrees(old(self).history@.push(b.upto(b.picks.len() as int))),
            all_nonempty(old(self).history@),
            old(self).sections == old(self).history@.len(),
            b.picks.len() > 0,
        ensures
            final(self).wf(),
            final(self)@ == old(self)@.push(b),
            final(self).start == old(self).start,
    {
        let ghost h = self.history@;
        proof {
            assert(b.upto(b.picks.len() as int) == b) by {
                assert(b.picks.take(b.picks.len() as int) =~= b.picks);
            }
            assert(all_nonempty(h.push(b))) by {
                assert forall|k: int| 0 <= k < h.push(b).len() implies (#[trigger] h.push(b)[k]).picks.len() >= 1 by {
                    if k < h.len() {
                        assert(h.push(b)[k] == h[k]);
                    }
                }
            }
        }
        proof {
            lemma_sections_bound(h.push(b));
        }
        self.sections += 1;
        self.history = Ghost(h.push(b));
    }

    /// Offers one section of picks, cast by a male voter or not, with its
    /// first-choice pick and the time of its submission, if it bears one. A
    /// section without picks changes nothing. A section that bears a time
    /// outside the trend window, or one that would overflow the vote count,
    /// is refused and changes nothing. Any other section is counted; one
    /// that bears no time is counted in no hourly bucket.
    pub fn add_picks(
        &mut self,
        picks: &Vec<Pick>,
        first: &Option<String>,
        created_at: Option<i64>,
        male: bool,
    ) -> (r: Result<(), TallyError>)
        requires
            old(self).wf(),
        ensures
            final(self).wf(),
            final(self).start() == old(self).start(),
            match count_step(old(self)@, old(self).start(), picks_view(picks@), opt_text(*first), created_at, male) {
                Ok(h) => r.is_ok() && final(self)@ == h,
                Err(e) => r == Err::<(), TallyError>(e) && final(self)@ == old(self)@,
            },
    {
        let count = picks.len();
        if count == 0 {
            return Ok(());
        }
        let ghost h = self.history@;
        let ghost views = picks_view(picks@);
        let hour = match self.open_section(count, created_at, first, Ghost(views), Ghost(male)) {
            Ok(hour) => hour,
            Err(e) => {
                return Err(e);
            },
        };
        let ghost b = Counted { picks: views, first: opt_text(*first), hour: hour_view(hour), male };
        proof {
            lemma_sections_bound(h);
        }
        let section = self.sections + 1;
        let mut j: usize = 0;
        while j < count
            invariant
                count == picks.len(),
                j <= count,
                views == picks_view(picks@),
                b == (Counted { picks: views, first: opt_text(*first), hour: hour_view(hour), male }),
                hour.is_some() ==> hour.unwrap() < TREND_WINDOW_HOURS,
                self.agrees(h.push(b.upto(j as int))),
                total_votes_of(h.push(b.upto(j as int))) == total_votes_of(h) + j,
                total_votes_of(h) + count <= u32::MAX,
                all_nonempty(h),
                self.start == old(self).start,
                self.history@ == h,
                self.sections == old(self).sections,
                section == h.len() + 1,
            decreases count - j,
        {
            proof {
                lemma_pick_step_totals(h, b, j as int);
            }
            let pick = &picks[j];
            self.count_pick(&pick.name, &pick.reason, UNTAGGED, hour, male, section, Ghost(h), Ghost(b), Ghost(j as int));
            j += 1;
        }
        self.close_section(Ghost(b));
        Ok(())
    }

    /// Offers one section of item picks, cast by a male voter or not. A
    /// section without picks changes nothing. A section outside the trend
    /// window, or one that would overflow the vote count, is refused and
    /// changes nothing. Any other section is counted.
    pub fn add_votes(&mut self, votes: &ItemVotes, male: bool) -> (r: Result<(), TallyError>)
        requires
            old(self).wf(),
        ensures
            final(self).wf(),
            final(self).start() == old(self).start(),
            match count_step(
                old(self)@,
                old(self).start(),
                picks_view(votes.picks@),
                opt_text(votes.first),
                Some(votes.created_at),
                male,
            ) {
                Ok(h) => r.is_ok() && final(self)@ == h,
                Err(e) => r == Err::<(), TallyError>(e) && final(self)@ == old(self)@,
            },
    {
        self.add_picks(&votes.picks, &votes.first, Some(votes.created_at), male)
    }

    /// Offers one section of pairing picks: each pick is counted under the
    /// identity of its pairing, in the class of its active partner.
    pub fn add_pair_votes(&mut self, votes: &PairVotes, male: bool) -> (r: Result<(), TallyError>)
        requires
            old(self).wf(),
        ensures
            final(self).wf(),
            final(self).start() == old(self).start(),
            match count_step(old(self)@, old(self).start(), pair_picks_view(votes.picks@),
                opt_identity(votes.first), Some(votes.created_at), male) {
                Ok(h) => r.is_ok() && final(self)@ == h,
                Err(e) => r == Err::<(), TallyError>(e) && final(self)@ == old(self)@,
            },
    {
        let count = votes.picks.len();
        if count == 0 {
            return Ok(());
        }
        let first: Option<String> = match &votes.first {
            Some(p) => Some(pair_key(p)),
            None => None,
        };
        let ghost h = self.history@;
        let ghost picks = pair_picks_view(votes.picks@);
        let hour = match self.open_section(count, Some(votes.created_at), &first, Ghost(picks), Ghost(male)) {
            Ok(hour) => hour,
            Err(e) => {
                return Err(e);
            },
        };
        let ghost b = Counted { picks, first: opt_identity(votes.first), hour: hour_view(hour), male };
        proof {
            lemma_sections_bound(h);
        }
        let section = self.sections + 1;
        let mut j: usize = 0;
        while j < count
            invariant
                count == votes.picks.len(),
                j <= count,
                picks == pair_picks_view(votes.picks@),
                b == (Counted { picks, first: opt_identity(votes.first), hour: hour_view(hour), male }),
                hour.is_some() ==> hour.unwrap() < TREND_WINDOW_HOURS,
                self.agrees(h.push(b.upto(j as int))),
                total_votes_of(h.push(b.upto(j as int))) == total_votes_of(h) + j,
                total_votes_of(h) + count <= u32::MAX,
                all_nonempty(h),
                self.start == old(self).start,
                self.history@ == h,
                self.sections == old(self).sections,
                section == h.len() + 1,
            decreases count - j,
        {
            proof {
                lemma_pick_step_totals(h, b, j as int);
            }
            let pick = &votes.picks[j];
            let key = pair_key(pick);
            let tag = active_tag(pick);
            self.count_pick(&key, &pick.reason, tag, hour, male, section, Ghost(h), Ghost(b), Ghost(j as int));
            j += 1;
        }
        self.close_section(Ghost(b));
        Ok(())
    }

    /// Offers the item section of one ballot.
    pub fn add_ballot(&mut self, section: Section, ballot: &Ballot) -> (r: Result<(), TallyError>)
        requires
            old(self).wf(),
        ensures
            final(self).wf(),
            final(self).start() == old(self).start(),
            match tally_step(old(self)@, section, old(self).start(), *ballot) {
                Ok(h) => r.is_ok() && final(self)@ == h,
                Err(e) => r == Err::<(), TallyError>(e) && final(self)@ == old(self)@,
            },
    {
        let votes = match section {
            Section::Chars => &ballot.chars,
            Section::Musics => &ballot.musics,
        };
        match votes {
            None => Ok(()),
            Some(v) => {
                let male = ballot.is_male();
                self.add_votes(v, male)
            },
        }
    }

    /// Offers the pairing section of one ballot.
    pub fn add_pair_ballot(&mut self, ballot: &Ballot) -> (r: Result<(), TallyError>)
        requires
            old(self).wf(),
        ensures
            final(self).wf(),
            final(self).start() == old(self).start(),
            match pair_step(old(self)@, old(self).start(), *ballot) {
                Ok(h) => r.is_ok() && final(self)@ == h,
                Err(e) => r == Err::<(), TallyError>(e) && final(self)@ == old(self)@,
            },
    {
        match &ballot.cps {
            None => Ok(()),
            Some(v) => {
                let male = ballot.is_male();
                self.add_pair_votes(v, male)
            },
        }
    }
}

/// Counts the given section of the ballots in one pass. The first ballot
/// that is refused ends the pass with its error.
pub fn tally_ballots(
    section: Section,
    start: i64,
    ballots: &Vec<Ballot>,
) -> (r: Result<Tally, TallyError>)
    ensures
        match tally_all(Seq::empty(), section, start, ballots@) {
            Ok(h) => match r {
                Ok(t) => t.wf() && t@ == h && t.start() == start,
                Err(_) => false,
            },
            Err(e) => match r {
                Ok(_) => false,
                Err(x) => x == e,
            },
        },
{
    let mut tally = Tally::new(start);
    let mut i: usize = 0;
    while i < ballots.len()
        invariant
            i <= ballots.len(),
            tally.wf(),
            tally.start() == start,
            tally_all(Seq::empty(), section, start, ballots@.take(i as int))
                == Ok::<Seq<Counted>, TallyError>(tally@),
        decreases ballots.len() - i,
    {
        proof {
            assert(ballots@.take(i as int + 1).drop_last() =~= ballots@.take(i as int));
            assert(ballots@.take(i as int + 1).last() == ballots@[i as int]);
        }
        match tally.add_ballot(section, &ballots[i]) {
            Ok(()) => {},
            Err(e) => {
                proof {
                    lemma_tally_all_fails(section, start, ballots@, i as int + 1);
                }
                return Err(e);
            },
        }
        i += 1;
    }
    proof {
        assert(ballots@.take(ballots.len() as int) =~= ballots@);
    }
    Ok(tally)
}

/// Once a ballot is refused, the pass over any longer list fails the same way.
proof fn lemma_tally_all_fails(section: Section, start: i64, ballots: Seq<Ballot>, k: int)
    requires
        0 <= k <= ballots.len(),
        tally_all(Seq::empty(), section, start, ballots.take(k)).is_err(),
    ensures
        tally_all(Seq::empty(), section, start, ballots) == tally_all(Seq::empty(), section, start, ballots.take(k)),
    decreases ballots.len(),
{
    if k == ballots.len() {
        assert(ballots.take(k) =~= ballots);
    } else {
        assert(ballots.drop_last().take(k) =~= ballots.take(k));
        lemma_tally_all_fails(section, start, ballots.drop_last(), k);
    }
}

} // verus!
