//! The pairing ranking: pairings counted under their identity, ranked like
//! items, with the share of each member as the active partner. A pairing
//! that a single ballot supports is left out of the ranking and of its
//! totals.

use vstd::prelude::*;
use vstd::relations::sorted_by;
use crate::ballot::{Ballot, CPItem, TREND_WINDOW_HOURS};
use crate::models::{RankingGlobal, ReasonsResponse, TrendResponse, VotingTrendItem};
use crate::order::{by_text, lemma_sorted_texts_unique, lemma_text_order_total};
use crate::pairing::{
    ACTIVE_FIRST, ACTIVE_NONE, ACTIVE_SECOND, ACTIVE_THIRD, canonical, identity, members, pair_key,
    representative,
};
use crate::rank::{
    average, average_of, display_rank_at, is_rank_order, items_of, median, median_of, rank_items,
    rank_order_of, ratio, Ratio,
};
use crate::ranked::{lemma_ranking_names_members, lemma_voted_among_members};
use crate::ranking::{
    bins_of, copy_trend, rank_keys, rank_offset, rank_offset_of, ranking_names, ranking_votes,
    tally_error, tally_error_kind, trend, trend_of, voted_keys, voted_names,
};
use crate::service_error::{bare_error, SERVICE_NAME, ServiceError};
use crate::tally::{
    Counted, female_for, first_for, item_names, ItemTally, lemma_support_bounds, male_for, note,
    note_first, note_picks, opt_identity, pair_picks_view, pair_step, pairs_all, reasons_for,
    seen_names, supporters_for, tag_for, Tally, TallyError, votes_for,
};
use crate::text::{clone_texts, copy_opt, distinct, opt_text, texts};
use crate::totals::{lemma_sum_for_bound, lemma_sum_for_grows, stat_for, sum_for, total_for, Total};

verus! {

/// The fewest supporting ballots with which a pairing is ranked: a pairing
/// that a single ballot names, however often, is left out.
pub const MIN_PAIR_BALLOTS: u32 = 2;

/// One pairing of the ranking.
#[derive(Clone, Debug)]
pub struct CPRankingEntry {
    pub rank: usize,
    pub display_rank: usize,
    /// The pairing, its members in lexicographic order.
    pub cp: CPItem,
    /// Votes that name the first member as the active partner, over votes.
    pub a_active: Ratio,
    /// Votes that name the second member as the active partner, over votes.
    pub b_active: Ratio,
    /// Votes that name the third member as the active partner, over votes.
    pub c_active: Ratio,
    /// Votes that name no active partner, over votes.
    pub none_active: Ratio,
    pub vote_count: u32,
    pub first_vote_count: u32,
    pub first_vote_percentage: Ratio,
    pub first_vote_count_weighted: u64,
    pub vote_percentage: Ratio,
    pub first_percentage: Ratio,
    pub male_vote_count: u32,
    pub male_percentage_per_char: Ratio,
    pub male_percentage_per_total: Ratio,
    pub female_vote_count: u32,
    pub female_percentage_per_char: Ratio,
    pub female_percentage_per_total: Ratio,
    pub trend: Vec<VotingTrendItem>,
    pub reasons: Vec<String>,
}

/// The answer to a pairing ranking request.
#[derive(Clone, Debug)]
pub struct CPRankingQueryResponse {
    pub entries: Vec<CPRankingEntry>,
    pub global: RankingGlobal,
}

/// The pairing stands for all pairings of its identity: its members are in
/// lexicographic order, and it names neither active partner nor reason.
pub open spec fn is_representative(p: CPItem) -> bool {
    &&& sorted_by(members(p), by_text())
    &&& p.active.is_none()
    &&& p.reason.is_none()
}

/// The identities of a list of pairings.
pub open spec fn rep_keys(reps: Seq<CPItem>) -> Seq<Seq<char>> {
    Seq::new(reps.len(), |i: int| identity(reps[i]))
}

/// A total of the pairing ranking of the counted sections `h`: it is taken
/// over the ranked pairings alone. What the sections say of a pairing that
/// fewer than `MIN_PAIR_BALLOTS` of them name goes into no total.
pub open spec fn ranked_total(h: Seq<Counted>, which: Total) -> nat {
    sum_for(voted_names(h, MIN_PAIR_BALLOTS as nat), h, which)
}

/// The statistics of the entry are those of the identity of its pairing,
/// its shares of a total those of the total over the ranked pairings.
pub open spec fn pair_entry_ok(e: CPRankingEntry, h: Seq<Counted>) -> bool {
    let n = identity(e.cp);
    let votes = votes_for(h, n);
    let first = first_for(h, n);
    let male = male_for(h, n);
    let female = female_for(h, n);
    &&& is_representative(e.cp)
    &&& e.a_active == ratio(tag_for(h, n, ACTIVE_FIRST as int) as int, votes as int)
    &&& e.b_active == ratio(tag_for(h, n, ACTIVE_SECOND as int) as int, votes as int)
    &&& e.c_active == ratio(tag_for(h, n, ACTIVE_THIRD as int) as int, votes as int)
    &&& e.none_active == ratio(tag_for(h, n, ACTIVE_NONE as int) as int, votes as int)
    &&& e.vote_count == votes
    &&& e.first_vote_count == first
    &&& e.first_vote_percentage == ratio(first as int, votes as int)
    &&& e.first_vote_count_weighted == votes + first
    &&& e.vote_percentage == ratio(votes as int, ranked_total(h, Total::Votes) as int)
    &&& e.first_percentage == ratio(first as int, ranked_total(h, Total::First) as int)
    &&& e.male_vote_count == male
    &&& e.male_percentage_per_char == ratio(male as int, votes as int)
    &&& e.male_percentage_per_total == ratio(male as int, ranked_total(h, Total::Male) as int)
    &&& e.female_vote_count == female
    &&& e.female_percentage_per_char == ratio(female as int, votes as int)
    &&& e.female_percentage_per_total == ratio(female as int, ranked_total(h, Total::Female) as int)
    &&& e.trend@ == trend_of(bins_of(h, n), TREND_WINDOW_HOURS as int)
    &&& texts(e.reasons@) == reasons_for(h, n)
}

/// The identities of the pairings of a ranking, in order.
pub open spec fn pair_entry_keys(entries: Seq<CPRankingEntry>) -> Seq<Seq<char>> {
    Seq::new(entries.len(), |i: int| identity(entries[i].cp))
}

/// The vote counts of the pairings of a ranking, in order.
pub open spec fn pair_entry_votes(entries: Seq<CPRankingEntry>) -> Seq<u32> {
    Seq::new(entries.len(), |i: int| entries[i].vote_count)
}

/// The summary of the pairing ranking of the counted sections `h`: the
/// number of the ranked pairings, and the totals, mean and median of
/// their votes. A pairing that is not ranked takes no part in it.
pub open spec fn pair_global_of(h: Seq<Counted>) -> RankingGlobal {
    let min = MIN_PAIR_BALLOTS as nat;
    RankingGlobal {
        total_unique_items: voted_names(h, min).len() as usize,
        total_first: ranked_total(h, Total::First) as u32,
        total_votes: ranked_total(h, Total::Votes) as u32,
        average_votes_per_item: average_of(
            ranked_total(h, Total::Votes) as u64,
            voted_names(h, min).len() as usize,
        ),
        median_votes_per_item: median_of(ranking_votes(h, min)),
    }
}

/// `resp` is the pairing ranking of the counted sections `h`: the
/// identities that at least `MIN_PAIR_BALLOTS` sections name, in rank
/// order, each with its statistics; dense ranks 1, 2, 3, ...; display ranks
/// shared across equal vote counts.
pub open spec fn cps_ranking_ok(resp: CPRankingQueryResponse, h: Seq<Counted>) -> bool {
    let entries = resp.entries@;
    &&& pair_entry_keys(entries) == ranking_names(h, MIN_PAIR_BALLOTS as nat)
    &&& forall|p: int| 0 <= p < entries.len() ==> (#[trigger] entries[p]).rank == p + 1
    &&& forall|p: int| 0 <= p < entries.len()
        ==> (#[trigger] entries[p]).display_rank == display_rank_at(pair_entry_votes(entries), p)
    &&& forall|p: int| 0 <= p < entries.len() ==> pair_entry_ok(#[trigger] entries[p], h)
    &&& resp.global == pair_global_of(h)
}

/// A representative is its own canonical form.
proof fn lemma_representative_identity(r: CPItem, p: CPItem)
    requires
        members(r) == canonical(p),
    ensures
        identity(r) == identity(p),
        sorted_by(members(r), by_text()),
{
    lemma_text_order_total();
    members(p).lemma_sort_by_ensures(by_text());
    lemma_sorted_texts_unique(members(r), members(r));
}

/// An identity has one representative: two representatives of one
/// identity name the same members in the same order.
pub proof fn lemma_representative_unique(r: CPItem, s: CPItem)
    requires
        is_representative(r),
        is_representative(s),
        identity(r) == identity(s),
    ensures
        members(r) == members(s),
{
    lemma_sorted_texts_unique(members(r), members(r));
    lemma_sorted_texts_unique(members(s), members(s));
    crate::frame::lemma_framed_list_injective(canonical(r), canonical(s));
}

/// The names noted after some of the picks are the first of the names
/// noted after all of them.
proof fn lemma_note_prefix(seen: Seq<Seq<char>>, picks: Seq<crate::ballot::PickView>, j: int)
    requires
        0 <= j <= picks.len(),
    ensures
        note_picks(seen, picks.take(j)).len() <= note_picks(seen, picks).len(),
        forall|i: int| 0 <= i < note_picks(seen, picks.take(j)).len()
            ==> note_picks(seen, picks.take(j))[i] == note_picks(seen, picks)[i],
    decreases picks.len(),
{
    if j == picks.len() {
        assert(picks.take(j) =~= picks);
    } else {
        assert(picks.drop_last().take(j) =~= picks.take(j));
        lemma_note_prefix(seen, picks.drop_last(), j);
    }
}

fn copy_pair(p: &CPItem) -> (r: CPItem)
    ensures
        members(r) == members(*p),
        opt_text(r.active) == opt_text(p.active),
        opt_text(r.reason) == opt_text(p.reason),
        identity(r) == identity(*p),
{
    let r = CPItem { a: p.a.clone(), b: p.b.clone(), c: copy_opt(&p.c), active: copy_opt(&p.active),
        reason: copy_opt(&p.reason) };
    proof {
        assert(members(r) =~= members(*p));
    }
    r
}

/// The streaming accumulator of a pairing ranking.
pub struct PairTally {
    tally: Tally,
    reps: Vec<CPItem>,
}

impl View for PairTally {
    type V = Seq<Counted>;

    /// The pairing sections counted so far, in order.
    closed spec fn view(&self) -> Seq<Counted> {
        self.tally@
    }
}

impl PairTally {
    /// The start of the poll, in milliseconds since the epoch.
    pub closed spec fn start(&self) -> i64 {
        self.tally.start()
    }

    /// The counters hold what the counted sections say, and every identity
    /// counted has its representative.
    pub closed spec fn wf(&self) -> bool {
        &&& self.tally.wf()
        &&& rep_keys(self.reps@) == seen_names(self.tally@)
        &&& forall|i: int| 0 <= i < self.reps.len() ==> is_representative(#[trigger] self.reps[i])
    }

    /// An accumulator for a poll that started at `start`, with nothing
    /// counted.
    pub fn new(start: i64) -> (t: PairTally)
        ensures
            t.wf(),
            t@ == Seq::<Counted>::empty(),
            t.start() == start,
    {
        let t = PairTally { tally: Tally::new(start), reps: Vec::new() };
        proof {
            assert(rep_keys(t.reps@) =~= seen_names(t.tally@));
        }
        t
    }

    /// Notes the representative of the pairing `p`, unless it is there.
    fn note_pair(&mut self, p: &CPItem, Ghost(full): Ghost<Seq<Seq<char>>>)
        requires
            old(self).tally.wf(),
            full == seen_names(old(self).tally@),
            full.contains(identity(*p)),
            rep_keys(old(self).reps@).len() <= full.len(),
            forall|i: int| 0 <= i < old(self).reps.len() ==> rep_keys(old(self).reps@)[i] == full[i],
            forall|i: int| 0 <= i < old(self).reps.len() ==> is_representative(#[trigger] old(self).reps[i]),
            note(rep_keys(old(self).reps@), identity(*p)).len() <= full.len(),
            forall|i: int| 0 <= i < note(rep_keys(old(self).reps@), identity(*p)).len()
                ==> note(rep_keys(old(self).reps@), identity(*p))[i]
                == full[i],
        ensures
            final(self).tally == old(self).tally,
            rep_keys(final(self).reps@) == note(rep_keys(old(self).reps@), identity(*p)),
            forall|i: int| 0 <= i < final(self).reps.len() ==> is_representative(#[trigger] final(self).reps[i]),
    {
        let key = pair_key(p);
        let ghost keys = rep_keys(self.reps@);
        proof {
            self.tally.lemma_seen_distinct();
        }
        let i = self.tally.slot_of(key.as_str()).unwrap();
        if i >= self.reps.len() {
            proof {
                if keys.contains(key@) {
                    let x = choose|x: int| 0 <= x < keys.len() && keys[x] == key@;
                    assert(full[x] == key@);
                }
            }
            let r = representative(p);
            proof {
                lemma_representative_identity(r, *p);
            }
            self.reps.push(r);
            proof {
                assert(rep_keys(self.reps@) =~= keys.push(key@));
            }
        } else {
            proof {
                assert(keys[i as int] == full[i as int]);
                assert(keys.contains(key@));
            }
        }
    }

    /// Offers the pairing section of one ballot. A ballot without the
    /// section, or with an empty one, changes nothing. A section outside
    /// the trend window, or one that would overflow the vote count, is
    /// refused and changes nothing. Any other section is counted.
    pub fn add_ballot(&mut self, ballot: &Ballot) -> (r: Result<(), TallyError>)
        requires
            old(self).wf(),
        ensures
            final(self).wf(),
            final(self).start() == old(self).start(),
            match pair_step(old(self)@, old(self).start(), *ballot) {
                Ok(h) => r.is_ok() && final(self)@ == h,
                Err(e) => r == Err::<(), TallyError>(e) && final(self)@ == old(self)@,
            },
    {
        let ghost h = self.tally@;
        match self.tally.add_pair_ballot(ballot) {
            Ok(()) => {},
            Err(e) => {
                return Err(e);
            },
        }
        let votes = match &ballot.cps {
            Some(v) => v,
            None => {
                return Ok(());
            },
        };
        if votes.picks.len() == 0 {
            return Ok(());
        }
        let ghost picks = pair_picks_view(votes.picks@);
        let ghost first = opt_identity(votes.first);
        let ghost full = seen_names(self.tally@);
        let ghost start = note_first(seen_names(h), first);
        proof {
            assert(self.tally@.drop_last() =~= h);
            assert(full == note_picks(start, picks));
            lemma_note_prefix(start, picks, 0);
            assert(picks.take(0) =~= Seq::empty());
        }
        match &votes.first {
            Some(p) => {
                proof {
                    assert(start.contains(identity(*p))) by {
                        if seen_names(h).contains(identity(*p)) {
                        } else {
                            assert(start[seen_names(h).len() as int] == identity(*p));
                        }
                    }
                    let x = choose|x: int| 0 <= x < start.len() && start[x] == identity(*p);
                    assert(full[x] == identity(*p));
                }
                self.note_pair(p, Ghost(full));
            },
            None => {},
        }
        let mut j: usize = 0;
        while j < votes.picks.len()
            invariant
                j <= votes.picks.len(),
                picks == pair_picks_view(votes.picks@),
                self.tally.wf(),
                full == seen_names(self.tally@),
                full == note_picks(start, picks),
                rep_keys(self.reps@) == note_picks(start, picks.take(j as int)),
                forall|i: int| 0 <= i < self.reps.len() ==> is_representative(#[trigger] self.reps[i]),
                self.tally.start() == old(self).tally.start(),
                self.tally@ == pair_step(h, old(self).tally.start(), *ballot).unwrap(),
            decreases votes.picks.len() - j,
        {
            let p = &votes.picks[j];
            proof {
                lemma_note_prefix(start, picks, j as int);
                lemma_note_prefix(start, picks, j as int + 1);
                assert(picks.take(j as int + 1).drop_last() =~= picks.take(j as int));
                assert(picks.take(j as int + 1).last() == picks[j as int]);
                assert(picks[j as int].name == identity(*p));
                let next = note_picks(start, picks.take(j as int + 1));
                assert(next.contains(identity(*p))) by {
                    let prev = note_picks(start, picks.take(j as int));
                    if prev.contains(identity(*p)) {
                    } else {
                        assert(next[prev.len() as int] == identity(*p));
                    }
                }
                let x = choose|x: int| 0 <= x < next.len() && next[x] == identity(*p);
                assert(full[x] == identity(*p));
            }
            self.note_pair(p, Ghost(full));
            j += 1;
        }
        proof {
            assert(picks.take(votes.picks.len() as int) =~= picks);
        }
        Ok(())
    }
}

fn pair_entry(
    item: &ItemTally,
    rep: &CPItem,
    rank: usize,
    display_rank: usize,
    total_votes: u32,
    total_first: u32,
    total_male: u32,
    total_female: u32,
    Ghost(h): Ghost<Seq<Counted>>,
) -> (e: CPRankingEntry)
    requires
        item.agrees(h),
        identity(*rep) == item.name@,
        is_representative(*rep),
        total_votes == ranked_total(h, Total::Votes),
        total_first == ranked_total(h, Total::First),
        total_male == ranked_total(h, Total::Male),
        total_female == ranked_total(h, Total::Female),
    ensures
        pair_entry_ok(e, h),
        identity(e.cp) == item.name@,
        e.rank == rank,
        e.display_rank == display_rank,
        e.vote_count == item.vote_count,
{
    let votes = item.vote_count;
    let first = item.first_count;
    proof {
        assert(item.bins@ =~= bins_of(h, item.name@));
        assert(item.tags[ACTIVE_FIRST as int] == tag_for(h, item.name@, ACTIVE_FIRST as int));
        assert(item.tags[ACTIVE_SECOND as int] == tag_for(h, item.name@, ACTIVE_SECOND as int));
        assert(item.tags[ACTIVE_THIRD as int] == tag_for(h, item.name@, ACTIVE_THIRD as int));
        assert(item.tags[ACTIVE_NONE as int] == tag_for(h, item.name@, ACTIVE_NONE as int));
    }
    let cp = copy_pair(rep);
    proof {
        assert(cp.active.is_none() && cp.reason.is_none());
    }
    CPRankingEntry {
        rank,
        display_rank,
        cp,
        a_active: Ratio::guarded(item.tags[ACTIVE_FIRST] as u64, votes as u64),
        b_active: Ratio::guarded(item.tags[ACTIVE_SECOND] as u64, votes as u64),
        c_active: Ratio::guarded(item.tags[ACTIVE_THIRD] as u64, votes as u64),
        none_active: Ratio::guarded(item.tags[ACTIVE_NONE] as u64, votes as u64),
        vote_count: votes,
        first_vote_count: first,
        first_vote_percentage: Ratio::guarded(first as u64, votes as u64),
        first_vote_count_weighted: votes as u64 + first as u64,
        vote_percentage: Ratio::guarded(votes as u64, total_votes as u64),
        first_percentage: Ratio::guarded(first as u64, total_first as u64),
        male_vote_count: item.male_count,
        male_percentage_per_char: Ratio::guarded(item.male_count as u64, votes as u64),
        male_percentage_per_total: Ratio::guarded(item.male_count as u64, total_male as u64),
        female_vote_count: item.female_count,
        female_percentage_per_char: Ratio::guarded(item.female_count as u64, votes as u64),
        female_percentage_per_total: Ratio::guarded(item.female_count as u64, total_female as u64),
        trend: trend(&item.bins),
        reasons: clone_texts(&item.reasons),
    }
}

/// The names at increasing places among names that differ also differ.
proof fn lemma_ranked_distinct(items: Seq<ItemTally>, voted: Seq<usize>, h: Seq<Counted>)
    requires
        distinct(item_names(items)),
        voted.len() == voted_names(h, MIN_PAIR_BALLOTS as nat).len(),
        forall|k: int| 0 <= k < voted.len()
            ==> (#[trigger] voted[k]) < items.len() && items[voted[k] as int].name@ == voted_names(
                h,
                MIN_PAIR_BALLOTS as nat,
            )[k],
        forall|k: int, l: int| 0 <= k < l < voted.len() ==> (#[trigger] voted[k]) < (#[trigger] voted[l]),
    ensures
        distinct(voted_names(h, MIN_PAIR_BALLOTS as nat)),
{
    let names = voted_names(h, MIN_PAIR_BALLOTS as nat);
    assert forall|k: int, l: int| 0 <= k < l < names.len() implies names[k] != names[l] by {
        assert(voted[k] < voted[l]);
        assert(item_names(items)[voted[k] as int] == names[k]);
        assert(item_names(items)[voted[l] as int] == names[l]);
    }
}

/// A statistic of a pairing that goes into a total.
#[derive(Clone, Copy)]
enum Stat {
    Votes,
    First,
    Male,
    Female,
}

/// The total that a statistic goes into.
spec fn total_of(which: Stat) -> Total {
    match which {
        Stat::Votes => Total::Votes,
        Stat::First => Total::First,
        Stat::Male => Total::Male,
        Stat::Female => Total::Female,
    }
}

fn stat_of(item: &ItemTally, which: Stat, Ghost(h): Ghost<Seq<Counted>>) -> (n: u32)
    requires
        item.agrees(h),
    ensures
        n == stat_for(h, item.name@, total_of(which)),
{
    match which {
        Stat::Votes => item.vote_count,
        Stat::First => item.first_count,
        Stat::Male => item.male_count,
        Stat::Female => item.female_count,
    }
}

impl PairTally {
    /// A pairing is ranked if and only if at least `MIN_PAIR_BALLOTS` of the
    /// counted sections name it, however often each of them does.
    pub proof fn lemma_ranked_iff_supported(&self, n: Seq<char>)
        requires
            self.wf(),
        ensures
            ranking_names(self@, MIN_PAIR_BALLOTS as nat).contains(n) <==> supporters_for(self@, n)
                >= MIN_PAIR_BALLOTS,
    {
        let h = self.tally@;
        let min = MIN_PAIR_BALLOTS as nat;
        assert(seen_names(h).len() == self.reps@.len());
        lemma_voted_among_members(seen_names(h), h, min, n);
        lemma_ranking_names_members(h, min, n);
        lemma_support_bounds(h, n);
        if !seen_names(h).contains(n) {
            self.tally.lemma_unseen(n);
        }
    }

    /// The total of one statistic over the ranked pairings.
    fn ranked_sum(&self, voted: &Vec<usize>, which: Stat) -> (sum: u32)
        requires
            self.wf(),
            distinct(voted_names(self@, MIN_PAIR_BALLOTS as nat)),
            voted.len() == voted_names(self@, MIN_PAIR_BALLOTS as nat).len(),
            forall|k: int| 0 <= k < voted.len()
                ==> (#[trigger] voted[k]) < seen_names(self@).len() && seen_names(self@)[voted[k] as int]
                == voted_names(self@, MIN_PAIR_BALLOTS as nat)[k],
        ensures
            sum == ranked_total(self@, total_of(which)),
    {
        let ghost h = self.tally@;
        let ghost names = voted_names(h, MIN_PAIR_BALLOTS as nat);
        let items = self.tally.items();
        let bound = match which {
            Stat::Votes => self.tally.total_votes(),
            Stat::First => self.tally.total_first(),
            Stat::Male => self.tally.total_male(),
            Stat::Female => self.tally.total_female(),
        };
        proof {
            lemma_sum_for_bound(names, h, total_of(which));
        }
        let mut sum: u32 = 0;
        let mut k: usize = 0;
        while k < voted.len()
            invariant
                k <= voted.len(),
                h == self.tally@,
                names == voted_names(h, MIN_PAIR_BALLOTS as nat),
                voted.len() == names.len(),
                item_names(items@) == seen_names(h),
                forall|i: int| 0 <= i < items.len() ==> (#[trigger] items[i]).agrees(h),
                forall|k: int| 0 <= k < voted.len()
                    ==> (#[trigger] voted[k]) < seen_names(h).len() && seen_names(h)[voted[k] as int] == names[k],
                bound == total_for(h, total_of(which)),
                sum_for(names, h, total_of(which)) <= bound,
                sum == sum_for(names.take(k as int), h, total_of(which)),
            decreases voted.len() - k,
        {
            let item = &items[voted[k]];
            proof {
                assert(item.agrees(h));
                assert(item_names(items@)[voted[k as int] as int] == item.name@);
                assert(names.take(k as int + 1).drop_last() =~= names.take(k as int));
                assert(names.take(k as int + 1).last() == names[k as int]);
                lemma_sum_for_grows(names, h, total_of(which), k as int + 1);
            }
            sum = sum + stat_of(item, which, Ghost(h));
            k += 1;
        }
        proof {
            assert(names.take(voted.len() as int) =~= names);
        }
        sum
    }

    /// The ranking of the pairings counted.
    pub fn ranking(&self) -> (resp: CPRankingQueryResponse)
        requires
            self.wf(),
        ensures
            cps_ranking_ok(resp, self@),
    {
        let ghost h = self.tally@;
        let ghost min = MIN_PAIR_BALLOTS as nat;
        let items = self.tally.items();
        let (voted, keys) = voted_keys(items, MIN_PAIR_BALLOTS, Ghost(h));
        proof {
            self.tally.lemma_seen_distinct();
            lemma_ranked_distinct(items@, voted@, h);
        }
        let total_votes = self.ranked_sum(&voted, Stat::Votes);
        let total_first = self.ranked_sum(&voted, Stat::First);
        let total_male = self.ranked_sum(&voted, Stat::Male);
        let total_female = self.ranked_sum(&voted, Stat::Female);
        let ranked = rank_items(&keys);
        let n = ranked.len();
        let ghost order = rank_order_of(rank_keys(h, min));
        let ghost names = ranking_names(h, min);
        let ghost votes = ranking_votes(h, min);
        let mut entries: Vec<CPRankingEntry> = Vec::new();
        let mut counts: Vec<u32> = Vec::new();
        let mut p: usize = 0;
        while p < n
            invariant
                n == ranked.len(),
                n == keys.len(),
                n == voted.len(),
                n == names.len(),
                n == votes.len(),
                p <= n,
                self.wf(),
                h == self.tally@,
                min == MIN_PAIR_BALLOTS as nat,
                order == rank_order_of(rank_keys(h, min)),
                names == ranking_names(h, min),
                votes == ranking_votes(h, min),
                keys@ == rank_keys(h, min),
                items_of(ranked@) == order,
                is_rank_order(keys@, order),
                item_names(items@) == seen_names(h),
                forall|q: int| 0 <= q < n ==> (#[trigger] ranked[q]).rank == q + 1,
                forall|q: int| 0 <= q < n ==> (#[trigger] ranked[q]).display_rank == display_rank_at(votes, q),
                forall|k: int| 0 <= k < n
                    ==> (#[trigger] voted[k]) < items.len() && items[voted[k] as int].name@ == voted_names(h, min)[k],
                forall|i: int| 0 <= i < items.len() ==> (#[trigger] items[i]).agrees(h),
                total_votes == ranked_total(h, Total::Votes),
                total_first == ranked_total(h, Total::First),
                total_male == ranked_total(h, Total::Male),
                total_female == ranked_total(h, Total::Female),
                entries.len() == p,
                counts@ == votes.take(p as int),
                forall|q: int| 0 <= q < p ==> identity((#[trigger] entries[q]).cp) == names[q],
                forall|q: int| 0 <= q < p ==> (#[trigger] entries[q]).vote_count == votes[q],
                forall|q: int| 0 <= q < p ==> (#[trigger] entries[q]).rank == q + 1,
                forall|q: int| 0 <= q < p ==> (#[trigger] entries[q]).display_rank == display_rank_at(votes, q),
                forall|q: int| 0 <= q < p ==> pair_entry_ok(#[trigger] entries[q], h),
            decreases n - p,
        {
            let r = ranked[p];
            proof {
                assert(items_of(ranked@)[p as int] == r.item);
                assert(order[p as int] < keys.len());
            }
            let slot = voted[r.item];
            let item = &items[slot];
            proof {
                assert(item.agrees(h));
                assert(rep_keys(self.reps@)[slot as int] == item_names(items@)[slot as int]);
                assert(votes[p as int] == keys[r.item as int].vote_count);
                assert(votes.take(p as int).push(item.vote_count) =~= votes.take(p as int + 1));
            }
            let e = pair_entry(item, &self.reps[slot], r.rank, r.display_rank, total_votes, total_first,
                total_male, total_female, Ghost(h));
            counts.push(item.vote_count);
            entries.push(e);
            p += 1;
        }
        proof {
            assert(votes.take(n as int) =~= votes);
            assert(pair_entry_keys(entries@) =~= names);
            assert(pair_entry_votes(entries@) =~= votes);
        }
        let global = RankingGlobal {
            total_unique_items: n,
            total_first,
            total_votes,
            average_votes_per_item: average(total_votes as u64, n),
            median_votes_per_item: median(&counts),
        };
        CPRankingQueryResponse { entries, global }
    }
}

/// `r` answers a pairing ranking request over `ballots`: the ranking of the
/// pairing sections counted, or the error of the first ballot refused.
pub open spec fn cps_result_ok(
    r: Result<CPRankingQueryResponse, ServiceError>,
    ballots: Seq<Ballot>,
    start: i64,
) -> bool {
    match pairs_all(Seq::empty(), start, ballots) {
        Ok(h) => match r {
            Ok(resp) => cps_ranking_ok(resp, h),
            Err(_) => false,
        },
        Err(e) => match r {
            Ok(_) => false,
            Err(err) => err@ == bare_error(SERVICE_NAME@, tally_error_kind(e)),
        },
    }
}

/// Once a ballot is refused, the pass over any longer list fails the same way.
proof fn lemma_pairs_all_fails(start: i64, ballots: Seq<Ballot>, k: int)
    requires
        0 <= k <= ballots.len(),
        pairs_all(Seq::empty(), start, ballots.take(k)).is_err(),
    ensures
        pairs_all(Seq::empty(), start, ballots) == pairs_all(Seq::empty(), start, ballots.take(k)),
    decreases ballots.len(),
{
    if k == ballots.len() {
        assert(ballots.take(k) =~= ballots);
    } else {
        assert(ballots.drop_last().take(k) =~= ballots.take(k));
        lemma_pairs_all_fails(start, ballots.drop_last(), k);
    }
}

/// The pairing ranking over the ballots that a filter matched.
pub fn cps_ranking(
    ballots: &Vec<Ballot>,
    vote_start: i64,
) -> (r: Result<CPRankingQueryResponse, ServiceError>)
    ensures
        cps_result_ok(r, ballots@, vote_start),
{
    let mut tally = PairTally::new(vote_start);
    let mut i: usize = 0;
    while i < ballots.len()
        invariant
            i <= ballots.len(),
            tally.wf(),
            tally.start() == vote_start,
            pairs_all(Seq::empty(), vote_start, ballots@.take(i as int)) == Ok::<Seq<Counted>, TallyError>(tally@),
        decreases ballots.len() - i,
    {
        proof {
            assert(ballots@.take(i as int + 1).drop_last() =~= ballots@.take(i as int));
            assert(ballots@.take(i as int + 1).last() == ballots@[i as int]);
        }
        match tally.add_ballot(&ballots[i]) {
            Ok(()) => {},
            Err(e) => {
                proof {
                    lemma_pairs_all_fails(vote_start, ballots@, i as int + 1);
                }
                return Err(tally_error(e));
            },
        }
        i += 1;
    }
    proof {
        assert(ballots@.take(ballots.len() as int) =~= ballots@);
    }
    Ok(tally.ranking())
}

/// The reasons given for the pairing at `rank` of a cached ranking; none
/// where the ranking has no such entry.
pub fn cps_reasons(entries: &Vec<CPRankingEntry>, rank: i32) -> (resp: ReasonsResponse)
    ensures
        texts(resp.reasons@) == (if rank_offset_of(rank) < entries.len() {
            texts(entries[rank_offset_of(rank)].reasons@)
        } else {
            Seq::<Seq<char>>::empty()
        }),
{
    let offset = rank_offset(rank);
    if offset < entries.len() {
        ReasonsResponse { reasons: clone_texts(&entries[offset].reasons) }
    } else {
        let reasons: Vec<String> = Vec::new();
        proof {
            assert(texts(reasons@) =~= Seq::<Seq<char>>::empty());
        }
        ReasonsResponse { reasons }
    }
}

/// The trend of the pairing at `rank` of a cached ranking; empty where the
/// ranking has no such entry. A pairing has no first-choice trend.
pub fn cps_trend(entries: &Vec<CPRankingEntry>, rank: i32) -> (resp: TrendResponse)
    ensures
        resp.trend_first@ == Seq::<VotingTrendItem>::empty(),
        resp.trend@ == (if rank_offset_of(rank) < entries.len() {
            entries[rank_offset_of(rank)].trend@
        } else {
            Seq::<VotingTrendItem>::empty()
        }),
{
    let offset = rank_offset(rank);
    if offset < entries.len() {
        TrendResponse { trend: copy_trend(&entries[offset].trend), trend_first: Vec::new() }
    } else {
        TrendResponse { trend: Vec::new(), trend_first: Vec::new() }
    }
}

} // verus!
