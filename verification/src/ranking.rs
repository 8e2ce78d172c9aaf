//! Character and music rankings: the counted sections turned into ranked
//! entries with their statistics, and the summary of the ranking.

use vstd::hash_map::StringHashMap;
use vstd::prelude::*;
use crate::ballot::{Ballot, Section, TREND_WINDOW_HOURS};
use crate::catalog::{last_row, Metadata, metadata_ok, row_metadata, unknown_metadata};
use crate::models::{
    PartialVoteItemEntry, RankingEntry, RankingGlobal, RankingQueryResponse, ReasonsResponse,
    TrendResponse, VotingTrendItem,
};
use crate::rank::{
    average, average_of, display_rank_at, is_rank_order, items_of, lemma_display_rank_prefix,
    lemma_rank_order_injective, median, median_of, rank_items, rank_order_of, RankKey, ratio, Ratio,
    votes_in_order,
};
use crate::service_error::{bare_error, SERVICE_NAME, ServiceError};
use crate::tally::{
    bin_first_for, bin_for, Counted, female_for, first_for, item_names, ItemTally,
    lemma_support_bounds, male_for, note, reasons_for, seen_names, supporters_for, Tally, tally_all,
    tally_ballots, TallyError, total_female_of, total_first_of, total_male_of, total_votes_of,
    votes_for,
};
use crate::text::{clone_texts, distinct, texts};

verus! {

/// The points of a histogram: one for each non-empty bucket among the first
/// `k`, in the order of the buckets.
pub open spec fn trend_of(bins: Seq<u32>, k: int) -> Seq<VotingTrendItem>
    decreases k,
{
    if k <= 0 {
        Seq::empty()
    } else {
        let rest = trend_of(bins, k - 1);
        if bins[k - 1] != 0 {
            rest.push(VotingTrendItem { hrs: (k - 1) as usize, cnt: bins[k - 1] })
        } else {
            rest
        }
    }
}

/// The trend of a histogram.
pub fn trend(bins: &Vec<u32>) -> (t: Vec<VotingTrendItem>)
    ensures
        t@ == trend_of(bins@, bins.len() as int),
{
    let mut t: Vec<VotingTrendItem> = Vec::new();
    let mut k: usize = 0;
    while k < bins.len()
        invariant
            k <= bins.len(),
            t@ == trend_of(bins@, k as int),
        decreases bins.len() - k,
    {
        if bins[k] != 0 {
            t.push(VotingTrendItem { hrs: k, cnt: bins[k] });
        }
        k += 1;
    }
    t
}

/// The hourly histogram of the votes for `n`.
pub open spec fn bins_of(h: Seq<Counted>, n: Seq<char>) -> Seq<u32> {
    Seq::new(TREND_WINDOW_HOURS as nat, |hr: int| bin_for(h, n, hr) as u32)
}

/// The hourly histogram of the first-choice votes for `n`.
pub open spec fn bins_first_of(h: Seq<Counted>, n: Seq<char>) -> Seq<u32> {
    Seq::new(TREND_WINDOW_HOURS as nat, |hr: int| bin_first_for(h, n, hr) as u32)
}

/// Those of `names` that at least `min` counted sections pick, in the same
/// order.
pub open spec fn voted_among(names: Seq<Seq<char>>, h: Seq<Counted>, min: nat) -> Seq<Seq<char>>
    decreases names.len(),
{
    if names.len() == 0 {
        Seq::empty()
    } else {
        let rest = voted_among(names.drop_last(), h, min);
        if supporters_for(h, names.last()) >= min {
            rest.push(names.last())
        } else {
            rest
        }
    }
}

/// The names that at least `min` counted sections pick, in the order of
/// first mention.
pub open spec fn voted_names(h: Seq<Counted>, min: nat) -> Seq<Seq<char>> {
    voted_among(seen_names(h), h, min)
}

/// What the voted names are ranked by.
pub open spec fn rank_keys(h: Seq<Counted>, min: nat) -> Seq<RankKey> {
    Seq::new(
        voted_names(h, min).len(),
        |k: int| RankKey { vote_count: votes_for(h, voted_names(h, min)[k]) as u32, first_count: first_for(h,
            voted_names(h, min)[k]) as u32 },
    )
}

/// The names that at least `min` counted sections pick, in rank order.
pub open spec fn ranking_names(h: Seq<Counted>, min: nat) -> Seq<Seq<char>> {
    Seq::new(voted_names(h, min).len(), |p: int| voted_names(h, min)[rank_order_of(rank_keys(h, min))[p] as int])
}

/// The vote counts of the names that at least `min` counted sections pick,
/// in rank order.
pub open spec fn ranking_votes(h: Seq<Counted>, min: nat) -> Seq<u32> {
    votes_in_order(rank_keys(h, min), rank_order_of(rank_keys(h, min)))
}

/// `seen` followed by those of `names` that it lacks, each once.
pub open spec fn note_each(seen: Seq<Seq<char>>, names: Seq<Seq<char>>) -> Seq<Seq<char>>
    decreases names.len(),
{
    if names.len() == 0 {
        seen
    } else {
        note(note_each(seen, names.drop_last()), names.last())
    }
}

/// The names of the rows of a catalog.
pub open spec fn catalog_names(catalog: Seq<PartialVoteItemEntry>) -> Seq<Seq<char>> {
    Seq::new(catalog.len(), |i: int| catalog[i].name@)
}

/// The names of the entries of a ranking, in order.
pub open spec fn entry_names(entries: Seq<RankingEntry>) -> Seq<Seq<char>> {
    Seq::new(entries.len(), |i: int| entries[i].name@)
}

/// The vote counts of the entries of a ranking, in order.
pub open spec fn entry_votes(entries: Seq<RankingEntry>) -> Seq<u32> {
    Seq::new(entries.len(), |i: int| entries[i].vote_count)
}

/// The descriptive fields of an entry.
pub open spec fn entry_metadata(e: RankingEntry) -> Metadata {
    Metadata {
        character_type: e.character_type,
        character_origin: e.character_origin,
        first_appearance: e.first_appearance,
        name_jpn: e.name_jpn,
    }
}

/// The statistics of a ranked entry are those of its name.
pub open spec fn ranked_entry_ok(e: RankingEntry, h: Seq<Counted>) -> bool {
    let n = e.name@;
    let votes = votes_for(h, n);
    let first = first_for(h, n);
    let male = male_for(h, n);
    let female = female_for(h, n);
    &&& e.vote_count == votes
    &&& e.first_vote_count == first
    &&& e.first_vote_percentage == ratio(first as int, votes as int)
    &&& e.first_vote_count_weighted == votes + first
    &&& e.vote_percentage == ratio(votes as int, total_votes_of(h) as int)
    &&& e.first_percentage == ratio(first as int, total_first_of(h) as int)
    &&& e.male_vote_count == male
    &&& e.male_percentage_per_char == ratio(male as int, votes as int)
    &&& e.male_percentage_per_total == ratio(male as int, total_male_of(h) as int)
    &&& e.female_vote_count == female
    &&& e.female_percentage_per_char == ratio(female as int, votes as int)
    &&& e.female_percentage_per_total == ratio(female as int, total_female_of(h) as int)
    &&& e.trend@ == trend_of(bins_of(h, n), TREND_WINDOW_HOURS as int)
    &&& e.trend_first@ == trend_of(bins_first_of(h, n), TREND_WINDOW_HOURS as int)
    &&& texts(e.reasons@) == reasons_for(h, n)
}

/// All statistics of the entry are zero.
pub open spec fn zero_entry_ok(e: RankingEntry) -> bool {
    let zero = Ratio { num: 0, den: 1 };
    &&& e.vote_count == 0
    &&& e.first_vote_count == 0
    &&& e.first_vote_percentage == zero
    &&& e.first_vote_count_weighted == 0
    &&& e.vote_percentage == zero
    &&& e.first_percentage == zero
    &&& e.male_vote_count == 0
    &&& e.male_percentage_per_char == zero
    &&& e.male_percentage_per_total == zero
    &&& e.female_vote_count == 0
    &&& e.female_percentage_per_char == zero
    &&& e.female_percentage_per_total == zero
    &&& e.trend@ == Seq::<VotingTrendItem>::empty()
    &&& e.trend_first@ == Seq::<VotingTrendItem>::empty()
    &&& e.reasons@ == Seq::<String>::empty()
}

/// The summary of the ranking of the counted sections `h`.
pub open spec fn global_of(h: Seq<Counted>) -> RankingGlobal {
    RankingGlobal {
        total_unique_items: voted_names(h, 1).len() as usize,
        total_first: total_first_of(h) as u32,
        total_votes: total_votes_of(h) as u32,
        average_votes_per_item: average_of(total_votes_of(h) as u64, voted_names(h, 1).len() as usize),
        median_votes_per_item: median_of(ranking_votes(h, 1)),
    }
}

/// The names that a ranking lists: the voted names in rank order and, for
/// a request on the whole dataset, the catalog's other names after them.
pub open spec fn listed_names(
    h: Seq<Counted>,
    catalog: Seq<PartialVoteItemEntry>,
    whole: bool,
) -> Seq<Seq<char>> {
    if whole {
        note_each(ranking_names(h, 1), catalog_names(catalog))
    } else {
        ranking_names(h, 1)
    }
}

/// `resp` is the ranking of the counted sections `h`: the voted names in
/// rank order, each with its statistics; after them, for a request on the
/// whole dataset, the catalog's other names with zero statistics; dense
/// ranks 1, 2, 3, ...; display ranks shared across equal vote counts; the
/// metadata of each name from the catalog.
pub open spec fn ranking_ok(
    resp: RankingQueryResponse,
    h: Seq<Counted>,
    catalog: Seq<PartialVoteItemEntry>,
    whole: bool,
) -> bool {
    let ranked = ranking_names(h, 1);
    let entries = resp.entries@;
    &&& entry_names(entries) == listed_names(h, catalog, whole)
    &&& distinct(entry_names(entries))
    &&& forall|p: int| 0 <= p < entries.len() ==> (#[trigger] entries[p]).rank == p + 1
    &&& forall|p: int| 0 <= p < entries.len()
        ==> (#[trigger] entries[p]).display_rank == display_rank_at(entry_votes(entries), p)
    &&& forall|p: int| 0 <= p < entries.len()
        ==> metadata_ok(entry_metadata(#[trigger] entries[p]), catalog, entries[p].name@)
    &&& forall|p: int| 0 <= p < entries.len() && p < ranked.len() ==> ranked_entry_ok(#[trigger] entries[p], h)
    &&& forall|p: int| ranked.len() <= p < entries.len() ==> zero_entry_ok(#[trigger] entries[p])
    &&& resp.global == global_of(h)
}

proof fn lemma_last_row(catalog: Seq<PartialVoteItemEntry>, n: Seq<char>)
    ensures
        match last_row(catalog, n) {
            Some(r) => 0 <= r < catalog.len() && catalog[r].name@ == n,
            None => forall|i: int| 0 <= i < catalog.len() ==> (#[trigger] catalog[i]).name@ != n,
        },
    decreases catalog.len(),
{
    if catalog.len() > 0 && catalog.last().name@ != n {
        lemma_last_row(catalog.drop_last(), n);
        match last_row(catalog.drop_last(), n) {
            Some(r) => {},
            None => {
                assert forall|i: int| 0 <= i < catalog.len() implies (#[trigger] catalog[i]).name@ != n by {
                    if i < catalog.len() - 1 {
                        assert(catalog.drop_last()[i] == catalog[i]);
                    }
                }
            },
        }
    }
}

/// The catalog's rows by name; of two rows with one name the later.
fn catalog_rows(catalog: &Vec<PartialVoteItemEntry>) -> (rows: StringHashMap<usize>)
    ensures
        forall|n: Seq<char>| (#[trigger] rows@.contains_key(n)) <==> last_row(catalog@, n).is_some(),
        forall|n: Seq<char>| (#[trigger] rows@.contains_key(n)) ==> last_row(catalog@, n) == Some(rows@[n] as int),
{
    let mut rows: StringHashMap<usize> = StringHashMap::new();
    let mut r: usize = 0;
    while r < catalog.len()
        invariant
            r <= catalog.len(),
            forall|n: Seq<char>| (#[trigger] rows@.contains_key(n))
                <==> last_row(catalog@.take(r as int), n).is_some(),
            forall|n: Seq<char>| (#[trigger] rows@.contains_key(n))
                ==> last_row(catalog@.take(r as int), n) == Some(rows@[n] as int),
        decreases catalog.len() - r,
    {
        rows.insert(catalog[r].name.clone(), r);
        proof {
            assert(catalog@.take(r as int + 1).drop_last() =~= catalog@.take(r as int));
            assert(catalog@.take(r as int + 1).last() == catalog@[r as int]);
        }
        r += 1;
    }
    proof {
        assert(catalog@.take(catalog.len() as int) =~= catalog@);
    }
    rows
}

fn metadata_for(
    rows: &StringHashMap<usize>,
    catalog: &Vec<PartialVoteItemEntry>,
    name: &String,
) -> (m: Metadata)
    requires
        forall|n: Seq<char>| (#[trigger] rows@.contains_key(n)) <==> last_row(catalog@, n).is_some(),
        forall|n: Seq<char>| (#[trigger] rows@.contains_key(n)) ==> last_row(catalog@, n) == Some(rows@[n] as int),
    ensures
        metadata_ok(m, catalog@, name@),
{
    proof {
        lemma_last_row(catalog@, name@);
    }
    match rows.get(name.as_str()) {
        Some(r) => row_metadata(&catalog[*r]),
        None => unknown_metadata(),
    }
}

fn ranked_entry(
    item: &ItemTally,
    rank: usize,
    display_rank: usize,
    meta: Metadata,
    total_votes: u32,
    total_first: u32,
    total_male: u32,
    total_female: u32,
    Ghost(h): Ghost<Seq<Counted>>,
) -> (e: RankingEntry)
    requires
        item.agrees(h),
        total_votes == total_votes_of(h),
        total_first == total_first_of(h),
        total_male == total_male_of(h),
        total_female == total_female_of(h),
    ensures
        ranked_entry_ok(e, h),
        e.name@ == item.name@,
        e.rank == rank,
        e.display_rank == display_rank,
        entry_metadata(e) == meta,
{
    let votes = item.vote_count;
    let first = item.first_count;
    proof {
        assert(item.bins@ =~= bins_of(h, item.name@));
        assert(item.bins_first@ =~= bins_first_of(h, item.name@));
    }
    RankingEntry {
        rank,
        display_rank,
        name: item.name.clone(),
        vote_count: votes,
        first_vote_count: first,
        first_vote_percentage: Ratio::guarded(first as u64, votes as u64),
        first_vote_count_weighted: votes as u64 + first as u64,
        character_type: meta.character_type,
        character_origin: meta.character_origin,
        first_appearance: meta.first_appearance,
        name_jpn: meta.name_jpn,
        vote_percentage: Ratio::guarded(votes as u64, total_votes as u64),
        first_percentage: Ratio::guarded(first as u64, total_first as u64),
        male_vote_count: item.male_count,
        male_percentage_per_char: Ratio::guarded(item.male_count as u64, votes as u64),
        male_percentage_per_total: Ratio::guarded(item.male_count as u64, total_male as u64),
        female_vote_count: item.female_count,
        female_percentage_per_char: Ratio::guarded(item.female_count as u64, votes as u64),
        female_percentage_per_total: Ratio::guarded(item.female_count as u64, total_female as u64),
        trend: trend(&item.bins),
        trend_first: trend(&item.bins_first),
        reasons: clone_texts(&item.reasons),
    }
}

fn zero_entry(name: String, meta: Metadata) -> (e: RankingEntry)
    ensures
        zero_entry_ok(e),
        e.name == name,
        entry_metadata(e) == meta,
{
    let zero = Ratio { num: 0, den: 1 };
    RankingEntry {
        rank: 0,
        display_rank: 0,
        name,
        vote_count: 0,
        first_vote_count: 0,
        first_vote_percentage: zero,
        first_vote_count_weighted: 0,
        character_type: meta.character_type,
        character_origin: meta.character_origin,
        first_appearance: meta.first_appearance,
        name_jpn: meta.name_jpn,
        vote_percentage: zero,
        first_percentage: zero,
        male_vote_count: 0,
        male_percentage_per_char: zero,
        male_percentage_per_total: zero,
        female_vote_count: 0,
        female_percentage_per_char: zero,
        female_percentage_per_total: zero,
        trend: Vec::new(),
        trend_first: Vec::new(),
        reasons: Vec::new(),
    }
}

/// Appends an entry without votes: its dense rank is its position plus
/// one, its display rank that of the first entry without votes.
fn push_unvoted(entries: &mut Vec<RankingEntry>, e: RankingEntry, ranked: usize)
    requires
        ranked <= old(entries).len(),
    ensures
        final(entries)@.len() == old(entries)@.len() + 1,
        final(entries)@.take(old(entries)@.len() as int) == old(entries)@,
        final(entries)@.last()
            == (RankingEntry { rank: (old(entries)@.len() + 1) as usize, display_rank: (ranked + 1) as usize, ..e }),
        final(entries)@.last().rank == old(entries)@.len() + 1,
        final(entries)@.last().display_rank == ranked + 1,
{
    entries.push(e);
    let len = entries.len();
    entries[len - 1].rank = len;
    entries[len - 1].display_rank = ranked + 1;
    proof {
        assert(entries@.take(len - 1) =~= old(entries)@);
    }
}

/// The records that at least `min` sections picked, by position, and their
/// rank keys.
pub(crate) fn voted_keys(
    items: &Vec<ItemTally>,
    min: u32,
    Ghost(h): Ghost<Seq<Counted>>,
) -> (r: (Vec<usize>, Vec<RankKey>))
    requires
        item_names(items@) == seen_names(h),
        forall|i: int| 0 <= i < items.len() ==> (#[trigger] items[i]).agrees(h),
    ensures
        r.0.len() == r.1.len(),
        r.0.len() == voted_names(h, min as nat).len(),
        forall|k: int| 0 <= k < r.0.len()
            ==> (#[trigger] r.0[k]) < items.len() && items[r.0[k] as int].name@ == voted_names(h, min as nat)[k]
            && items[r.0[k] as int].vote_count >= min,
        r.1@ == rank_keys(h, min as nat),
        forall|k: int, l: int| 0 <= k < l < r.0.len() ==> (#[trigger] r.0[k]) < (#[trigger] r.0[l]),
{
    let mut voted: Vec<usize> = Vec::new();
    let mut keys: Vec<RankKey> = Vec::new();
    let ghost seen = seen_names(h);
    let mut i: usize = 0;
    while i < items.len()
        invariant
            i <= items.len(),
            seen == seen_names(h),
            item_names(items@) == seen,
            forall|i: int| 0 <= i < items.len() ==> (#[trigger] items[i]).agrees(h),
            voted.len() == keys.len(),
            voted.len() == voted_among(seen.take(i as int), h, min as nat).len(),
            forall|k: int| 0 <= k < voted.len() ==> (#[trigger] voted[k]) < i,
            forall|k: int, l: int| 0 <= k < l < voted.len() ==> (#[trigger] voted[k]) < (#[trigger] voted[l]),
            forall|k: int| 0 <= k < voted.len()
                ==> (#[trigger] voted[k]) < items.len() && items[voted[k] as int].name@
                == voted_among(seen.take(i as int), h, min as nat)[k] && items[voted[k] as int].vote_count >= min,
            forall|k: int| 0 <= k < keys.len() ==> (#[trigger] keys[k]) == (RankKey {
                vote_count: items[voted[k] as int].vote_count,
                first_count: items[voted[k] as int].first_count,
            }),
        decreases items.len() - i,
    {
        proof {
            assert(seen.take(i as int + 1).drop_last() =~= seen.take(i as int));
            assert(seen.take(i as int + 1).last() == seen[i as int]);
            assert(item_names(items@)[i as int] == items[i as int].name@);
            assert(items[i as int].agrees(h));
            lemma_support_bounds(h, items[i as int].name@);
        }
        if items[i].supporters >= min {
            voted.push(i);
            keys.push(RankKey { vote_count: items[i].vote_count, first_count: items[i].first_count });
        }
        i += 1;
    }
    proof {
        assert(seen.take(items.len() as int) =~= seen);
        assert(keys@ =~= rank_keys(h, min as nat)) by {
            assert forall|k: int| 0 <= k < keys.len() implies keys@[k] == rank_keys(h, min as nat)[k] by {
                assert(items[voted[k] as int].agrees(h));
            }
        }
    }
    (voted, keys)
}

/// After the ranked entries, all with a vote, entries without votes share
/// the display rank of the first of them.
proof fn lemma_tail_display_rank(votes: Seq<u32>, ranked: int, p: int)
    requires
        0 <= ranked <= p < votes.len(),
        forall|q: int| 0 <= q < ranked ==> #[trigger] votes[q] > 0,
        forall|q: int| ranked <= q < votes.len() ==> #[trigger] votes[q] == 0,
    ensures
        display_rank_at(votes, p) == ranked + 1,
    decreases p,
{
    if p > ranked {
        lemma_tail_display_rank(votes, ranked, p - 1);
    }
}

/// The first `n` entries are the ranked ones.
spec fn ranked_part_ok(
    entries: Seq<RankingEntry>,
    n: int,
    names: Seq<Seq<char>>,
    votes: Seq<u32>,
    h: Seq<Counted>,
    catalog: Seq<PartialVoteItemEntry>,
) -> bool {
    &&& entries.len() >= n
    &&& forall|q: int| 0 <= q < n ==> (#[trigger] entries[q]).name@ == names[q]
    &&& forall|q: int| 0 <= q < n ==> (#[trigger] entries[q]).vote_count == votes[q] && votes[q] > 0
    &&& forall|q: int| 0 <= q < n ==> (#[trigger] entries[q]).rank == q + 1
    &&& forall|q: int| 0 <= q < n ==> (#[trigger] entries[q]).display_rank == display_rank_at(votes, q)
    &&& forall|q: int| 0 <= q < n ==> metadata_ok(entry_metadata(#[trigger] entries[q]), catalog, entries[q].name@)
    &&& forall|q: int| 0 <= q < n ==> ranked_entry_ok(#[trigger] entries[q], h)
}

proof fn lemma_ranked_part_kept(
    before: Seq<RankingEntry>,
    after: Seq<RankingEntry>,
    n: int,
    names: Seq<Seq<char>>,
    votes: Seq<u32>,
    h: Seq<Counted>,
    catalog: Seq<PartialVoteItemEntry>,
)
    requires
        ranked_part_ok(before, n, names, votes, h, catalog),
        before.len() == n,
        after.len() >= n,
        after.take(n) == before,
    ensures
        ranked_part_ok(after, n, names, votes, h, catalog),
{
    assert forall|q: int| 0 <= q < n implies #[trigger] after[q] == before[q] by {
        assert(after.take(n)[q] == before[q]);
    }
}

/// Appends, with zero statistics, the names of the catalog that the
/// entries lack, each once, in the order of the catalog.
fn append_unvoted(
    entries: &mut Vec<RankingEntry>,
    listed: &mut StringHashMap<bool>,
    catalog: &Vec<PartialVoteItemEntry>,
    rows: &StringHashMap<usize>,
)
    requires
        forall|n: Seq<char>| (#[trigger] rows@.contains_key(n)) <==> last_row(catalog@, n).is_some(),
        forall|n: Seq<char>| (#[trigger] rows@.contains_key(n)) ==> last_row(catalog@, n) == Some(rows@[n] as int),
        forall|n: Seq<char>| (#[trigger] old(listed)@.contains_key(n)) <==> entry_names(old(entries)@).contains(n),
        distinct(entry_names(old(entries)@)),
    ensures
        final(entries)@.len() >= old(entries)@.len(),
        final(entries)@.take(old(entries)@.len() as int) == old(entries)@,
        entry_names(final(entries)@) == note_each(entry_names(old(entries)@), catalog_names(catalog@)),
        distinct(entry_names(final(entries)@)),
        forall|q: int| old(entries)@.len() <= q < final(entries)@.len() ==> {
            let e = #[trigger] final(entries)@[q];
            &&& zero_entry_ok(e)
            &&& e.rank == q + 1
            &&& e.display_rank == old(entries)@.len() + 1
            &&& metadata_ok(entry_metadata(e), catalog@, e.name@)
        },
{
    let ghost base = entries@;
    let n = entries.len();
    let mut c: usize = 0;
    proof {
        assert(entries@.take(n as int) =~= base);
        assert(catalog_names(catalog@).take(0) =~= Seq::<Seq<char>>::empty());
    }
    while c < catalog.len()
        invariant
            c <= catalog.len(),
            n == base.len(),
            forall|n: Seq<char>| (#[trigger] rows@.contains_key(n)) <==> last_row(catalog@, n).is_some(),
            forall|n: Seq<char>| (#[trigger] rows@.contains_key(n))
                ==> last_row(catalog@, n) == Some(rows@[n] as int),
            entries@.len() >= n,
            entries@.take(n as int) == base,
            entry_names(entries@) == note_each(entry_names(base), catalog_names(catalog@).take(c as int)),
            distinct(entry_names(entries@)),
            forall|n: Seq<char>| (#[trigger] listed@.contains_key(n)) <==> entry_names(entries@).contains(n),
            forall|q: int| n <= q < entries@.len() ==> {
                let e = #[trigger] entries@[q];
                &&& zero_entry_ok(e)
                &&& e.rank == q + 1
                &&& e.display_rank == n + 1
                &&& metadata_ok(entry_metadata(e), catalog@, e.name@)
            },
        decreases catalog.len() - c,
    {
        let name = &catalog[c].name;
        proof {
            let cn = catalog_names(catalog@);
            assert(cn.take(c as int + 1).drop_last() =~= cn.take(c as int));
            assert(cn.take(c as int + 1).last() == name@);
        }
        if !listed.contains_key(name.as_str()) {
            let meta = metadata_for(rows, catalog, name);
            let ghost before = entries@;
            let ghost len = before.len() as int;
            push_unvoted(entries, zero_entry(name.clone(), meta), n);
            listed.insert(name.clone(), true);
            proof {
                assert forall|q: int| 0 <= q < len implies #[trigger] entries@[q] == before[q] by {
                    assert(entries@.take(len)[q] == before[q]);
                }
                assert(entries@[len] == entries@.last());
                assert(entries@.take(n as int) =~= base) by {
                    assert forall|q: int| 0 <= q < n implies entries@.take(n as int)[q] == base[q] by {
                        assert(before.take(n as int)[q] == base[q]);
                    }
                }
                assert(entry_names(entries@) =~= entry_names(before).push(name@));
                assert forall|n: Seq<char>| (#[trigger] listed@.contains_key(n))
                    <==> entry_names(entries@).contains(n) by {
                    if entry_names(entries@).contains(n) {
                        let q = choose|q: int| 0 <= q < entry_names(entries@).len() && entry_names(entries@)[q] == n;
                        if q < len {
                            assert(entry_names(before)[q] == n);
                        }
                    }
                    if entry_names(before).contains(n) {
                        let q = choose|q: int| 0 <= q < entry_names(before).len() && entry_names(before)[q] == n;
                        assert(entry_names(entries@)[q] == n);
                    }
                    if n == name@ {
                        assert(entry_names(entries@)[len] == n);
                    }
                }
                assert forall|i: int, j: int| 0 <= i < j < entry_names(entries@).len() implies
                    #[trigger] entry_names(entries@)[i]
                    != #[trigger] entry_names(entries@)[j] by {
                    if j < len {
                        assert(entry_names(before)[i] != entry_names(before)[j]);
                    } else {
                        assert(entry_names(before)[i] == entry_names(entries@)[i]);
                        assert(entry_names(before).contains(entry_names(before)[i]));
                    }
                }
                assert forall|q: int| n <= q < entries@.len() implies {
                    let e = #[trigger] entries@[q];
                    &&& zero_entry_ok(e)
                    &&& e.rank == q + 1
                    &&& e.display_rank == n + 1
                    &&& metadata_ok(entry_metadata(e), catalog@, e.name@)
                } by {
                    if q < len {
                        assert(entries@[q] == before[q]);
                    }
                }
            }
        }
        c += 1;
    }
    proof {
        assert(catalog_names(catalog@).take(catalog.len() as int) =~= catalog_names(catalog@));
    }
}

/// The ranking of what `tally` has counted. With `whole` set, the names of
/// the catalog that are not ranked follow with zero statistics.
pub fn ranking(
    tally: &Tally,
    catalog: &Vec<PartialVoteItemEntry>,
    whole: bool,
) -> (resp: RankingQueryResponse)
    requires
        tally.wf(),
    ensures
        ranking_ok(resp, tally@, catalog@, whole),
{
    let ghost h = tally@;
    let items = tally.items();
    let total_votes = tally.total_votes();
    let total_first = tally.total_first();
    let total_male = tally.total_male();
    let total_female = tally.total_female();
    let (voted, keys) = voted_keys(items, 1, Ghost(h));
    let ranked = rank_items(&keys);
    let rows = catalog_rows(catalog);
    let n = ranked.len();
    let ghost order = rank_order_of(rank_keys(h, 1));
    let ghost names = ranking_names(h, 1);
    let ghost votes = ranking_votes(h, 1);
    proof {
        assert forall|q: int, r: int| 0 <= q < r < names.len() implies #[trigger] names[q] != #[trigger] names[r] by {
            lemma_rank_order_injective(keys@, order, q, r);
            let x = voted[order[q] as int];
            let y = voted[order[r] as int];
            assert(x != y) by {
                if order[q] < order[r] {
                    assert(voted[order[q] as int] < voted[order[r] as int]);
                } else {
                    assert(voted[order[r] as int] < voted[order[q] as int]);
                }
            }
            if x < y {
                assert(items[x as int].name@ != items[y as int].name@);
            } else {
                assert(items[y as int].name@ != items[x as int].name@);
            }
        }
    }
    let mut entries: Vec<RankingEntry> = Vec::new();
    let mut counts: Vec<u32> = Vec::new();
    let mut listed: StringHashMap<bool> = StringHashMap::new();
    let mut p: usize = 0;
    while p < n
        invariant
            n == ranked.len(),
            n == keys.len(),
            n == voted.len(),
            n == names.len(),
            n == votes.len(),
            p <= n,
            h == tally@,
            order == rank_order_of(rank_keys(h, 1)),
            names == ranking_names(h, 1),
            votes == ranking_votes(h, 1),
            keys@ == rank_keys(h, 1),
            items_of(ranked@) == order,
            is_rank_order(keys@, order),
            forall|q: int| 0 <= q < n ==> (#[trigger] ranked[q]).rank == q + 1,
            forall|q: int| 0 <= q < n ==> (#[trigger] ranked[q]).display_rank == display_rank_at(votes, q),
            forall|k: int| 0 <= k < n
                ==> (#[trigger] voted[k]) < items.len() && items[voted[k] as int].name@ == voted_names(h, 1)[k]
                && items[voted[k] as int].vote_count >= 1,
            forall|i: int| 0 <= i < items.len() ==> (#[trigger] items[i]).agrees(h),
            total_votes == total_votes_of(h),
            total_first == total_first_of(h),
            total_male == total_male_of(h),
            total_female == total_female_of(h),
            forall|n: Seq<char>| (#[trigger] rows@.contains_key(n)) <==> last_row(catalog@, n).is_some(),
            forall|n: Seq<char>| (#[trigger] rows@.contains_key(n))
                ==> last_row(catalog@, n) == Some(rows@[n] as int),
            entries.len() == p,
            counts@ == votes.take(p as int),
            forall|q: int| 0 <= q < p ==> (#[trigger] entries[q]).name@ == names[q],
            forall|q: int| 0 <= q < p ==> (#[trigger] entries[q]).vote_count == votes[q] && votes[q] > 0,
            forall|q: int| 0 <= q < p ==> (#[trigger] entries[q]).rank == q + 1,
            forall|q: int| 0 <= q < p ==> (#[trigger] entries[q]).display_rank == display_rank_at(votes, q),
            forall|q: int| 0 <= q < p
                ==> metadata_ok(entry_metadata(#[trigger] entries[q]), catalog@, entries[q].name@),
            forall|q: int| 0 <= q < p ==> ranked_entry_ok(#[trigger] entries[q], h),
            forall|n: Seq<char>| (#[trigger] listed@.contains_key(n)) <==> entry_names(entries@).contains(n),
        decreases n - p,
    {
        let r = ranked[p];
        proof {
            assert(items_of(ranked@)[p as int] == r.item);
            assert(order[p as int] < keys.len());
        }
        let item = &items[voted[r.item]];
        let meta = metadata_for(&rows, catalog, &item.name);
        let e = ranked_entry(item, r.rank, r.display_rank, meta, total_votes, total_first, total_male,
            total_female, Ghost(h));
        let ghost before = entries@;
        proof {
            assert(item.agrees(h));
            assert(votes[p as int] == keys[r.item as int].vote_count);
            assert(votes.take(p as int).push(item.vote_count) =~= votes.take(p as int + 1));
        }
        counts.push(item.vote_count);
        listed.insert(item.name.clone(), true);
        entries.push(e);
        proof {
            assert forall|n: Seq<char>| (#[trigger] listed@.contains_key(n))
                <==> entry_names(entries@).contains(n) by {
                if entry_names(entries@).contains(n) {
                    let q = choose|q: int| 0 <= q < entry_names(entries@).len() && entry_names(entries@)[q] == n;
                    if q < p {
                        assert(entry_names(before)[q] == n);
                    }
                }
                if entry_names(before).contains(n) {
                    let q = choose|q: int| 0 <= q < entry_names(before).len() && entry_names(before)[q] == n;
                    assert(entry_names(entries@)[q] == n);
                }
                if n == item.name@ {
                    assert(entry_names(entries@)[p as int] == n);
                }
            }
        }
        p += 1;
    }
    proof {
        assert(votes.take(n as int) =~= votes);
        assert(entry_names(entries@) =~= names);
    }
    proof {
        assert(distinct(entry_names(entries@)));
        assert(ranked_part_ok(entries@, n as int, names, votes, h, catalog@));
    }
    let ghost ranked_entries = entries@;
    if whole {
        append_unvoted(&mut entries, &mut listed, catalog, &rows);
        proof {
            lemma_ranked_part_kept(ranked_entries, entries@, n as int, names, votes, h, catalog@);
        }
    }
    let global = RankingGlobal {
        total_unique_items: n,
        total_first,
        total_votes,
        average_votes_per_item: average(total_votes as u64, n),
        median_votes_per_item: median(&counts),
    };
    proof {
        let ev = entry_votes(entries@);
        assert(ranked_part_ok(entries@, n as int, names, votes, h, catalog@));
        assert forall|q: int| n <= q < entries.len() implies
            zero_entry_ok(#[trigger] entries[q]) && entries[q].rank == q + 1
            && metadata_ok(entry_metadata(entries[q]), catalog@, entries[q].name@)
                && entries[q].display_rank == n + 1 by {
            if whole {
            } else {
                assert(entries@ == ranked_entries);
            }
        }
        assert forall|q: int| 0 <= q < entries.len() implies
            (#[trigger] entries[q]).display_rank == display_rank_at(ev, q) by {
            if q < n {
                assert forall|k: int| 0 <= k <= q implies votes[k] == ev[k] by {
                    assert(entries[k].vote_count == votes[k]);
                }
                lemma_display_rank_prefix(votes, ev, q);
            } else {
                assert forall|k: int| 0 <= k < n implies #[trigger] ev[k] > 0 by {
                    assert(entries[k].vote_count == votes[k]);
                }
                assert forall|k: int| n <= k < ev.len() implies #[trigger] ev[k] == 0 by {
                    assert(zero_entry_ok(entries[k]));
                }
                lemma_tail_display_rank(ev, n as int, q);
            }
        }
        assert forall|q: int| 0 <= q < entries.len() implies (#[trigger] entries[q]).rank == q + 1 by {}
        assert forall|q: int| 0 <= q < entries.len() implies
            metadata_ok(entry_metadata(#[trigger] entries[q]), catalog@, entries[q].name@) by {}
    }
    RankingQueryResponse { entries, global }
}

/// The machine-readable kind under which a refused ballot is reported.
pub open spec fn tally_error_kind(e: TallyError) -> Seq<char> {
    match e {
        TallyError::HourOutOfWindow => "HOUR_OUT_OF_WINDOW"@,
        TallyError::TooManyVotes => "TOO_MANY_VOTES"@,
    }
}

/// The error under which a refused ballot is reported.
pub fn tally_error(e: TallyError) -> (err: ServiceError)
    ensures
        err@ == bare_error(SERVICE_NAME@, tally_error_kind(e)),
{
    match e {
        TallyError::HourOutOfWindow => ServiceError::new_error_kind(SERVICE_NAME, "HOUR_OUT_OF_WINDOW"),
        TallyError::TooManyVotes => ServiceError::new_error_kind(SERVICE_NAME, "TOO_MANY_VOTES"),
    }
}

/// `r` answers a ranking request over `ballots`: the ranking of the
/// sections counted, or the error of the first ballot that was refused.
pub open spec fn ranking_result_ok(
    r: Result<RankingQueryResponse, ServiceError>,
    section: Section,
    ballots: Seq<Ballot>,
    start: i64,
    catalog: Seq<PartialVoteItemEntry>,
    whole: bool,
) -> bool {
    match tally_all(Seq::empty(), section, start, ballots) {
        Ok(h) => match r {
            Ok(resp) => ranking_ok(resp, h, catalog, whole),
            Err(_) => false,
        },
        Err(e) => match r {
            Ok(_) => false,
            Err(err) => err@ == bare_error(SERVICE_NAME@, tally_error_kind(e)),
        },
    }
}

/// Ranks the items of one section over the ballots that a filter matched.
pub fn item_ranking(
    section: Section,
    ballots: &Vec<Ballot>,
    vote_start: i64,
    catalog: &Vec<PartialVoteItemEntry>,
    empty_query: bool,
) -> (r: Result<RankingQueryResponse, ServiceError>)
    ensures
        ranking_result_ok(r, section, ballots@, vote_start, catalog@, empty_query),
{
    match tally_ballots(section, vote_start, ballots) {
        Ok(tally) => Ok(ranking(&tally, catalog, empty_query)),
        Err(e) => Err(tally_error(e)),
    }
}

/// The character ranking over the ballots that a filter matched. For a
/// request without a filter (`empty_query`), the catalog's characters that
/// got no vote are listed after the ranked ones.
pub fn chars_ranking(
    ballots: &Vec<Ballot>,
    vote_start: i64,
    catalog: &Vec<PartialVoteItemEntry>,
    empty_query: bool,
) -> (r: Result<RankingQueryResponse, ServiceError>)
    ensures
        ranking_result_ok(r, Section::Chars, ballots@, vote_start, catalog@, empty_query),
{
    item_ranking(Section::Chars, ballots, vote_start, catalog, empty_query)
}

/// The music ranking over the ballots that a filter matched.
pub fn musics_ranking(
    ballots: &Vec<Ballot>,
    vote_start: i64,
    catalog: &Vec<PartialVoteItemEntry>,
    empty_query: bool,
) -> (r: Result<RankingQueryResponse, ServiceError>)
    ensures
        ranking_result_ok(r, Section::Musics, ballots@, vote_start, catalog@, empty_query),
{
    item_ranking(Section::Musics, ballots, vote_start, catalog, empty_query)
}

/// A copy of a trend.
pub(crate) fn copy_trend(t: &Vec<VotingTrendItem>) -> (r: Vec<VotingTrendItem>)
    ensures
        r@ == t@,
{
    let mut r: Vec<VotingTrendItem> = Vec::new();
    let mut i: usize = 0;
    while i < t.len()
        invariant
            i <= t.len(),
            r@ == t@.take(i as int),
        decreases t.len() - i,
    {
        r.push(t[i]);
        proof {
            assert(t@.take(i as int).push(t@[i as int]) =~= t@.take(i as int + 1));
        }
        i += 1;
    }
    proof {
        assert(t@.take(t.len() as int) =~= t@);
    }
    r
}

/// The position in a ranking of the entry at `rank`; a rank below one
/// counts as the first.
pub open spec fn rank_offset_of(rank: i32) -> int {
    if rank <= 1 {
        0
    } else {
        rank - 1
    }
}

/// The position in a ranking of the entry at `rank`.
pub fn rank_offset(rank: i32) -> (offset: usize)
    ensures
        offset == rank_offset_of(rank),
{
    if rank <= 1 {
        0
    } else {
        (rank - 1) as usize
    }
}

/// The reasons given for the entry at `rank` of a cached ranking; none
/// where the ranking has no such entry.
pub fn chars_reasons(entries: &Vec<RankingEntry>, rank: i32) -> (resp: ReasonsResponse)
    ensures
        texts(resp.reasons@) == (if rank_offset_of(rank) < entries.len() {
            texts(entries[rank_offset_of(rank)].reasons@)
        } else {
            Seq::<Seq<char>>::empty()
        }),
{
    let offset = rank_offset(rank);
    if offset < entries.len() {
        ReasonsResponse { reasons: clone_texts(&entries[offset].reasons) }
    } else {
        let reasons: Vec<String> = Vec::new();
        proof {
            assert(texts(reasons@) =~= Seq::<Seq<char>>::empty());
        }
        ReasonsResponse { reasons }
    }
}

/// The reasons given for the entry at `rank` of a cached music ranking.
pub fn musics_reasons(entries: &Vec<RankingEntry>, rank: i32) -> (resp: ReasonsResponse)
    ensures
        texts(resp.reasons@) == (if rank_offset_of(rank) < entries.len() {
            texts(entries[rank_offset_of(rank)].reasons@)
        } else {
            Seq::<Seq<char>>::empty()
        }),
{
    chars_reasons(entries, rank)
}

/// The first entry of a ranking that bears the name, if there is one.
pub open spec fn entry_of(entries: Seq<RankingEntry>, name: Seq<char>) -> Option<int>
    decreases entries.len(),
{
    if entries.len() == 0 {
        None
    } else {
        match entry_of(entries.drop_last(), name) {
            Some(i) => Some(i),
            None => if entries.last().name@ == name {
                Some(entries.len() - 1)
            } else {
                None
            },
        }
    }
}

proof fn lemma_entry_found(entries: Seq<RankingEntry>, name: Seq<char>, i: int)
    requires
        0 <= i < entries.len(),
        entry_of(entries.take(i + 1), name) == Some(i),
    ensures
        entry_of(entries, name) == Some(i),
    decreases entries.len(),
{
    if i + 1 == entries.len() {
        assert(entries.take(i + 1) =~= entries);
    } else {
        assert(entries.drop_last().take(i + 1) =~= entries.take(i + 1));
        lemma_entry_found(entries.drop_last(), name, i);
    }
}

/// The trends of the entry that bears the name in a cached ranking; empty
/// where the ranking has no such entry.
pub fn chars_trend(entries: &Vec<RankingEntry>, name: &String) -> (resp: TrendResponse)
    ensures
        match entry_of(entries@, name@) {
            Some(i) => 0 <= i < entries.len() && resp.trend@ == entries[i].trend@
                && resp.trend_first@ == entries[i].trend_first@,
            None => resp.trend@ == Seq::<VotingTrendItem>::empty()
                && resp.trend_first@ == Seq::<VotingTrendItem>::empty(),
        },
{
    let mut i: usize = 0;
    while i < entries.len()
        invariant
            i <= entries.len(),
            entry_of(entries@.take(i as int), name@).is_none(),
        decreases entries.len() - i,
    {
        proof {
            assert(entries@.take(i as int + 1).drop_last() =~= entries@.take(i as int));
            assert(entries@.take(i as int + 1).last() == entries@[i as int]);
        }
        if entries[i].name == *name {
            proof {
                lemma_entry_found(entries@, name@, i as int);
            }
            return TrendResponse { trend: copy_trend(&entries[i].trend),
                trend_first: copy_trend(&entries[i].trend_first) };
        }
        i += 1;
    }
    proof {
        assert(entries@.take(entries.len() as int) =~= entries@);
    }
    TrendResponse { trend: Vec::new(), trend_first: Vec::new() }
}

/// The trends of the entry that bears the name in a cached music ranking.
pub fn musics_trend(entries: &Vec<RankingEntry>, name: &String) -> (resp: TrendResponse)
    ensures
        match entry_of(entries@, name@) {
            Some(i) => 0 <= i < entries.len() && resp.trend@ == entries[i].trend@
                && resp.trend_first@ == entries[i].trend_first@,
            None => resp.trend@ == Seq::<VotingTrendItem>::empty()
                && resp.trend_first@ == Seq::<VotingTrendItem>::empty(),
        },
{
    chars_trend(entries, name)
}

} // verus!
