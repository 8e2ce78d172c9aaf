//! The summary of all ballots of a year, and the completion rates of the
//! questions.

use vstd::prelude::*;
use crate::ballot::{Ballot, PaperAnswer, Pick, picks_view, PickView, UNTAGGED};
use crate::rank::{Ratio, ratio};
use crate::ranking::{tally_error, tally_error_kind};
use crate::service_error::{bare_error, SERVICE_NAME, ServiceError};
use crate::tally::{count_step, Counted, item_names, seen_names, Tally, TallyError, votes_for};

verus! {

/// The summary of the ballots of one year.
#[derive(Clone, Copy, Debug, PartialEq, Eq, Structural)]
pub struct GlobalStats {
    pub vote_year: i32,
    /// Ballots.
    pub num_vote: usize,
    /// Ballots with character picks.
    pub num_char: usize,
    /// Ballots with music picks.
    pub num_music: usize,
    /// Ballots with pairing picks.
    pub num_cp: usize,
    /// Ballots that nominate fan works.
    pub num_doujin: usize,
    /// Ballots of male voters.
    pub num_male: usize,
    /// Ballots of the other voters.
    pub num_female: usize,
}

/// How many of the ballots satisfy `f`.
pub open spec fn ballots_where(ballots: Seq<Ballot>, f: spec_fn(Ballot) -> bool) -> nat
    decreases ballots.len(),
{
    if ballots.len() == 0 {
        0
    } else {
        ballots_where(ballots.drop_last(), f) + (if f(ballots.last()) { 1nat } else { 0nat })
    }
}

/// The ballot holds character picks.
pub open spec fn has_chars(b: Ballot) -> bool {
    b.chars.is_some() && b.chars.unwrap().picks.len() > 0
}

/// The ballot holds music picks.
pub open spec fn has_musics(b: Ballot) -> bool {
    b.musics.is_some() && b.musics.unwrap().picks.len() > 0
}

/// The ballot holds pairing picks.
pub open spec fn has_cps(b: Ballot) -> bool {
    b.cps.is_some() && b.cps.unwrap().picks.len() > 0
}

/// The summary of the ballots of one year.
pub open spec fn global_stats_of(ballots: Seq<Ballot>, vote_year: i32) -> GlobalStats {
    GlobalStats {
        vote_year,
        num_vote: ballots.len() as usize,
        num_char: ballots_where(ballots, |b: Ballot| has_chars(b)) as usize,
        num_music: ballots_where(ballots, |b: Ballot| has_musics(b)) as usize,
        num_cp: ballots_where(ballots, |b: Ballot| has_cps(b)) as usize,
        num_doujin: ballots_where(ballots, |b: Ballot| b.doujins > 0) as usize,
        num_male: ballots_where(ballots, |b: Ballot| b.male()) as usize,
        num_female: ballots_where(ballots, |b: Ballot| !b.male()) as usize,
    }
}

proof fn lemma_ballots_where_bound(ballots: Seq<Ballot>, f: spec_fn(Ballot) -> bool)
    ensures
        ballots_where(ballots, f) <= ballots.len(),
    decreases ballots.len(),
{
    if ballots.len() > 0 {
        lemma_ballots_where_bound(ballots.drop_last(), f);
    }
}

/// The summary of all ballots of a year.
pub fn global_stats(ballots: &Vec<Ballot>, vote_year: i32) -> (gs: GlobalStats)
    ensures
        gs == global_stats_of(ballots@, vote_year),
{
    let mut gs = GlobalStats { vote_year, num_vote: 0, num_char: 0, num_music: 0, num_cp: 0, num_doujin: 0,
        num_male: 0, num_female: 0 };
    let mut i: usize = 0;
    while i < ballots.len()
        invariant
            i <= ballots.len(),
            gs == global_stats_of(ballots@.take(i as int), vote_year),
        decreases ballots.len() - i,
    {
        let ghost seen = ballots@.take(i as int);
        let ghost next = ballots@.take(i as int + 1);
        proof {
            assert(next.drop_last() =~= seen);
            assert(next.last() == ballots@[i as int]);
            lemma_ballots_where_bound(seen, |b: Ballot| has_chars(b));
            lemma_ballots_where_bound(seen, |b: Ballot| has_musics(b));
            lemma_ballots_where_bound(seen, |b: Ballot| has_cps(b));
            lemma_ballots_where_bound(seen, |b: Ballot| b.doujins > 0);
            lemma_ballots_where_bound(seen, |b: Ballot| b.male());
            lemma_ballots_where_bound(seen, |b: Ballot| !b.male());
        }
        let b = &ballots[i];
        gs.num_vote = gs.num_vote + 1;
        match &b.chars {
            Some(v) => {
                if v.picks.len() > 0 {
                    gs.num_char = gs.num_char + 1;
                }
            },
            None => {},
        }
        match &b.musics {
            Some(v) => {
                if v.picks.len() > 0 {
                    gs.num_music = gs.num_music + 1;
                }
            },
            None => {},
        }
        match &b.cps {
            Some(v) => {
                if v.picks.len() > 0 {
                    gs.num_cp = gs.num_cp + 1;
                }
            },
            None => {},
        }
        if b.doujins > 0 {
            gs.num_doujin = gs.num_doujin + 1;
        }
        if b.is_male() {
            gs.num_male = gs.num_male + 1;
        } else {
            gs.num_female = gs.num_female + 1;
        }
        i += 1;
    }
    proof {
        assert(ballots@.take(ballots.len() as int) =~= ballots@);
    }
    gs
}

/// How many ballots answered a question.
#[derive(Clone, Debug)]
pub struct CompletionRateItem {
    /// The id of the question.
    pub name: String,
    /// Ballots that answered it, over all ballots.
    pub rate: Ratio,
    pub num_complete: u32,
    pub total: usize,
}

/// The completion rates of the questions of one year.
#[derive(Clone, Debug)]
pub struct CompletionRate {
    pub vote_year: i32,
    pub items: Vec<CompletionRateItem>,
}

/// The questions that the answers tick an option of, one pick each.
pub open spec fn completed(answers: Seq<PaperAnswer>) -> Seq<PickView>
    decreases answers.len(),
{
    if answers.len() == 0 {
        Seq::empty()
    } else {
        let rest = completed(answers.drop_last());
        if answers.last().item.opt.len() > 0 {
            rest.push(PickView { name: answers.last().question_id@, reason: None, tag: UNTAGGED as int })
        } else {
            rest
        }
    }
}

/// The questions answered, ballot by ballot; an error when there are more
/// than `u32::MAX` answers.
pub open spec fn completions(ballots: Seq<Ballot>) -> Result<Seq<Counted>, TallyError>
    decreases ballots.len(),
{
    if ballots.len() == 0 {
        Ok(Seq::empty())
    } else {
        match completions(ballots.drop_last()) {
            Err(e) => Err(e),
            Ok(h) => match ballots.last().papers {
                None => Ok(h),
                Some(v) => count_step(h, 0, completed(v.answers@), None, None, false),
            },
        }
    }
}

/// `r` holds, for each question answered, how many ballots answered it.
pub open spec fn completion_ok(
    r: Result<CompletionRate, ServiceError>,
    ballots: Seq<Ballot>,
    vote_year: i32,
) -> bool {
    match completions(ballots) {
        Ok(h) => r.is_ok() && {
            let rate = r.unwrap();
            &&& rate.vote_year == vote_year
            &&& rate.items@.len() == seen_names(h).len()
            &&& forall|i: int| 0 <= i < rate.items@.len() ==> {
                let item = #[trigger] rate.items@[i];
                &&& item.name@ == seen_names(h)[i]
                &&& item.num_complete == votes_for(h, item.name@)
                &&& item.total == ballots.len()
                &&& item.rate == ratio(item.num_complete as int, ballots.len() as int)
            }
        },
        Err(e) => r.is_err() && r.unwrap_err()@ == bare_error(SERVICE_NAME@, tally_error_kind(e)),
    }
}

proof fn lemma_completions_fail(ballots: Seq<Ballot>, k: int)
    requires
        0 <= k <= ballots.len(),
        completions(ballots.take(k)).is_err(),
    ensures
        completions(ballots) == completions(ballots.take(k)),
    decreases ballots.len(),
{
    if k == ballots.len() {
        assert(ballots.take(k) =~= ballots);
    } else {
        assert(ballots.drop_last().take(k) =~= ballots.take(k));
        lemma_completions_fail(ballots.drop_last(), k);
    }
}

/// For each question that some ballot answered by ticking an option, in
/// the order of first mention: how many ballots did so, of all ballots.
pub fn completion_rates(
    ballots: &Vec<Ballot>,
    vote_year: i32,
) -> (r: Result<CompletionRate, ServiceError>)
    ensures
        completion_ok(r, ballots@, vote_year),
{
    let mut tally = Tally::new(0);
    let mut i: usize = 0;
    while i < ballots.len()
        invariant
            i <= ballots.len(),
            tally.wf(),
            tally.start() == 0,
            completions(ballots@.take(i as int)) == Ok::<Seq<Counted>, TallyError>(tally@),
        decreases ballots.len() - i,
    {
        proof {
            assert(ballots@.take(i as int + 1).drop_last() =~= ballots@.take(i as int));
            assert(ballots@.take(i as int + 1).last() == ballots@[i as int]);
        }
        match &ballots[i].papers {
            None => {},
            Some(v) => {
                let mut picks: Vec<Pick> = Vec::new();
                let mut k: usize = 0;
                proof {
                    assert(picks_view(picks@) =~= completed(v.answers@.take(0)));
                }
                while k < v.answers.len()
                    invariant
                        k <= v.answers.len(),
                        picks_view(picks@) == completed(v.answers@.take(k as int)),
                    decreases v.answers.len() - k,
                {
                    proof {
                        assert(v.answers@.take(k as int + 1).drop_last() =~= v.answers@.take(k as int));
                        assert(v.answers@.take(k as int + 1).last() == v.answers@[k as int]);
                    }
                    if v.answers[k].item.opt.len() > 0 {
                        let ghost before = picks_view(picks@);
                        picks.push(Pick { name: v.answers[k].question_id.clone(), reason: None });
                        proof {
                            assert(picks_view(picks@) =~= before.push(
                                PickView { name: v.answers[k as int].question_id@, reason: None,
                                    tag: UNTAGGED as int },
                            ));
                        }
                    }
                    k += 1;
                }
                proof {
                    assert(v.answers@.take(v.answers.len() as int) =~= v.answers@);
                }
                match tally.add_picks(&picks, &None, None, false) {
                    Ok(()) => {},
                    Err(e) => {
                        proof {
                            lemma_completions_fail(ballots@, i as int + 1);
                        }
                        return Err(tally_error(e));
                    },
                }
            },
        }
        i += 1;
    }
    proof {
        assert(ballots@.take(ballots.len() as int) =~= ballots@);
    }
    let total = ballots.len();
    let records = tally.items();
    let mut items: Vec<CompletionRateItem> = Vec::new();
    let mut j: usize = 0;
    while j < records.len()
        invariant
            j <= records.len(),
            total == ballots.len(),
            item_names(records@) == seen_names(tally@),
            forall|i: int| 0 <= i < records.len() ==> (#[trigger] records[i]).agrees(tally@),
            items.len() == j,
            forall|i: int| 0 <= i < j ==> {
                let item = #[trigger] items@[i];
                &&& item.name@ == seen_names(tally@)[i]
                &&& item.num_complete == votes_for(tally@, item.name@)
                &&& item.total == total
                &&& item.rate == ratio(item.num_complete as int, total as int)
            },
        decreases records.len() - j,
    {
        let record = &records[j];
        proof {
            assert(item_names(records@)[j as int] == record.name@);
            assert(record.agrees(tally@));
        }
        items.push(
            CompletionRateItem {
                name: record.name.clone(),
                rate: Ratio::guarded(record.vote_count as u64, total as u64),
                num_complete: record.vote_count,
                total,
            },
        );
        j += 1;
    }
    Ok(CompletionRate { vote_year, items })
}

} // verus!
