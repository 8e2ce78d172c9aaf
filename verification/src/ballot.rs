//! Ballots as the engine reads them, and the hourly bucket of a submission.

use vstd::prelude::*;
use crate::text::opt_text;

verus! {

/// Width of every trend histogram: thirty days of hourly buckets.
pub const TREND_WINDOW_HOURS: usize = 720;

/// One picked item with the voter's optional reason.
#[derive(Clone, Debug)]
pub struct Pick {
    pub name: String,
    pub reason: Option<String>,
}

/// Number of classes that a pick can fall into.
pub const TAG_COUNT: usize = 5;

/// The class of a pick that is not classified.
pub const UNTAGGED: usize = 4;

/// The mathematical value of a pick: the name picked, the reason given and
/// the class of the pick, a number below `TAG_COUNT`.
pub ghost struct PickView {
    pub name: Seq<char>,
    pub reason: Option<Seq<char>>,
    pub tag: int,
}

impl View for Pick {
    type V = PickView;

    open spec fn view(&self) -> PickView {
        PickView { name: self.name@, reason: opt_text(self.reason), tag: UNTAGGED as int }
    }
}

/// The mathematical values of a list of picks.
pub open spec fn picks_view(picks: Seq<Pick>) -> Seq<PickView> {
    Seq::new(picks.len(), |i: int| picks[i]@)
}

/// One submitted section of item picks (characters or music): the picks in
/// the voter's order, the first-choice pick if one was named, and the
/// submission time in milliseconds since the epoch.
#[derive(Clone, Debug)]
pub struct ItemVotes {
    pub picks: Vec<Pick>,
    pub first: Option<String>,
    pub created_at: i64,
}

/// Which item section a ranking is about.
#[derive(Clone, Copy, Debug, PartialEq, Eq, Structural)]
pub enum Section {
    Chars,
    Musics,
}

/// One pairing pick: two partners, an optional third, who is the active
/// partner, and the voter's optional reason.
#[derive(Clone, Debug)]
pub struct CPItem {
    pub a: String,
    pub b: String,
    pub c: Option<String>,
    pub active: Option<String>,
    pub reason: Option<String>,
}

/// One submitted section of pairing picks.
#[derive(Clone, Debug)]
pub struct PairVotes {
    pub picks: Vec<CPItem>,
    pub first: Option<CPItem>,
    pub created_at: i64,
}

/// One answered question: the options ticked and the free text.
#[derive(Clone, Debug)]
pub struct SinglePaperItem {
    pub opt: Vec<String>,
    pub ans: String,
}

/// One answer of the questionnaire, under the id of its question.
#[derive(Clone, Debug)]
pub struct PaperAnswer {
    pub question_id: String,
    pub item: SinglePaperItem,
}

/// The submitted questionnaire: its answers and, where it is known, the
/// submission time in milliseconds since the epoch.
#[derive(Clone, Debug)]
pub struct PaperVotes {
    pub answers: Vec<PaperAnswer>,
    pub created_at: Option<i64>,
}

/// One ballot. Every section is optional; a section with an empty pick list
/// counts as skipped.
#[derive(Clone, Debug)]
pub struct Ballot {
    /// Options ticked for the demographic question.
    pub demographic: Vec<String>,
    pub chars: Option<ItemVotes>,
    pub musics: Option<ItemVotes>,
    pub cps: Option<PairVotes>,
    /// Number of fan works nominated.
    pub doujins: usize,
    pub papers: Option<PaperVotes>,
}

impl Ballot {
    /// The section of this ballot that `section` selects.
    pub open spec fn item_votes(&self, section: Section) -> Option<ItemVotes> {
        match section {
            Section::Chars => self.chars,
            Section::Musics => self.musics,
        }
    }

    /// The voter ticked the option "male" first in the demographic question.
    pub open spec fn male(&self) -> bool {
        self.demographic.len() > 0 && self.demographic[0]@ == "1101101"@
    }

    /// Whether the voter counts as male.
    pub fn is_male(&self) -> (r: bool)
        ensures
            r == self.male(),
    {
        if self.demographic.len() == 0 {
            false
        } else {
            let male = "1101101".to_owned();
            self.demographic[0] == male
        }
    }
}

/// Whole hours in a span of `ms` milliseconds, rounded towards zero.
pub open spec fn whole_hours_of(ms: int) -> int {
    if ms >= 0 {
        ms / 3_600_000
    } else {
        -((-ms) / 3_600_000)
    }
}

/// Calls `chrono::TimeDelta::milliseconds(ms).num_hours()`: the number of
/// whole hours in a span of `ms` milliseconds, rounded towards zero. The
/// constructor panics on `i64::MIN`, which is left out.
#[verifier::external_body]
fn whole_hours(ms: i64) -> (h: i64)
    requires
        ms > i64::MIN,
    ensures
        h == whole_hours_of(ms as int),
{
    chrono::TimeDelta::milliseconds(ms).num_hours()
}

/// The hourly bucket of a submission made at `at`, for a poll that started
/// at `start` (both in milliseconds): the number of whole hours elapsed, if
/// the submission is not before the start and falls inside the window.
pub open spec fn hour_of(start: i64, at: i64) -> Option<int> {
    if at >= start && (at - start) / 3_600_000 < 720 {
        Some((at - start) / 3_600_000)
    } else {
        None
    }
}

/// The hourly bucket of a submission; none where it lies outside the window.
pub fn hour_bucket(start: i64, at: i64) -> (r: Option<usize>)
    ensures
        match r {
            Some(h) => hour_of(start, at) == Some(h as int) && h < TREND_WINDOW_HOURS,
            None => hour_of(start, at).is_none(),
        },
{
    if at < start {
        return None;
    }
    match at.checked_sub(start) {
        None => None,
        Some(span) => {
            let hours = whole_hours(span);
            if hours < 720 {
                Some(hours as usize)
            } else {
                None
            }
        },
    }
}

} // verus!
