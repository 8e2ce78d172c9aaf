//! The entities that a ranking request answers with.

use std::collections::HashSet;
use vstd::prelude::*;
use crate::rank::Ratio;

verus! {

/// One point of a trend: the hourly bucket (hours since the poll started)
/// and the number of votes that fell into it.
#[derive(Clone, Copy, Debug, PartialEq, Eq, Structural)]
pub struct VotingTrendItem {
    pub hrs: usize,
    pub cnt: u32,
}

/// One item of the reference catalog.
#[derive(Clone, Debug)]
pub struct PartialVoteItemEntry {
    pub vote_year: i32,
    pub name: String,
    /// Category codes of the works the item belongs to.
    pub kind: Vec<String>,
    /// The works the item belongs to.
    pub work: Vec<String>,
    /// Debut date.
    pub date: String,
    /// Name as written in Japanese.
    pub origname: String,
}

/// One item of a character or music ranking.
#[derive(Clone, Debug)]
pub struct RankingEntry {
    /// Dense rank: 1, 2, 3, ... in rank order.
    pub rank: usize,
    /// Rank shown to users, shared across equal vote counts.
    pub display_rank: usize,
    pub name: String,
    pub vote_count: u32,
    pub first_vote_count: u32,
    /// First-choice votes over votes.
    pub first_vote_percentage: Ratio,
    /// Votes plus first-choice votes.
    pub first_vote_count_weighted: u64,
    pub character_type: String,
    pub character_origin: String,
    pub first_appearance: String,
    pub name_jpn: String,
    /// Votes over all votes.
    pub vote_percentage: Ratio,
    /// First-choice votes over all first-choice votes.
    pub first_percentage: Ratio,
    pub male_vote_count: u32,
    /// Male votes over the item's votes.
    pub male_percentage_per_char: Ratio,
    /// Male votes over all male votes.
    pub male_percentage_per_total: Ratio,
    pub female_vote_count: u32,
    /// Female votes over the item's votes.
    pub female_percentage_per_char: Ratio,
    /// Female votes over all female votes.
    pub female_percentage_per_total: Ratio,
    pub trend: Vec<VotingTrendItem>,
    pub trend_first: Vec<VotingTrendItem>,
    pub reasons: Vec<String>,
}

/// The summary of a ranking.
#[derive(Clone, Copy, Debug, PartialEq, Eq, Structural)]
pub struct RankingGlobal {
    /// Number of ranked items.
    pub total_unique_items: usize,
    pub total_first: u32,
    pub total_votes: u32,
    pub average_votes_per_item: Ratio,
    pub median_votes_per_item: Ratio,
}

/// The answer to a ranking request.
#[derive(Clone, Debug)]
pub struct RankingQueryResponse {
    pub entries: Vec<RankingEntry>,
    pub global: RankingGlobal,
}

/// One validated answer of the questionnaire.
#[derive(Debug)]
pub struct ValidQuestionnaireResponse {
    pub id: i32,
    pub answer: Option<HashSet<i32>>,
    pub answer_str: Option<String>,
}

/// The reasons given for one ranked item.
#[derive(Clone, Debug)]
pub struct ReasonsResponse {
    pub reasons: Vec<String>,
}

/// The trends of one ranked item.
#[derive(Clone, Debug)]
pub struct TrendResponse {
    pub trend: Vec<VotingTrendItem>,
    pub trend_first: Vec<VotingTrendItem>,
}

} // verus!
