//! The payloads of the intake service, which produces the ballots.

use std::collections::HashSet;
use vstd::prelude::*;

verus! {

/// The claim carried by a vote token.
#[derive(Clone, Debug)]
pub struct VoteTokenClaim {
    pub vote_id: Option<String>,
}

/// Asks for what a voter has submitted.
#[derive(Clone, Debug)]
pub struct QuerySubmitRequest {
    pub vote_id: String,
}

/// How many voters have submitted what.
#[derive(Clone, Copy, Debug, PartialEq, Eq, Structural)]
pub struct VotingStatistics {
    pub num_user: u64,
    pub num_finished_paper: u64,
    pub num_finished_voting: u64,
    pub num_character: u64,
    pub num_cp: u64,
    pub num_music: u64,
    pub num_dojin: u64,
}

/// The names that a submission may pick from.
#[derive(Debug)]
pub struct SubmitValidatorV1 {
    pub all_characters: HashSet<String>,
    pub all_music: HashSet<String>,
}

} // verus!
