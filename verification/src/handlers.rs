//! The requests of the service and what is checked of them before any scan.

use vstd::prelude::*;
use crate::service_error::{bare_error, ErrorView, SERVICE_NAME, ServiceError};

verus! {

/// The longest filter that is accepted, in characters.
pub const MAX_QUERY_CHARS: usize = 1000;

/// A ranking of one section, optionally filtered.
#[derive(Clone, Debug)]
pub struct RankingQueryRequest {
    pub query: Option<String>,
    /// Start of the poll, in milliseconds since the epoch.
    pub vote_start: i64,
    pub vote_year: i32,
}

/// The reasons given for the item at a rank.
#[derive(Clone, Debug)]
pub struct ReasonsRequest {
    pub query: Option<String>,
    pub vote_start: i64,
    pub vote_year: i32,
    pub rank: i32,
}

/// The trend of an item or of a question.
#[derive(Clone, Debug)]
pub struct TrendRequest {
    pub query: Option<String>,
    pub vote_start: i64,
    pub vote_year: i32,
    pub name: String,
}

/// The summary of all ballots of a year.
#[derive(Clone, Copy, Debug, PartialEq, Eq, Structural)]
pub struct GlobalStatsRequest {
    pub vote_start: i64,
    pub vote_year: i32,
}

/// The tabulation of some questions of the questionnaire.
#[derive(Clone, Debug)]
pub struct QueryQuestionnaireRequest {
    pub vote_start: i64,
    pub vote_year: i32,
    /// The ids of the questions asked for.
    pub questions_of_interest: Vec<String>,
    pub query: Option<String>,
}

/// The pairwise tables of the top `first_k` items.
#[derive(Clone, Debug)]
pub struct CovoteRequest {
    pub vote_start: i64,
    pub query: Option<String>,
    pub vote_year: i32,
    pub first_k: i32,
}

/// The error for a filter that is too long.
pub open spec fn query_too_long() -> ErrorView {
    ErrorView { human_readable_message: Some("查询过长"@), ..bare_error(SERVICE_NAME@, "QUERY_TOO_LONG"@) }
}

/// The error for a rank or a number of items below one.
pub open spec fn invalid_k() -> ErrorView {
    ErrorView { human_readable_message: Some("无效的k参数"@), ..bare_error(SERVICE_NAME@, "INVALID_K"@) }
}

/// The error for a request that names no question.
pub open spec fn no_questions() -> ErrorView {
    ErrorView { human_readable_message: Some("没有问题查询"@), ..bare_error(SERVICE_NAME@, "NO_QUESTIONNAIRE_REQUESTED"@) }
}

/// The filter is absent or at most `MAX_QUERY_CHARS` characters long.
pub open spec fn query_fits(query: Option<String>) -> bool {
    match query {
        Some(q) => q@.len() <= MAX_QUERY_CHARS,
        None => true,
    }
}

/// The error for a rank or a number of items below one.
pub fn invalid_k_error() -> (e: ServiceError)
    ensures
        e@ == invalid_k(),
{
    ServiceError::new_human_readable(SERVICE_NAME, "INVALID_K", "无效的k参数".to_owned())
}

/// Refuses a filter of more than `MAX_QUERY_CHARS` characters.
pub fn check_query(query: &Option<String>) -> (r: Result<(), ServiceError>)
    ensures
        query_fits(*query) ==> r.is_ok(),
        !query_fits(*query) ==> r.is_err() && r.unwrap_err()@ == query_too_long(),
{
    match query {
        Some(q) => {
            if q.as_str().unicode_len() > MAX_QUERY_CHARS {
                Err(ServiceError::new_human_readable(SERVICE_NAME, "QUERY_TOO_LONG", "查询过长".to_owned()))
            } else {
                Ok(())
            }
        },
        None => Ok(()),
    }
}

/// Refuses a rank, or a number of items, below one.
pub fn check_rank(rank: i32) -> (r: Result<(), ServiceError>)
    ensures
        rank >= 1 ==> r.is_ok(),
        rank < 1 ==> r.is_err() && r.unwrap_err()@ == invalid_k(),
{
    if rank <= 0 {
        Err(invalid_k_error())
    } else {
        Ok(())
    }
}

/// Refuses an empty list of questions.
pub fn check_questions(questions: &Vec<String>) -> (r: Result<(), ServiceError>)
    ensures
        questions.len() > 0 ==> r.is_ok(),
        questions.len() == 0 ==> r.is_err() && r.unwrap_err()@ == no_questions(),
{
    if questions.len() == 0 {
        Err(ServiceError::new_human_readable(SERVICE_NAME, "NO_QUESTIONNAIRE_REQUESTED", "没有问题查询".to_owned()))
    } else {
        Ok(())
    }
}

impl RankingQueryRequest {
    /// What is checked before a ranking is computed.
    pub fn validate(&self) -> (r: Result<(), ServiceError>)
        ensures
            query_fits(self.query) ==> r.is_ok(),
            !query_fits(self.query) ==> r.is_err() && r.unwrap_err()@ == query_too_long(),
    {
        check_query(&self.query)
    }
}

impl TrendRequest {
    /// What is checked before a trend is looked up.
    pub fn validate(&self) -> (r: Result<(), ServiceError>)
        ensures
            query_fits(self.query) ==> r.is_ok(),
            !query_fits(self.query) ==> r.is_err() && r.unwrap_err()@ == query_too_long(),
    {
        check_query(&self.query)
    }
}

impl ReasonsRequest {
    /// The filter is checked first, then the rank.
    pub fn validate(&self) -> (r: Result<(), ServiceError>)
        ensures
            query_fits(self.query) && self.rank >= 1 ==> r.is_ok(),
            !query_fits(self.query) ==> r.is_err() && r.unwrap_err()@ == query_too_long(),
            query_fits(self.query) && self.rank < 1 ==> r.is_err() && r.unwrap_err()@ == invalid_k(),
    {
        match check_query(&self.query) {
            Err(e) => Err(e),
            Ok(()) => check_rank(self.rank),
        }
    }
}

impl CovoteRequest {
    /// The filter is checked first, then the number of items.
    pub fn validate(&self) -> (r: Result<(), ServiceError>)
        ensures
            query_fits(self.query) && self.first_k >= 1 ==> r.is_ok(),
            !query_fits(self.query) ==> r.is_err() && r.unwrap_err()@ == query_too_long(),
            query_fits(self.query) && self.first_k < 1 ==> r.is_err() && r.unwrap_err()@ == invalid_k(),
    {
        match check_query(&self.query) {
            Err(e) => Err(e),
            Ok(()) => check_rank(self.first_k),
        }
    }
}

impl QueryQuestionnaireRequest {
    /// The filter is checked first, then the list of questions.
    pub fn validate(&self) -> (r: Result<(), ServiceError>)
        ensures
            query_fits(self.query) && self.questions_of_interest.len() > 0 ==> r.is_ok(),
            !query_fits(self.query) ==> r.is_err() && r.unwrap_err()@ == query_too_long(),
            query_fits(self.query) && self.questions_of_interest.len() == 0
                ==> r.is_err() && r.unwrap_err()@ == no_questions(),
    {
        match check_query(&self.query) {
            Err(e) => Err(e),
            Ok(()) => check_questions(&self.questions_of_interest),
        }
    }
}

} // verus!
