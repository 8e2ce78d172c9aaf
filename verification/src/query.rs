//! What a request is turned into before the store is asked: the compiled
//! filter, the key of the cache and the name of the lock.

use vstd::prelude::*;
use vstd::string::StringExecFns;
use crate::filter::{cache_key, cache_key_of, Filter};
use crate::parser::{compiled, generate_mongodb_query, malformed_query};
use crate::service_error::ServiceError;
use crate::text::opt_text;

verus! {

/// The cache key of a request: of its filter, or `none` without a filter.
pub open spec fn request_key(query: Option<Seq<char>>) -> Option<Seq<char>> {
    match query {
        None => Some("none"@),
        Some(q) => match compiled(q) {
            Some(f) => Some(cache_key_of(f)),
            None => None,
        },
    }
}

/// Compiles the filter of a request, if it has one, and derives the key
/// under which the answer is cached.
pub fn process_query(query: Option<String>) -> (r: Result<(Option<Filter>, String), ServiceError>)
    ensures
        match r {
            Ok((filter, key)) => {
                &&& request_key(opt_text(query)) == Some(key@)
                &&& match filter {
                    Some(f) => query.is_some() && compiled(query.unwrap()@) == Some(f@),
                    None => query.is_none(),
                }
            },
            Err(e) => query.is_some() && compiled(query.unwrap()@).is_none() && e@ == malformed_query(),
        },
{
    match query {
        Some(q) => {
            match generate_mongodb_query(q.as_str()) {
                Ok(parsed) => {
                    let key = cache_key(&parsed);
                    Ok((Some(parsed), key))
                },
                Err(e) => Err(e),
            }
        },
        None => Ok((None, String::from_str("none"))),
    }
}

/// The operations that are guarded by a lock while the cache is filled.
#[derive(Clone, Copy, Debug, PartialEq, Eq, Structural)]
pub enum Operation {
    CharsRanking,
    MusicsRanking,
    CpsRanking,
    PaperResult,
    CharsCovote,
    MusicsCovote,
}

/// The name of an operation in the name of its lock.
pub open spec fn operation_name(op: Operation) -> Seq<char> {
    match op {
        Operation::CharsRanking => "chars_ranking"@,
        Operation::MusicsRanking => "musics_ranking"@,
        Operation::CpsRanking => "cps_ranking"@,
        Operation::PaperResult => "paper_result"@,
        Operation::CharsCovote => "chars_covote"@,
        Operation::MusicsCovote => "musics_covote"@,
    }
}

/// The name of the lock of an operation on a cache key.
pub open spec fn lock_id_of(op: Operation, key: Seq<char>) -> Seq<char> {
    "lock-"@ + operation_name(op) + "-"@ + key
}

/// How long a lock is held at most, in milliseconds.
pub const LOCK_LEASE_MILLIS: usize = 60000;

/// The name of the lock of an operation on a cache key.
pub fn lock_id(op: Operation, key: &str) -> (id: String)
    ensures
        id@ == lock_id_of(op, key@),
{
    let name = match op {
        Operation::CharsRanking => "chars_ranking",
        Operation::MusicsRanking => "musics_ranking",
        Operation::CpsRanking => "cps_ranking",
        Operation::PaperResult => "paper_result",
        Operation::CharsCovote => "chars_covote",
        Operation::MusicsCovote => "musics_covote",
    };
    String::from_str("lock-").concat(name).concat("-").concat(key)
}

} // verus!
