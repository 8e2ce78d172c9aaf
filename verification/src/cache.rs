//! The cache-aside protocol: an answer is looked up in the cache; on a
//! miss a lock is taken, the cache is looked up once more, and only then
//! the ballots are scanned and the answer is stored.
//!
//! The protocol decides; the caller performs each action against the
//! store and the lock and reports what happened.

use vstd::prelude::*;
use crate::service_error::{bare_error, ErrorView, SERVICE_NAME, ServiceError, ServiceErrorResponse};
use crate::text::opt_text;

verus! {

/// Where a request stands.
#[derive(Clone, Copy, Debug, PartialEq, Eq, Structural)]
pub enum Stage {
    Idle,
    /// The cache is being looked up, without the lock.
    FirstLookup,
    /// The lock is being acquired.
    Locking,
    /// The cache is being looked up once more, under the lock.
    SecondLookup,
    /// The ballots are being scanned, under the lock.
    Scanning,
    /// The answer is being stored, under the lock.
    Storing,
    Done,
}

/// What the caller reports.
#[derive(Clone, Copy, Debug, PartialEq, Eq, Structural)]
pub enum Event {
    Begin,
    CacheHit,
    CacheMiss,
    LockAcquired,
    /// The lock could not be acquired, or acquiring it timed out.
    LockFailed,
    /// The scan ended with an answer.
    Scanned,
    ScanFailed,
    Stored,
    StoreFailed,
}

/// Why a request fails.
#[derive(Clone, Copy, Debug, PartialEq, Eq, Structural)]
pub enum Failure {
    LockUnavailable,
    UpstreamStoreError,
    /// An event was reported that the stage does not await.
    UnexpectedEvent,
}

/// What the caller is to do next. The last three end the request; the
/// caller then releases the lock if it holds it.
#[derive(Clone, Copy, Debug, PartialEq, Eq, Structural)]
pub enum Action {
    LookUp,
    AcquireLock,
    Scan,
    Store,
    /// Answer with what the cache held.
    RespondCached,
    /// Answer with what the scan computed.
    RespondComputed,
    Fail(Failure),
}

/// The stage and the action that follow an event.
pub open spec fn next(stage: Stage, event: Event) -> (Stage, Action) {
    match (stage, event) {
        (Stage::Idle, Event::Begin) => (Stage::FirstLookup, Action::LookUp),
        (Stage::FirstLookup, Event::CacheHit) => (Stage::Done, Action::RespondCached),
        (Stage::FirstLookup, Event::CacheMiss) => (Stage::Locking, Action::AcquireLock),
        (Stage::Locking, Event::LockAcquired) => (Stage::SecondLookup, Action::LookUp),
        (Stage::Locking, Event::LockFailed) => (Stage::Done, Action::Fail(Failure::LockUnavailable)),
        (Stage::SecondLookup, Event::CacheHit) => (Stage::Done, Action::RespondCached),
        (Stage::SecondLookup, Event::CacheMiss) => (Stage::Scanning, Action::Scan),
        (Stage::Scanning, Event::Scanned) => (Stage::Storing, Action::Store),
        (Stage::Scanning, Event::ScanFailed) => (Stage::Done, Action::Fail(Failure::UpstreamStoreError)),
        (Stage::Storing, Event::Stored) => (Stage::Done, Action::RespondComputed),
        (Stage::Storing, Event::StoreFailed) => (Stage::Done, Action::Fail(Failure::UpstreamStoreError)),
        _ => (Stage::Done, Action::Fail(Failure::UnexpectedEvent)),
    }
}

/// The lock is held in this stage.
pub open spec fn holds_lock(stage: Stage) -> bool {
    stage == Stage::SecondLookup || stage == Stage::Scanning || stage == Stage::Storing
}

/// The stage and the action that follow an event.
pub fn step(stage: Stage, event: Event) -> (r: (Stage, Action))
    ensures
        r == next(stage, event),
{
    match (stage, event) {
        (Stage::Idle, Event::Begin) => (Stage::FirstLookup, Action::LookUp),
        (Stage::FirstLookup, Event::CacheHit) => (Stage::Done, Action::RespondCached),
        (Stage::FirstLookup, Event::CacheMiss) => (Stage::Locking, Action::AcquireLock),
        (Stage::Locking, Event::LockAcquired) => (Stage::SecondLookup, Action::LookUp),
        (Stage::Locking, Event::LockFailed) => (Stage::Done, Action::Fail(Failure::LockUnavailable)),
        (Stage::SecondLookup, Event::CacheHit) => (Stage::Done, Action::RespondCached),
        (Stage::SecondLookup, Event::CacheMiss) => (Stage::Scanning, Action::Scan),
        (Stage::Scanning, Event::Scanned) => (Stage::Storing, Action::Store),
        (Stage::Scanning, Event::ScanFailed) => (Stage::Done, Action::Fail(Failure::UpstreamStoreError)),
        (Stage::Storing, Event::Stored) => (Stage::Done, Action::RespondComputed),
        (Stage::Storing, Event::StoreFailed) => (Stage::Done, Action::Fail(Failure::UpstreamStoreError)),
        _ => (Stage::Done, Action::Fail(Failure::UnexpectedEvent)),
    }
}

/// Whether the lock is held in the stage.
pub fn lock_held(stage: Stage) -> (r: bool)
    ensures
        r == holds_lock(stage),
{
    match stage {
        Stage::SecondLookup => true,
        Stage::Scanning => true,
        Stage::Storing => true,
        _ => false,
    }
}

/// The machine-readable kind of a failure.
pub open spec fn failure_kind(f: Failure) -> Seq<char> {
    match f {
        Failure::LockUnavailable => "LOCK_UNAVAILABLE"@,
        Failure::UpstreamStoreError => "UPSTREAM_STORE_ERROR"@,
        Failure::UnexpectedEvent => "INTERNAL_SERVER_ERROR"@,
    }
}

/// The error that a failed request answers with; `detail` is what the
/// store or the lock reported.
pub fn failure_error(f: Failure, detail: Option<String>) -> (e: ServiceError)
    ensures
        e@ == (ErrorView { error_message: opt_text(detail), ..bare_error(SERVICE_NAME@,
            failure_kind(f)) }),
{
    let kind = match f {
        Failure::LockUnavailable => "LOCK_UNAVAILABLE",
        Failure::UpstreamStoreError => "UPSTREAM_STORE_ERROR",
        Failure::UnexpectedEvent => "INTERNAL_SERVER_ERROR",
    };
    match ServiceError::new_error_kind(SERVICE_NAME, kind) {
        ServiceError::Error { resp } => ServiceError::Error {
            resp: ServiceErrorResponse {
                service: resp.service,
                url: resp.url,
                error_kind: resp.error_kind,
                error_message: detail,
                human_readable_message: resp.human_readable_message,
                upstream_response_string: resp.upstream_response_string,
            },
        },
    }
}

/// The ballots are scanned only under the lock, after a second miss.
pub proof fn lemma_scan_only_under_lock(stage: Stage, event: Event)
    ensures
        next(stage, event).1 == Action::Scan
            ==> stage == Stage::SecondLookup && event == Event::CacheMiss && holds_lock(stage),
        next(stage, event).1 == Action::Store ==> holds_lock(stage),
        holds_lock(next(stage, event).0)
            ==> holds_lock(stage) || (stage == Stage::Locking && event == Event::LockAcquired),
{
}

/// A lock that cannot be acquired fails the request: nothing is scanned.
pub proof fn lemma_lock_failure_is_an_error()
    ensures
        next(Stage::Locking, Event::LockFailed) == (Stage::Done, Action::Fail(Failure::LockUnavailable)),
{
}

/// A store and a lock that the protocol runs against: what the cache holds
/// for the request, what a scan computes, whether the lock is free, and how
/// often the ballots were scanned.
pub ghost struct World<P> {
    pub cache: Option<P>,
    pub computed: P,
    pub lock_free: bool,
    pub scans: nat,
}

/// How a request ended.
pub ghost enum Answer<P> {
    Value(P),
    Failed(Failure),
    /// The request did not end within the steps allowed.
    Pending,
}

/// Runs the protocol against a store that answers every action at once:
/// from the given stage and event, for at most `fuel` steps.
pub open spec fn drive<P>(
    stage: Stage,
    event: Event,
    w: World<P>,
    fuel: nat,
) -> (World<P>, Answer<P>)
    decreases fuel,
{
    if fuel == 0 {
        (w, Answer::Pending)
    } else {
        let (then, action) = next(stage, event);
        match action {
            Action::LookUp => drive(then, if w.cache.is_some() { Event::CacheHit } else { Event::CacheMiss }, w,
                (fuel - 1) as nat),
            Action::AcquireLock => drive(then, if w.lock_free { Event::LockAcquired } else { Event::LockFailed },
                w, (fuel - 1) as nat),
            Action::Scan => drive(then, Event::Scanned, World { scans: w.scans
                + 1, ..w }, (fuel - 1) as nat),
            Action::Store => drive(then, Event::Stored, World { cache: Some(w.computed), ..w }, (fuel - 1) as nat),
            Action::RespondCached => (w, Answer::Value(w.cache.unwrap())),
            Action::RespondComputed => (w, Answer::Value(w.computed)),
            Action::Fail(f) => (w, Answer::Failed(f)),
        }
    }
}

/// One request against the store.
pub open spec fn serve<P>(w: World<P>) -> (World<P>, Answer<P>) {
    drive(Stage::Idle, Event::Begin, w, 8)
}

/// A request against a cold cache scans once, stores what it computed and
/// answers with it.
pub proof fn lemma_cold_request<P>(w: World<P>)
    requires
        w.cache.is_none(),
        w.lock_free,
    ensures
        serve(w) == (World { cache: Some(w.computed), scans: w.scans + 1, ..w }, Answer::Value(w.computed)),
{
    reveal_with_fuel(drive, 8);
}

/// A request against a warm cache answers with what the cache holds and
/// scans nothing.
pub proof fn lemma_warm_request<P>(w: World<P>)
    requires
        w.cache.is_some(),
    ensures
        serve(w) == (w, Answer::Value(w.cache.unwrap())),
{
    reveal_with_fuel(drive, 8);
}

/// The same request twice, against a cold cache and then against the cache
/// that the first request left: both are answered alike, and the second
/// scans nothing.
pub proof fn lemma_cache_idempotent<P>(w: World<P>)
    requires
        w.cache.is_none(),
        w.lock_free,
    ensures
        serve(serve(w).0).1 == serve(w).1,
        serve(w).0.scans == w.scans + 1,
        serve(serve(w).0).0.scans == serve(w).0.scans,
        serve(serve(w).0).0 == serve(w).0,
{
    lemma_cold_request(w);
    lemma_warm_request(serve(w).0);
}

/// Every answer is stored: whatever the cache held before, after a request
/// that was answered the same request is answered alike from the cache,
/// without a scan, and the store is left as it is.
pub proof fn lemma_answered_once_served_from_cache<P>(w: World<P>)
    requires
        serve(w).1 is Value,
    ensures
        serve(w).0.cache.is_some(),
        serve(serve(w).0).1 == serve(w).1,
        serve(serve(w).0).0 == serve(w).0,
{
    reveal_with_fuel(drive, 8);
    if w.cache.is_none() {
        assert(w.lock_free);
        lemma_cold_request(w);
    } else {
        lemma_warm_request(w);
    }
    lemma_warm_request(serve(w).0);
}

/// The answer of a scan is stored before it is given.
pub proof fn lemma_scan_is_stored(stage: Stage)
    ensures
        next(Stage::Scanning, Event::Scanned) == (Stage::Storing, Action::Store),
        next(stage, Event::Scanned).1 == Action::Store
            || next(stage, Event::Scanned).1 == Action::Fail(Failure::UnexpectedEvent),
        next(stage, Event::Stored).1 == Action::RespondComputed ==> stage == Stage::Storing,
{
}

/// A request that finds the lock taken fails, scans nothing and leaves the
/// cache as it was.
pub proof fn lemma_locked_request<P>(w: World<P>)
    requires
        w.cache.is_none(),
        !w.lock_free,
    ensures
        serve(w) == (w, Answer::<P>::Failed(Failure::LockUnavailable)),
{
    reveal_with_fuel(drive, 8);
}

} // verus!
