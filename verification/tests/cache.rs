use result_query::cache::{failure_error, lock_held, step, Action, Event, Failure, Stage};
use result_query::handlers::{check_query, check_questions, check_rank, CovoteRequest, QueryQuestionnaireRequest, RankingQueryRequest, ReasonsRequest};
use result_query::service_error::{ServiceError, ServiceErrorResponse};

/// A store that answers every action at once, and counts the scans.
struct Store {
    cache: Option<Vec<u8>>,
    computed: Vec<u8>,
    lock_free: bool,
    scans: usize,
}

fn request(store: &mut Store) -> Result<Vec<u8>, Failure> {
    let (mut stage, mut action) = step(Stage::Idle, Event::Begin);
    loop {
        let event = match action {
            Action::LookUp => {
                if store.cache.is_some() {
                    Event::CacheHit
                } else {
                    Event::CacheMiss
                }
            }
            Action::AcquireLock => {
                if store.lock_free {
                    Event::LockAcquired
                } else {
                    Event::LockFailed
                }
            }
            Action::Scan => {
                assert!(lock_held(stage));
                store.scans += 1;
                Event::Scanned
            }
            Action::Store => {
                assert!(lock_held(stage));
                store.cache = Some(store.computed.clone());
                Event::Stored
            }
            Action::RespondCached => return Ok(store.cache.clone().unwrap()),
            Action::RespondComputed => return Ok(store.computed.clone()),
            Action::Fail(f) => return Err(f),
        };
        let next = step(stage, event);
        stage = next.0;
        action = next.1;
    }
}

#[test]
fn second_request_is_served_from_the_cache() {
    let mut store = Store { cache: None, computed: vec![1, 2, 3], lock_free: true, scans: 0 };
    let first = request(&mut store).unwrap();
    assert_eq!(store.scans, 1);
    let second = request(&mut store).unwrap();
    assert_eq!(store.scans, 1);
    assert_eq!(first, second);
    assert_eq!(first, vec![1, 2, 3]);
}

#[test]
fn lock_failure_fails_the_request() {
    let mut store = Store { cache: None, computed: vec![1], lock_free: false, scans: 0 };
    assert_eq!(request(&mut store), Err(Failure::LockUnavailable));
    assert_eq!(store.scans, 0);
    assert_eq!(store.cache, None);
    assert!(failure_error(Failure::LockUnavailable, Some("timeout".to_string())).is_kind("LOCK_UNAVAILABLE"));
}

#[test]
fn empty_answer_is_stored_too() {
    let mut store = Store { cache: None, computed: vec![], lock_free: true, scans: 0 };
    assert_eq!(request(&mut store), Ok(vec![]));
    assert_eq!(store.cache, Some(vec![]));
    assert_eq!(request(&mut store), Ok(vec![]));
    assert_eq!(store.scans, 1);
}

#[test]
fn protocol_steps() {
    assert_eq!(step(Stage::Idle, Event::Begin), (Stage::FirstLookup, Action::LookUp));
    assert_eq!(step(Stage::FirstLookup, Event::CacheHit), (Stage::Done, Action::RespondCached));
    assert_eq!(step(Stage::FirstLookup, Event::CacheMiss), (Stage::Locking, Action::AcquireLock));
    assert_eq!(step(Stage::Locking, Event::LockAcquired), (Stage::SecondLookup, Action::LookUp));
    assert_eq!(step(Stage::SecondLookup, Event::CacheHit), (Stage::Done, Action::RespondCached));
    assert_eq!(step(Stage::SecondLookup, Event::CacheMiss), (Stage::Scanning, Action::Scan));
    assert_eq!(step(Stage::Scanning, Event::ScanFailed), (Stage::Done, Action::Fail(Failure::UpstreamStoreError)));
    assert_eq!(step(Stage::Scanning, Event::Scanned), (Stage::Storing, Action::Store));
    assert_eq!(step(Stage::Storing, Event::Scanned), (Stage::Done, Action::Fail(Failure::UnexpectedEvent)));
    assert_eq!(step(Stage::Storing, Event::StoreFailed), (Stage::Done, Action::Fail(Failure::UpstreamStoreError)));
    assert_eq!(step(Stage::Storing, Event::Stored), (Stage::Done, Action::RespondComputed));
    assert_eq!(step(Stage::Idle, Event::Stored), (Stage::Done, Action::Fail(Failure::UnexpectedEvent)));
    assert_eq!(step(Stage::Done, Event::Begin), (Stage::Done, Action::Fail(Failure::UnexpectedEvent)));
    assert!(!lock_held(Stage::Locking) && lock_held(Stage::Scanning));
    let e = failure_error(Failure::UpstreamStoreError, Some("connection reset".to_string()));
    assert!(e.is_kind("UPSTREAM_STORE_ERROR"));
    assert!(failure_error(Failure::UnexpectedEvent, None).is_kind("INTERNAL_SERVER_ERROR"));
}

fn kind(r: Result<(), ServiceError>) -> Option<String> {
    r.err().map(|e| e.kind().clone())
}

#[test]
fn requests_are_validated() {
    let long: String = std::iter::repeat('字').take(1001).collect();
    let fits: String = std::iter::repeat('字').take(1000).collect();
    assert_eq!(kind(check_query(&Some(long.clone()))), Some("QUERY_TOO_LONG".to_string()));
    assert_eq!(kind(check_query(&Some(fits.clone()))), None);
    assert_eq!(kind(check_query(&None)), None);
    assert_eq!(kind(check_rank(0)), Some("INVALID_K".to_string()));
    assert_eq!(kind(check_rank(-1)), Some("INVALID_K".to_string()));
    assert_eq!(kind(check_rank(1)), None);
    assert_eq!(kind(check_questions(&vec![])), Some("NO_QUESTIONNAIRE_REQUESTED".to_string()));
    assert_eq!(kind(check_questions(&vec!["q1".to_string()])), None);
    let ranking = RankingQueryRequest { query: Some(long.clone()), vote_start: 0, vote_year: 1 };
    assert_eq!(kind(ranking.validate()), Some("QUERY_TOO_LONG".to_string()));
    let reasons = ReasonsRequest { query: Some(long.clone()), vote_start: 0, vote_year: 1, rank: 0 };
    assert_eq!(kind(reasons.validate()), Some("QUERY_TOO_LONG".to_string()));
    let reasons = ReasonsRequest { query: Some(fits.clone()), vote_start: 0, vote_year: 1, rank: 0 };
    assert_eq!(kind(reasons.validate()), Some("INVALID_K".to_string()));
    let covote = CovoteRequest { query: None, vote_start: 0, vote_year: 1, first_k: 0 };
    assert_eq!(kind(covote.validate()), Some("INVALID_K".to_string()));
    let paper = QueryQuestionnaireRequest { query: None, vote_start: 0, vote_year: 1, questions_of_interest: vec![] };
    assert_eq!(kind(paper.validate()), Some("NO_QUESTIONNAIRE_REQUESTED".to_string()));
}

#[test]
fn errors_carry_their_parts() {
    let e = ServiceError::new_human_readable("svc", "KIND", "message".to_string());
    let ServiceError::Error { resp } = &e;
    assert_eq!(
        (resp.service.as_str(), resp.error_kind.as_str(), resp.human_readable_message.as_deref(), resp.error_message.as_deref()),
        ("svc", "KIND", Some("message"), None)
    );
    assert_eq!(e.name(), "Error");
    let ServiceError::Error { resp } = ServiceError::new("svc", "boom".to_string());
    assert_eq!((resp.error_kind.as_str(), resp.error_message.as_deref()), ("INTERNAL_SERVER_ERROR", Some("boom")));
    let ServiceError::Error { resp } = ServiceError::new_network_error("svc", "http://x", Some("down".to_string()));
    assert_eq!((resp.error_kind.as_str(), resp.url.as_deref(), resp.error_message.as_deref()), ("NETWORK_ERROR", Some("http://x"), Some("down")));
    let ServiceError::Error { resp } = ServiceError::new_json_error("svc", "http://x", None);
    assert_eq!((resp.error_kind.as_str(), resp.url.as_deref()), ("JSON_DECODE_ERROR", Some("http://x")));
    let ServiceError::Error { resp } = ServiceError::new_jwt_error("svc", None);
    assert_eq!((resp.error_kind.as_str(), resp.human_readable_message.as_deref()), ("INVALID_TOKEN", Some("无效凭证或不在投票日期")));
    let ServiceError::Error { resp } = ServiceError::new_not_found("svc", Some("thing".to_string()));
    assert_eq!((resp.error_kind.as_str(), resp.error_message.as_deref()), ("NOT_FOUND", Some("thing")));
    let ServiceError::Error { resp } = ServiceError::new_error_kind("svc", "K");
    assert_eq!((resp.error_kind.as_str(), resp.error_message), ("K", None));
    let payload = ServiceErrorResponse {
        service: "s".to_string(),
        url: None,
        error_kind: "K".to_string(),
        error_message: Some("m".to_string()),
        human_readable_message: None,
        upstream_response_string: Some("raw".to_string()),
    };
    let ServiceError::Error { resp } = payload.to_service_error();
    assert_eq!((resp.service.as_str(), resp.upstream_response_string.as_deref()), ("s", Some("raw")));
    assert!(ServiceError::from_resp(payload).is_kind("K"));
}
