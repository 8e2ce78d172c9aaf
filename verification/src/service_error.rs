//! The structured error that every operation of the service answers with.

use vstd::prelude::*;
use crate::text::{copy_opt, opt_text, same_text};

verus! {

/// The name under which this service reports its errors.
pub const SERVICE_NAME: &'static str = "result-query";

/// The payload of an error: the service that failed, a machine-readable
/// kind and optional diagnostics.
#[derive(Clone, Debug)]
pub struct ServiceErrorResponse {
    pub service: String,
    pub url: Option<String>,
    pub error_kind: String,
    pub error_message: Option<String>,
    pub human_readable_message: Option<String>,
    pub upstream_response_string: Option<String>,
}

/// The mathematical value of an error payload.
pub ghost struct ErrorView {
    pub service: Seq<char>,
    pub url: Option<Seq<char>>,
    pub error_kind: Seq<char>,
    pub error_message: Option<Seq<char>>,
    pub human_readable_message: Option<Seq<char>>,
    pub upstream_response_string: Option<Seq<char>>,
}

impl View for ServiceErrorResponse {
    type V = ErrorView;

    open spec fn view(&self) -> ErrorView {
        ErrorView {
            service: self.service@,
            url: opt_text(self.url),
            error_kind: self.error_kind@,
            error_message: opt_text(self.error_message),
            human_readable_message: opt_text(self.human_readable_message),
            upstream_response_string: opt_text(self.upstream_response_string),
        }
    }
}

/// The error of an operation.
#[derive(Clone, Debug)]
pub enum ServiceError {
    Error { resp: ServiceErrorResponse },
}

impl View for ServiceError {
    type V = ErrorView;

    open spec fn view(&self) -> ErrorView {
        match self {
            ServiceError::Error { resp } => resp@,
        }
    }
}

/// An error payload with the given service and kind and nothing else.
pub open spec fn bare_error(service: Seq<char>, kind: Seq<char>) -> ErrorView {
    ErrorView {
        service,
        url: None,
        error_kind: kind,
        error_message: None,
        human_readable_message: None,
        upstream_response_string: None,
    }
}

impl ServiceErrorResponse {
    /// The error that carries a copy of this payload.
    pub fn to_service_error(&self) -> (e: ServiceError)
        ensures
            e@ == self@,
    {
        ServiceError::Error {
            resp: ServiceErrorResponse {
                service: self.service.clone(),
                url: copy_opt(&self.url),
                error_kind: self.error_kind.clone(),
                error_message: copy_opt(&self.error_message),
                human_readable_message: copy_opt(&self.human_readable_message),
                upstream_response_string: copy_opt(&self.upstream_response_string),
            },
        }
    }
}

impl ServiceError {
    /// The name of the variant.
    pub fn name(&self) -> (s: String)
        ensures
            s@ == "Error"@,
    {
        "Error".to_owned()
    }

    /// The error that carries the payload.
    pub fn from_resp(resp: ServiceErrorResponse) -> (e: ServiceError)
        ensures
            e@ == resp@,
    {
        ServiceError::Error { resp }
    }

    /// The machine-readable kind of the error.
    pub fn kind(&self) -> (k: &String)
        ensures
            k@ == self@.error_kind,
    {
        match self {
            ServiceError::Error { resp } => &resp.error_kind,
        }
    }

    /// Whether the error is of the given kind.
    pub fn is_kind(&self, kind: &str) -> (r: bool)
        ensures
            r == (self@.error_kind == kind@),
    {
        same_text(self.kind(), kind)
    }

    /// An error of the given kind and nothing else.
    pub fn new_error_kind(service: &str, error_kind: &str) -> (e: ServiceError)
        ensures
            e@ == bare_error(service@, error_kind@),
    {
        ServiceError::Error {
            resp: ServiceErrorResponse {
                service: service.to_owned(),
                url: None,
                error_kind: error_kind.to_owned(),
                error_message: None,
                human_readable_message: None,
                upstream_response_string: None,
            },
        }
    }

    /// The error for a service that could not be reached.
    pub fn new_network_error(service: &str, url: &str, errmsg: Option<String>) -> (e: ServiceError)
        ensures
            e@ == (ErrorView { url: Some(url@), error_message: opt_text(errmsg), ..bare_error(service@,
                "NETWORK_ERROR"@) }),
    {
        ServiceError::Error {
            resp: ServiceErrorResponse {
                service: service.to_owned(),
                url: Some(url.to_owned()),
                error_kind: "NETWORK_ERROR".to_owned(),
                error_message: errmsg,
                human_readable_message: None,
                upstream_response_string: None,
            },
        }
    }

    /// The error for an answer that could not be decoded.
    pub fn new_json_error(service: &str, url: &str, errmsg: Option<String>) -> (e: ServiceError)
        ensures
            e@ == (ErrorView { url: Some(url@), error_message: opt_text(errmsg), ..bare_error(service@,
                "JSON_DECODE_ERROR"@) }),
    {
        ServiceError::Error {
            resp: ServiceErrorResponse {
                service: service.to_owned(),
                url: Some(url.to_owned()),
                error_kind: "JSON_DECODE_ERROR".to_owned(),
                error_message: errmsg,
                human_readable_message: None,
                upstream_response_string: None,
            },
        }
    }

    /// The error for a token that is invalid or used outside the poll.
    pub fn new_jwt_error(service: &str, errmsg: Option<String>) -> (e: ServiceError)
        ensures
            e@ == (ErrorView {
                error_message: opt_text(errmsg),
                human_readable_message: Some("无效凭证或不在投票日期"@),
                ..bare_error(service@, "INVALID_TOKEN"@)
            }),
    {
        ServiceError::Error {
            resp: ServiceErrorResponse {
                service: service.to_owned(),
                url: None,
                error_kind: "INVALID_TOKEN".to_owned(),
                error_message: errmsg,
                human_readable_message: Some("无效凭证或不在投票日期".to_owned()),
                upstream_response_string: None,
            },
        }
    }

    /// The error for a failure inside the service.
    pub fn new(service: &str, errmsg: String) -> (e: ServiceError)
        ensures
            e@ == (ErrorView { error_message: Some(errmsg@), ..bare_error(service@, "INTERNAL_SERVER_ERROR"@) }),
    {
        ServiceError::Error {
            resp: ServiceErrorResponse {
                service: service.to_owned(),
                url: None,
                error_kind: "INTERNAL_SERVER_ERROR".to_owned(),
                error_message: Some(errmsg),
                human_readable_message: None,
                upstream_response_string: None,
            },
        }
    }

    /// An error of the given kind with a message for the user.
    pub fn new_human_readable(
        service: &str,
        error_kind: &str,
        human_readable_message: String,
    ) -> (e: ServiceError)
        ensures
            e@ == (ErrorView { human_readable_message: Some(human_readable_message@), ..bare_error(service@,
                error_kind@) }),
    {
        ServiceError::Error {
            resp: ServiceErrorResponse {
                service: service.to_owned(),
                url: None,
                error_kind: error_kind.to_owned(),
                error_message: None,
                human_readable_message: Some(human_readable_message),
                upstream_response_string: None,
            },
        }
    }

    /// The error for a resource that does not exist.
    pub fn new_not_found(service: &str, resource_name: Option<String>) -> (e: ServiceError)
        ensures
            e@ == (ErrorView { error_message: opt_text(resource_name), ..bare_error(service@, "NOT_FOUND"@) }),
    {
        ServiceError::Error {
            resp: ServiceErrorResponse {
                service: service.to_owned(),
                url: None,
                error_kind: "NOT_FOUND".to_owned(),
                error_message: resource_name,
                human_readable_message: None,
                upstream_response_string: None,
            },
        }
    }
}

} // verus!
