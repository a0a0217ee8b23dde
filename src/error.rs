//! Response status codes and the service's structured error.
use vstd::prelude::*;
use crate::text::{contains_text, find_text};

verus! {

/// The status of a response, each with its HTTP code.
#[derive(Clone, Copy, Debug, PartialEq, Eq, Structural)]
pub enum Status {
    Success,
    Accepted,
    BadRequest,
    InternalServerError,
    GatewayTimeout,
}

impl Status {
    pub open spec fn code_spec(&self) -> u16 {
        match self {
            Status::Success => 200,
            Status::Accepted => 202,
            Status::BadRequest => 400,
            Status::InternalServerError => 500,
            Status::GatewayTimeout => 504,
        }
    }

    /// The HTTP status code.
    pub fn code(&self) -> (r: u16)
        ensures
            r == self.code_spec(),
    {
        match self {
            Status::Success => 200,
            Status::Accepted => 202,
            Status::BadRequest => 400,
            Status::InternalServerError => 500,
            Status::GatewayTimeout => 504,
        }
    }

    /// The status whose HTTP code is `v`, if there is one.
    pub open spec fn from_code_spec(v: u64) -> Option<Status> {
        if v == 200 {
            Some(Status::Success)
        } else if v == 202 {
            Some(Status::Accepted)
        } else if v == 400 {
            Some(Status::BadRequest)
        } else if v == 500 {
            Some(Status::InternalServerError)
        } else if v == 504 {
            Some(Status::GatewayTimeout)
        } else {
            None
        }
    }

    /// The status with the given HTTP code, if it is one of the five.
    pub fn from_code(v: u64) -> (r: Option<Status>)
        ensures
            r == Status::from_code_spec(v),
            match r {
                Some(s) => s.code_spec() as u64 == v,
                None => forall|s: Status| s.code_spec() as u64 != v,
            },
    {
        match v {
            200 => Some(Status::Success),
            202 => Some(Status::Accepted),
            400 => Some(Status::BadRequest),
            500 => Some(Status::InternalServerError),
            504 => Some(Status::GatewayTimeout),
            _ => None,
        }
    }
}

/// The status for an unstructured failure reported by the runtime: a
/// message that mentions `timed out` is a gateway timeout, any other an
/// internal server error.
pub fn status_for_error_message(msg: &str) -> (r: Status)
    ensures
        r == if contains_text(msg@, "timed out"@) { Status::GatewayTimeout } else { Status::InternalServerError },
{
    if find_text(msg, "timed out") {
        Status::GatewayTimeout
    } else {
        Status::InternalServerError
    }
}

/// An error with a human-readable message and the status it maps to.
#[derive(Clone, Debug)]
pub struct ServiceError {
    pub msg: String,
    pub status: Status,
}

impl ServiceError {
    /// A user error: the request or its input is malformed.
    pub fn bad_request(msg: &str) -> (r: ServiceError)
        ensures
            r.msg@ == msg@,
            r.status == Status::BadRequest,
    {
        ServiceError { msg: msg.to_owned(), status: Status::BadRequest }
    }

    /// A server-side failure.
    pub fn internal_server_error(msg: &str) -> (r: ServiceError)
        ensures
            r.msg@ == msg@,
            r.status == Status::InternalServerError,
    {
        ServiceError { msg: msg.to_owned(), status: Status::InternalServerError }
    }
}

/// Shorthand for an internal server error.
pub fn ise(msg: &str) -> (r: ServiceError)
    ensures
        r.msg@ == msg@,
        r.status == Status::InternalServerError,
{
    ServiceError::internal_server_error(msg)
}

} // verus!
