//! The identifier of the current request, as handlers see it.

use crate::registry::{assigned, Registry};
use vstd::prelude::*;

verus! {

/// Why a request's identifier could not be found.
#[derive(Debug, Clone, Copy, PartialEq, Eq, Structural)]
pub enum LookupError {
    /// The registry holds no entry for the request: the lifecycle hooks were
    /// never attached, or the request is not in flight.
    NotAttached,
}

impl LookupError {
    /// The HTTP status with which the request fails: 500, an internal server
    /// error.
    pub fn status_code(&self) -> (code: u16)
        ensures
            code == 500,
    {
        500
    }

    /// A line for the error log.
    pub fn message(&self) -> (text: &'static str)
        ensures
            text@ == "unable to get request id: did you forget to attach the fairing?"@,
    {
        "unable to get request id: did you forget to attach the fairing?"
    }
}

/// A unique identifier of one request.
///
/// Every `RequestID` obtained for the same request, directly or through
/// another guard, holds the same number. Its view is that number.
#[derive(Debug, PartialEq, Eq, Structural)]
pub struct RequestID {
    id: u64,
}

impl View for RequestID {
    type V = u64;

    closed spec fn view(&self) -> u64 {
        self.id
    }
}

/// What looking up `handle` in `table` gives: the identifier recorded for it,
/// or `NotAttached` where there is none.
pub open spec fn resolved(table: Map<usize, u64>, handle: usize) -> Result<u64, LookupError> {
    match assigned(table, handle) {
        Some(id) => Ok(id),
        None => Err(LookupError::NotAttached),
    }
}

impl RequestID {
    /// The identifier of the request `handle`, read from `registry`.
    ///
    /// Succeeds exactly when the registry holds an entry for `handle`, with
    /// the identifier recorded there; the registry is left as it was.
    pub fn from_request(registry: &Registry, handle: usize) -> (outcome: Result<
        RequestID,
        LookupError,
    >)
        ensures
            match outcome {
                Ok(request_id) => resolved(registry@, handle) == Ok::<u64, LookupError>(
                    request_id@,
                ),
                Err(error) => resolved(registry@, handle) == Err::<u64, LookupError>(error),
            },
    {
        match registry.get(handle) {
            Some(id) => Ok(RequestID { id }),
            None => Err(LookupError::NotAttached),
        }
    }

    /// Two identifiers are equal exactly when they hold the same number.
    pub proof fn lemma_equal_by_number(a: RequestID, b: RequestID)
        ensures
            (a == b) <==> (a@ == b@),
    {
    }
}

impl From<RequestID> for u64 {
    fn from(r: RequestID) -> (number: u64) {
        r.id
    }
}

impl vstd::std_specs::convert::FromSpecImpl<RequestID> for u64 {
    open spec fn obeys_from_spec() -> bool {
        true
    }

    open spec fn from_spec(r: RequestID) -> u64 {
        r@
    }
}

} // verus!
