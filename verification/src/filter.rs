//! What a request filter answers.

use vstd::prelude::*;

verus! {

/// Request filter result indicating how the current request should be processed further
#[derive(Debug, Copy, Clone, PartialEq, Eq, Structural)]
pub enum RequestFilterResult {
    /// Response has been sent, no further processing should happen. Other phases should
    /// not be triggered.
    ResponseSent,
    /// Request has been handled and further request filters should not run. Response
    /// hasn't been sent however, next phase should deal with that.
    Handled,
    /// Request filter could not handle this request, next request filter should run if it
    /// exists.
    Unhandled,
}

impl Default for RequestFilterResult {
    /// A request is unhandled until a filter handles it.
    fn default() -> (result: Self)
        ensures
            result == RequestFilterResult::Unhandled,
    {
        RequestFilterResult::Unhandled
    }
}

impl RequestFilterResult {
    /// Tells whether processing of the request ends here, as it does where, and only
    /// where, the response has been sent. This is what a single handler answers in
    /// place of its result.
    pub fn response_sent(self) -> (sent: bool)
        ensures
            sent == (self == RequestFilterResult::ResponseSent),
    {
        self == RequestFilterResult::ResponseSent
    }
}

} // verus!
