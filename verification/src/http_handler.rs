//! The HTTP statuses of the disk benchmark's request handler.

use vstd::prelude::*;

verus! {

/// The status of a request that the benchmark ran.
pub const STATUS_OK: u16 = 200;

/// Why the handler could not answer with the benchmark's result.
#[derive(PartialEq, Eq, Structural, Clone, Copy, Debug)]
pub enum HandlerFailure {
    /// The request is not a `POST`.
    MethodNotAllowed,
    /// The request body could not be taken.
    BodyUnavailable,
    /// The request body could not be read.
    BodyUnreadable,
    /// The request body is not JSON.
    InvalidJson,
    /// The benchmark failed.
    BenchFailed,
}

/// The HTTP status that answers a failure: 405 for a method other than
/// `POST`, 400 for a body that cannot be had or read as JSON, 500 when the
/// benchmark itself fails.
pub fn failure_status(f: HandlerFailure) -> (status: u16)
    ensures
        status == match f {
            HandlerFailure::MethodNotAllowed => 405u16,
            HandlerFailure::BodyUnavailable => 400u16,
            HandlerFailure::BodyUnreadable => 400u16,
            HandlerFailure::InvalidJson => 400u16,
            HandlerFailure::BenchFailed => 500u16,
        },
{
    match f {
        HandlerFailure::MethodNotAllowed => 405,
        HandlerFailure::BodyUnavailable => 400,
        HandlerFailure::BodyUnreadable => 400,
        HandlerFailure::InvalidJson => 400,
        HandlerFailure::BenchFailed => 500,
    }
}

} // verus!
