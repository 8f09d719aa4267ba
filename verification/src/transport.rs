//! Classification of an HTTP delivery outcome.
//!
//! The pipeline delivers the transformed buffer with a single HTTP POST. The
//! request itself is I/O and is performed by the caller; what the library
//! decides is how its outcome is judged: a response with a status code in the
//! success range is a success, any other response is a rejection by the
//! server carrying that code, and a request that produced no response at all
//! is a transport failure carrying its cause.

use vstd::prelude::*;

verus! {

/// What a single delivery attempt produced: an HTTP response with its status
/// code, or no response at all (connection refused, name resolution failure,
/// timeout) with a description of the cause.
#[derive(Debug, PartialEq, Eq)]
pub enum HttpOutcome {
    /// A response arrived, with this status code.
    Response(u16),
    /// No response arrived; the payload describes the failure.
    Unreachable(String),
}

/// Why a delivery failed.
#[derive(Debug, PartialEq, Eq)]
pub enum DeliveryError {
    /// The server answered with a status code outside the success range.
    ServerRejected(u16),
    /// The request never produced a response; the payload is the cause.
    Transport(String),
}

/// Whether an HTTP status code counts as success.
pub open spec fn is_success_status(status: u16) -> bool {
    200 <= status < 300
}

/// How a delivery outcome is judged, in full: success exactly for a response
/// in the success range, `ServerRejected` with the offending code for any
/// other response, `Transport` with the cause when no response arrived.
pub open spec fn classify_spec(outcome: HttpOutcome) -> Result<(), DeliveryError> {
    match outcome {
        HttpOutcome::Response(status) => if is_success_status(status) {
            Ok(())
        } else {
            Err(DeliveryError::ServerRejected(status))
        },
        HttpOutcome::Unreachable(cause) => Err(DeliveryError::Transport(cause)),
    }
}

/// Judges one delivery attempt, exactly as [`classify_spec`] says.
pub fn classify_outcome(outcome: HttpOutcome) -> (result: Result<(), DeliveryError>)
    ensures
        result == classify_spec(outcome),
{
    match outcome {
        HttpOutcome::Response(status) => {
            if 200 <= status && status < 300 {
                Ok(())
            } else {
                Err(DeliveryError::ServerRejected(status))
            }
        },
        HttpOutcome::Unreachable(cause) => Err(DeliveryError::Transport(cause)),
    }
}

} // verus!
