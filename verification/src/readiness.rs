//! Readiness decisions of the service and of its waits at startup.
use vstd::prelude::*;
use vstd::string::*;
use crate::error::AppError;
use crate::text::concat3;

verus! {

/// What a startup wait does after one probe.
pub enum PollStep {
    Ready,
    TimedOut,
    Wait,
}

/// The step after a probe that found the service `ready`, `elapsed_nanos`
/// after the wait began, with a timeout of `timeout_secs` seconds: done when
/// ready, timed out once the timeout has elapsed, otherwise wait and probe
/// again.
pub fn poll_step(ready: bool, elapsed_nanos: u128, timeout_secs: u64) -> (s: PollStep)
    ensures
        ready ==> s is Ready,
        !ready && elapsed_nanos >= timeout_secs * 1_000_000_000 ==> s is TimedOut,
        !ready && elapsed_nanos < timeout_secs * 1_000_000_000 ==> s is Wait,
{
    if ready {
        PollStep::Ready
    } else if elapsed_nanos >= (timeout_secs as u128) * 1_000_000_000 {
        PollStep::TimedOut
    } else {
        PollStep::Wait
    }
}

/// A collection is ready when points are not required, or when it holds at
/// least `min_points` of them.
pub fn collection_ready(require_points: bool, point_count: u64, min_points: u64) -> (b: bool)
    ensures
        b == (!require_points || point_count >= min_points),
{
    !require_points || point_count >= min_points
}

/// The error when the collection does not become ready in time.
pub fn readiness_timeout(collection: &str) -> (e: AppError)
    ensures
        e matches AppError::Startup(m) && m@ == "Readiness timeout for collection '"@
            + collection@ + "'"@,
{
    AppError::Startup(concat3("Readiness timeout for collection '", collection, "'"))
}

/// The error when the vector service does not answer in time.
pub fn service_timeout(collection: &str) -> (e: AppError)
    ensures
        e matches AppError::Startup(m) && m@ == "Qdrant service timeout for collection '"@
            + collection@ + "'"@,
{
    AppError::Startup(concat3("Qdrant service timeout for collection '", collection, "'"))
}

} // verus!
