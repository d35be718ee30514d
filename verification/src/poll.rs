//! The decision step of the awaitable exact-length transfers.
//!
//! `read_exact` and `write_exact` repeatedly register a waker, run one
//! `read`/`write` against the unfinished tail of the caller's buffer, and
//! then decide: resolve with the leftover count once the whole length is
//! transferred, resolve with the error if one surfaced, or suspend. That
//! decision is pure and shared by both directions; the async shells around
//! it only perform the calls and the suspension.

use vstd::prelude::*;

use crate::ctrl::OverrunError;

verus! {

/// Fold the outcome of one `read`/`write` call into the progress of an
/// exact-length transfer of `target` words. Returns the new progress and
/// `Some(result)` when the transfer must resolve — with the leftover count
/// on completion, or with the error — and `None` when it must suspend and
/// retry after the next wake-up.
pub fn exact_step(progress: usize, target: usize, outcome: Result<(usize, usize), OverrunError>)
    -> (r: (usize, Option<Result<usize, OverrunError>>))
    requires
        progress <= target,
        outcome matches Ok(p) ==> p.0 <= target - progress,
    ensures
        r.0 <= target,
        outcome matches Ok(p) ==> {
            &&& r.0 == progress + p.0
            &&& (progress + p.0 == target ==> r.1 == Some(
                Result::<usize, OverrunError>::Ok(p.1),
            ))
            &&& (progress + p.0 < target ==> r.1 is None)
        },
        outcome is Err ==> r.0 == progress && r.1 == Some(
            Result::<usize, OverrunError>::Err(OverrunError),
        ),
{
    match outcome {
        Ok((len, remaining)) => {
            let new_progress = progress + len;
            if new_progress == target {
                (new_progress, Some(Ok(remaining)))
            } else {
                (new_progress, None)
            }
        },
        Err(e) => (progress, Some(Err(e))),
    }
}

} // verus!
