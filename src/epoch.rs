//! Entry into crossbeam's epoch-based reclamation.
use vstd::prelude::*;

verus! {

/// The guard of a pinned thread; opaque to the proofs.
#[verifier::external_type_specification]
#[verifier::external_body]
pub struct ExGuard(crossbeam_epoch::Guard);

/// Relies on crossbeam_epoch::pin: pins the calling thread and returns its guard.
pub assume_specification[ crossbeam_epoch::pin ]() -> crossbeam_epoch::Guard;

/// Relies on crossbeam_epoch::Guard::flush: pushes the thread's deferred
/// destructions to the global queue and tries to advance the epoch.
pub assume_specification[ crossbeam_epoch::Guard::flush ](g: &crossbeam_epoch::Guard);

/// Pins the calling thread; when `reclaim` holds, forces an epoch advance
/// first, so that values retired earlier become eligible for freeing.
pub fn enter(reclaim: bool) -> crossbeam_epoch::Guard {
    let g = crossbeam_epoch::pin();
    if reclaim {
        g.flush();
    }
    g
}

/// Pins the calling thread, forces an epoch advance and unpins again.
pub fn advance() {
    let _pinned = enter(true);
}

} // verus!
