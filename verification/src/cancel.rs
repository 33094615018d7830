//! Reading the shared cancellation flag of a long-running job.
use std::sync::atomic::{AtomicBool, Ordering};
use vstd::prelude::*;

verus! {

/// Whether another thread has asked the job to stop. Any answer is possible.
pub(crate) fn cancelled(cancel: &AtomicBool) -> bool {
    cancel.load(Ordering::Relaxed)
}

} // verus!
