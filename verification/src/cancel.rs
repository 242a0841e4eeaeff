//! Cancelling long operations.
use std::sync::atomic::{AtomicBool, Ordering};
use std::sync::Arc;
use vstd::prelude::*;

verus! {

/// A flag that the user interface and the engine share, by which a long operation is cancelled.
///
/// What the flag says depends on what other threads have done to it, so nothing is stated of it.
#[derive(Clone, Debug)]
pub struct CancellationToken(Arc<AtomicBool>);

impl CancellationToken {
    /// A token that is not cancelled.
    pub fn new() -> CancellationToken {
        CancellationToken(Arc::new(AtomicBool::new(false)))
    }

    /// Asks for cancellation. To ask again changes nothing.
    pub fn cancel(&self) {
        self.0.store(true, Ordering::Relaxed);
    }

    /// Whether cancellation was asked for, through this token or a clone of it.
    pub fn is_cancelled(&self) -> bool {
        self.0.load(Ordering::Relaxed)
    }
}

/// Whether cancellation was asked for; without a token it never is.
pub(crate) fn is_stopped(cancel: Option<&CancellationToken>) -> (stopped: bool)
    ensures
        stopped ==> cancel is Some,
{
    match cancel {
        Some(token) => token.is_cancelled(),
        None => false,
    }
}

impl Default for CancellationToken {
    fn default() -> CancellationToken {
        CancellationToken::new()
    }
}

} // verus!
