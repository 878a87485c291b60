//! Cooperative cancellation flag shared between a caller and a running
//! operation. Operations check it between files, never mid-file, so a
//! cancelled run leaves no half-written audio.
use vstd::prelude::*;
use std::sync::Arc;
use std::sync::atomic::AtomicBool;

verus! {

/// A flag any holder of a clone can raise; once raised it stays raised.
#[derive(Debug, Clone)]
pub struct CancelToken(Arc<AtomicBool>);

impl CancelToken {
    /// A token not yet cancelled. The token is nothing but a flag shared
    /// between threads, whose value no clause can speak of, so none is stated.
    pub fn new() -> (t: Self) {
        CancelToken(Arc::new(AtomicBool::new(false)))
    }

    /// Ask every holder to stop at its next check.
    pub fn cancel(&self) {
        self.0.store(true, std::sync::atomic::Ordering::Relaxed)
    }

    /// Whether someone asked to stop. What this reads depends on the
    /// other holders, so no clause states it.
    pub fn is_cancelled(&self) -> (b: bool) {
        self.0.load(std::sync::atomic::Ordering::Relaxed)
    }
}

}
