//! The worker pools that engine operations run on.
use vstd::prelude::*;

use crate::error::KvsError;

verus! {

/// The trait that all thread pools implement.
pub trait ThreadPool: Sized {
    /// Creates a pool of `threads` workers, all started. `PoolSpawn` if one
    /// of them cannot be started; those already started are then stopped.
    fn new(threads: u32) -> Result<Self, KvsError>;

    /// Runs `job` on some worker. A job that panics takes down neither the
    /// pool nor the other jobs.
    fn spawn<F: FnOnce() + Send + 'static>(&self, job: F);
}

} // verus!
