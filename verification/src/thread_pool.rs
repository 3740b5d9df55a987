//! The contract of a worker pool.

use vstd::prelude::*;
use crate::err::KvsError;

verus! {

/// A pool of workers that run jobs.
///
/// A pool is made for a number of workers. A job that is handed to it runs
/// once, on some worker, after the call that handed it over; no order holds
/// between jobs. A job that panics does not cost the pool a worker. A pool
/// that is dropped runs the jobs it was given to their end.
pub trait ThreadPool: Sized + Send {
    /// A pool of `threads` workers.
    fn new(threads: u32) -> Result<Self, KvsError>;

    /// Hands `job` to the pool.
    fn spawn<F>(&self, job: F) where F: FnOnce() + Send + 'static;
}

} // verus!
