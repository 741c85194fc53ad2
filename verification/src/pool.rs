//! The capability every thread pool offers, and the variant that
//! delegates to an outside work-stealing pool.
//!
//! The other variants — a thread per task, and the shared-queue pool whose
//! sentinel replaces a worker lost to a panicking job — spawn operating
//! system threads themselves, which stays outside the verified library.

use vstd::prelude::*;
use rayon::ThreadPool as RayonPool;
use crate::error::{Error, ErrorKind};

verus! {

/// A pool of workers: built once with a thread count, then handed
/// one-shot jobs. `spawn` does not wait for the job; the job runs on some
/// non-caller thread, and independently spawned jobs run in no fixed
/// order.
pub trait ThreadPool: Sized {
    /// Build a pool of `threads` workers.
    fn new(threads: u32) -> (r: Result<Self, Error>);

    /// Hand a job to the pool.
    fn spawn<F: FnOnce() + Send + 'static>(&self, job: F)
        requires
            call_requires(job, ()),
    ;
}

#[verifier::external_type_specification]
#[verifier::external_body]
pub struct ExRayonThreadPool(RayonPool);

/// A pool delegating its work to the work-stealing pool of the rayon
/// crate, configured with the asked-for thread count.
pub struct RayonThreadPool {
    pool: RayonPool,
}

/// Relies on `rayon::ThreadPoolBuilder::new`, `num_threads` and `build`:
/// building a pool with the given thread count; a refused build is
/// reported as this library's I/O error.
#[verifier::external_body]
fn rayon_pool(threads: usize) -> (r: Result<RayonPool, Error>) {
    match rayon::ThreadPoolBuilder::new().num_threads(threads).build() {
        Ok(p) => Ok(p),
        Err(_) => Err(Error::new(ErrorKind::IoError)),
    }
}

/// Relies on `rayon::ThreadPool::spawn`: the job is queued and runs
/// asynchronously on one of the pool's threads.
#[verifier::external_body]
fn rayon_spawn<F: FnOnce() + Send + 'static>(pool: &RayonPool, job: F)
    requires
        call_requires(job, ()),
{
    pool.spawn(job)
}

impl ThreadPool for RayonThreadPool {
    fn new(threads: u32) -> (r: Result<Self, Error>) {
        match rayon_pool(threads as usize) {
            Ok(pool) => Ok(RayonThreadPool { pool }),
            Err(e) => Err(e),
        }
    }

    fn spawn<F: FnOnce() + Send + 'static>(&self, job: F) {
        rayon_spawn(&self.pool, job)
    }
}

} // verus!
