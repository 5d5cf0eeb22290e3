//! A rayon thread pool for the server's connections.

use crate::error::KvsError;
use vstd::prelude::*;

verus! {

/// A rayon thread pool, seen from here as an opaque value.
#[verifier::external_type_specification]
#[verifier::external_body]
pub struct ExThreadPool(rayon::ThreadPool);

/// A failure to build a rayon thread pool, seen from here as an opaque value.
#[verifier::external_type_specification]
#[verifier::external_body]
pub struct ExThreadPoolBuildError(rayon::ThreadPoolBuildError);

/// Relies on rayon::ThreadPoolBuilder: builds a pool of `n` worker threads.
#[verifier::external_body]
fn build_pool(n: usize) -> (r: Result<rayon::ThreadPool, rayon::ThreadPoolBuildError>) {
    rayon::ThreadPoolBuilder::new().num_threads(n).build()
}

/// Relies on rayon::ThreadPoolBuildError's Display: the message of the failure.
#[verifier::external_body]
fn build_message(e: &rayon::ThreadPoolBuildError) -> (r: String) {
    e.to_string()
}

/// A work-stealing pool that runs the server's jobs.
pub struct RayonThreadPool(pub rayon::ThreadPool);

impl RayonThreadPool {
    /// A pool of `num_threads` workers; a failure to start them is an
    /// `OtherError` with rayon's message.
    pub fn new(num_threads: u32) -> (r: Result<RayonThreadPool, KvsError>)
        ensures
            r matches Err(e) ==> e is OtherError,
    {
        match build_pool(num_threads as usize) {
            Ok(pool) => Ok(RayonThreadPool(pool)),
            Err(e) => Err(KvsError::OtherError(build_message(&e))),
        }
    }
}

} // verus!
