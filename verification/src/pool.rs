//! Trusted boundary to the shared worker pool of `bevy_tasks`.

use vstd::prelude::*;
use bevy_tasks::ParallelSlice;

verus! {

#[verifier::external_type_specification]
#[verifier::external_body]
/// The process-wide compute pool type of `bevy_tasks`, opaque to the
/// verifier; values of it are only handed through to the wrappers below.
pub struct ExComputeTaskPool(bevy_tasks::ComputeTaskPool);

/// Relies on `bevy_tasks::ComputeTaskPool::try_get`: the process-wide
/// compute pool, or `None` while no call has initialized it. Nothing is
/// promised of the outcome; callers treat `None` as "pool unavailable".
#[verifier::external_body]
pub fn try_compute_pool() -> Option<&'static bevy_tasks::ComputeTaskPool> {
    bevy_tasks::ComputeTaskPool::try_get()
}

/// Relies on `bevy_tasks::TaskPool::thread_num` (reached through
/// `ComputeTaskPool`'s `Deref`): how many worker threads the pool owns.
/// Nothing is promised of the count.
#[verifier::external_body]
pub fn pool_thread_count(pool: &bevy_tasks::ComputeTaskPool) -> usize {
    pool.thread_num()
}

/// Relies on `bevy_tasks::ParallelSlice::par_chunk_map` with chunk size 1
/// (reached through `TaskPool::scope`): spawns one task per input on the
/// shared pool, drives every task to completion before returning, and
/// returns one result per input, in input order, each produced by applying
/// the caller's function to the input of the same index. A panic inside a
/// task is resumed on the calling thread, not swallowed.
#[verifier::external_body]
pub fn scope_map<I: Sync, O: Send + 'static, F: Fn(usize, &I) -> O + Sync>(
    pool: &bevy_tasks::ComputeTaskPool,
    inputs: &Vec<I>,
    f: &F,
) -> (r: Vec<O>)
    requires
        forall|i: int| 0 <= i < inputs@.len() ==> call_requires(*f, (i as usize, &inputs@[i])),
    ensures
        r@.len() == inputs@.len(),
        forall|i: int|
            0 <= i < inputs@.len() ==> call_ensures(*f, (i as usize, &inputs@[i]), #[trigger] r@[i]),
{
    inputs.as_slice().par_chunk_map(pool, 1, |i, chunk| f(i, &chunk[0]))
}

} // verus!
