//! A safe-parallel-dispatch primitive over a columnar entity store.
//!
//! The crate models a world of entities grouped into storage chunks, queries
//! that select chunks by component shape, and an engine that visits every
//! matching entity either sequentially or split into batches that run on a
//! shared worker pool.

use vstd::prelude::*;

pub mod batching;
pub mod dispatch;
pub mod iter;
pub mod laws;
pub mod many;
pub mod par_iter;
pub mod par_many;
pub mod pool;
pub mod query;
pub mod render_graph;
pub mod render_settings;
pub mod storage;

verus! {

/// Ceiling division: the least `q` with `q * b >= n`, for `b >= 1`.
pub open spec fn div_ceil_spec(n: nat, b: nat) -> nat
    recommends
        b >= 1,
{
    if n % b == 0 {
        n / b
    } else {
        n / b + 1
    }
}

/// Ceiling division on machine integers.
pub fn div_ceil(n: usize, b: usize) -> (r: usize)
    requires
        b >= 1,
    ensures
        r == div_ceil_spec(n as nat, b as nat),
{
    let q = n / b;
    let rem = n % b;
    if rem == 0 {
        q
    } else {
        assert(q < n) by (nonlinear_arith)
            requires
                q == n as int / b as int,
                rem == n as int % b as int,
                rem != 0,
                b >= 1,
        ;
        q + 1
    }
}

} // verus!
