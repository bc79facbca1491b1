//! Policy for how many entities each parallel task should own.

use vstd::prelude::*;
use crate::div_ceil;
use crate::div_ceil_spec;

verus! {

/// Configures how a parallel iteration call is split into tasks.
///
/// With limits `Some((min, max))` the estimated size is clamped into
/// `[min, max]`; with `None` both bounds are absent. A strategy whose two
/// limits coincide is an explicit override: estimation is skipped and the
/// shared bound is returned as the batch size directly.
pub struct BatchingStrategy {
    /// Lower and upper bound on the computed batch size, or `None` for
    /// an unbounded estimate.
    pub batch_size_limits: Option<(usize, usize)>,
    /// How many batches each worker thread should be offered.
    pub batches_per_thread: usize,
}

impl BatchingStrategy {
    /// A strategy is well formed when it asks for at least one batch per
    /// thread and its limits, if any, are ordered.
    pub open spec fn wf(self) -> bool {
        &&& self.batches_per_thread >= 1
        &&& match self.batch_size_limits {
            Some((min, max)) => min <= max,
            None => true,
        }
    }

    /// The explicit batch size override, present when both limits coincide.
    pub open spec fn fixed_batch_size(self) -> Option<usize> {
        match self.batch_size_limits {
            Some((min, max)) => if min == max {
                Some(min)
            } else {
                None
            },
            None => None,
        }
    }

    /// How many batches one dispatch call aims for: thread count times
    /// batches per thread, saturated at the machine limit.
    pub open spec fn spec_batches(self, thread_count: nat) -> nat {
        if thread_count * self.batches_per_thread <= usize::MAX {
            (thread_count * self.batches_per_thread) as nat
        } else {
            usize::MAX as nat
        }
    }

    /// The batch size computed from a known item estimate, when no
    /// override is set: `max(min, min(max, ceil(items / (threads * batches_per_thread))))`.
    pub open spec fn spec_batch_size(self, max_items: nat, thread_count: nat) -> nat
        recommends
            self.wf(),
            thread_count >= 1,
    {
        let estimate = div_ceil_spec(max_items, self.spec_batches(thread_count));
        match self.batch_size_limits {
            Some((min, max)) => {
                let capped = if estimate > max {
                    max as nat
                } else {
                    estimate
                };
                if capped < min {
                    min as nat
                } else {
                    capped
                }
            },
            None => estimate,
        }
    }

    /// The default strategy: no limits, one batch per thread.
    pub fn new() -> (r: Self)
        ensures
            r.batch_size_limits is None,
            r.batches_per_thread == 1,
            r.wf(),
    {
        BatchingStrategy { batch_size_limits: None, batches_per_thread: 1 }
    }

    /// A strategy that always uses batches of exactly `size`.
    pub fn fixed(size: usize) -> (r: Self)
        ensures
            r.fixed_batch_size() == Some(size),
            r.batches_per_thread == 1,
            r.wf(),
    {
        BatchingStrategy { batch_size_limits: Some((size, size)), batches_per_thread: 1 }
    }

    /// Computes the batch size for one dispatch call.
    ///
    /// `max_items` is consulted lazily: when an explicit override is set the
    /// supplier is never invoked (the `requires` only asks that it be
    /// callable in the other case) and the override is returned as is,
    /// whatever the supplier or the thread count would have said.
    pub fn calc_batch_size<F: FnOnce() -> usize>(&self, max_items: F, thread_count: usize) -> (r:
        usize)
        requires
            self.wf(),
            self.fixed_batch_size() is None ==> {
                &&& thread_count >= 1
                &&& call_requires(max_items, ())
            },
        ensures
            self.fixed_batch_size() is Some ==> r == self.fixed_batch_size()->Some_0,
            self.fixed_batch_size() is None ==> exists|m: usize|
                #[trigger] call_ensures(max_items, (), m) && r == self.spec_batch_size(
                    m as nat,
                    thread_count as nat,
                ),
    {
        if let Some((min, max)) = self.batch_size_limits {
            if min == max {
                return min;
            }
        }
        assert(thread_count * self.batches_per_thread >= 1) by (nonlinear_arith)
            requires
                thread_count >= 1,
                self.batches_per_thread >= 1,
        ;
        let batches = match thread_count.checked_mul(self.batches_per_thread) {
            Some(b) => b,
            None => usize::MAX,
        };
        assert(batches as nat == self.spec_batches(thread_count as nat));
        let items = max_items();
        let estimate = div_ceil(items, batches);
        match self.batch_size_limits {
            Some((min, max)) => {
                let capped = if estimate > max {
                    max
                } else {
                    estimate
                };
                if capped < min {
                    min
                } else {
                    capped
                }
            },
            None => estimate,
        }
    }
}

} // verus!
