//! The memory budget of a spilling operator.
use vstd::prelude::*;
use crate::memory;
use crate::value::Value;

verus! {

/// The bytes that an operator holds in memory, against a limit.
pub struct MemBudget {
    used: usize,
    limit: usize,
}

/// `a + b`, or the largest machine number below it.
pub open spec fn added(a: usize, b: usize) -> usize {
    if a + b > usize::MAX {
        usize::MAX
    } else {
        (a + b) as usize
    }
}

impl MemBudget {
    /// The bytes accounted for.
    pub closed spec fn held(&self) -> usize {
        self.used
    }

    /// The limit in bytes; 0 is unlimited.
    pub closed spec fn cap(&self) -> usize {
        self.limit
    }

    /// A budget of `limit` bytes, of which 0 admits everything.
    pub fn new(limit: usize) -> (r: MemBudget)
        ensures
            r.held() == 0,
            r.cap() == limit,
    {
        MemBudget { used: 0, limit }
    }

    /// Account for `row`, if it fits.
    ///
    /// A row that would exceed the limit is refused and not accounted for; the caller flushes,
    /// resets and asks again. An empty budget admits any row, so that asking again succeeds, and a
    /// limit of 0 admits every row.
    pub fn try_admit(&mut self, row: &Vec<Value>) -> (r: bool)
        ensures
            final(self).cap() == old(self).cap(),
            ({
                let bytes = memory::clamp(memory::row_size(row.deep_view()));
                let sum = added(old(self).held(), bytes);
                &&& r <==> old(self).cap() == 0 || old(self).held() == 0 || sum <= old(self).cap()
                &&& r == admits(old(self).cap(), old(self).held(), bytes)
                &&& r ==> final(self).held() == sum
                &&& !r ==> final(self).held() == old(self).held()
            }),
    {
        let bytes: usize = memory::row_bytes(row);
        let sum: usize = self.used.saturating_add(bytes);
        if self.limit != 0 && self.used != 0 && sum > self.limit {
            return false;
        }
        self.used = sum;
        true
    }

    /// Forget the bytes accounted for.
    pub fn reset(&mut self)
        ensures
            final(self).held() == 0,
            final(self).cap() == old(self).cap(),
    {
        self.used = 0;
    }

    /// The bytes accounted for.
    pub fn used(&self) -> (r: usize)
        ensures
            r == self.held(),
    {
        self.used
    }
}

/// Whether a budget that holds `held` of `cap` bytes admits a row of `bytes`.
pub open spec fn admits(cap: usize, held: usize, bytes: usize) -> bool {
    cap == 0 || held == 0 || added(held, bytes) <= cap
}

/// A row that is refused is admitted once the budget has been reset, whatever its size.
pub proof fn law_reset_admits_any_row(cap: usize, bytes: usize)
    ensures
        admits(cap, 0, bytes),
{
}

/// Without a limit every row is admitted.
pub proof fn law_no_limit_admits_every_row(held: usize, bytes: usize)
    ensures
        admits(0, held, bytes),
{
}

} // verus!
