//! One probe outcome at a point in time: reachable with a measured latency,
//! or unreachable (timeout or otherwise indeterminate).

use vstd::prelude::*;

verus! {

/// A point of a series. `at` is the timestamp in milliseconds since the
/// process-wide start instant; `latency` is in latency units chosen by the
/// caller (the same unit for every sample of a process).
#[derive(Clone, Copy, Debug, PartialEq, Eq, Structural)]
pub enum Sample {
    Reachable { at: u64, latency: u32 },
    Unreachable { at: u64 },
}

impl Sample {
    /// The timestamp of the sample, whichever outcome it records.
    pub open spec fn ts(self) -> u64 {
        match self {
            Sample::Reachable { at, .. } => at,
            Sample::Unreachable { at } => at,
        }
    }

    pub open spec fn is_reachable(self) -> bool {
        self matches Sample::Reachable { .. }
    }

    /// The measured latency; meaningful only for a reachable sample.
    pub open spec fn lat(self) -> u32
        recommends
            self.is_reachable(),
    {
        match self {
            Sample::Reachable { latency, .. } => latency,
            Sample::Unreachable { .. } => 0,
        }
    }

    /// Runtime test matching `is_reachable`.
    pub fn reachable(&self) -> (b: bool)
        ensures
            b == self.is_reachable(),
    {
        match self {
            Sample::Reachable { .. } => true,
            Sample::Unreachable { .. } => false,
        }
    }

    /// Runtime accessor matching `ts`.
    pub fn timestamp(&self) -> (t: u64)
        ensures
            t == self.ts(),
    {
        match self {
            Sample::Reachable { at, .. } => *at,
            Sample::Unreachable { at } => *at,
        }
    }
}

/// Timestamps never decrease along the log: the well-behaved-producer
/// invariant of a series.
pub open spec fn ts_nondecreasing(s: Seq<Sample>) -> bool {
    forall|i: int, j: int| 0 <= i <= j < s.len() ==> s[i].ts() <= s[j].ts()
}

/// Appending in timestamp order preserves the log's timestamp order: a log
/// grown only by in-order appends reads back in insertion order, which is
/// timestamp order.
pub proof fn lemma_push_preserves_monotonic(s: Seq<Sample>, x: Sample)
    requires
        ts_nondecreasing(s),
        s.len() > 0 ==> s.last().ts() <= x.ts(),
    ensures
        ts_nondecreasing(s.push(x)),
{
    let t = s.push(x);
    assert forall|i: int, j: int| 0 <= i <= j < t.len() implies t[i].ts() <= t[j].ts() by {
        if j < s.len() {
        } else {
            assert(t[j] == x);
            if i < s.len() {
                assert(s[i].ts() <= s[s.len() - 1].ts());
            }
        }
    }
}

} // verus!
