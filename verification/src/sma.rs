//! A streaming simple moving average: the smoothing filter a series can run
//! over its reachable latencies. The filter consumes one value per reachable
//! sample and emits the mean of the newest values it has seen; unreachable
//! samples never reach the filter, so a gap neither resets nor advances its
//! state.

use vstd::prelude::*;

use crate::stats::{avg_of, mean};

verus! {

/// The filter window after one more value slid in: the newest `cap` values
/// seen so far.
pub open spec fn sma_slide(w: Seq<u32>, cap: nat, v: u32) -> Seq<u32> {
    let grown = w.push(v);
    if grown.len() > cap {
        grown.subrange(grown.len() - cap, grown.len() as int)
    } else {
        grown
    }
}

/// Simple moving average over the last `cap` values consumed.
pub struct Sma {
    pub cap: usize,
    pub window: Vec<u32>,
}

impl Sma {
    pub open spec fn wf(self) -> bool {
        1 <= self.cap && self.window@.len() <= self.cap
    }

    pub fn new(cap: usize) -> (r: Sma)
        requires
            cap >= 1,
        ensures
            r.wf(),
            r.cap == cap,
            r.window@ == Seq::<u32>::empty(),
    {
        Sma { cap, window: Vec::new() }
    }

    /// Consume one value; the output is the mean of the values now in the
    /// window, rounded towards zero.
    pub fn next(&mut self, v: u32) -> (out: u32)
        requires
            old(self).wf(),
        ensures
            final(self).wf(),
            final(self).cap == old(self).cap,
            final(self).window@ == sma_slide(old(self).window@, old(self).cap as nat, v),
            out == avg_of(final(self).window@),
    {
        self.window.push(v);
        if self.window.len() > self.cap {
            self.window.remove(0);
            proof {
                let grown = old(self).window@.push(v);
                assert(grown.remove(0) =~= grown.subrange(
                    grown.len() - self.cap as int,
                    grown.len() as int,
                ));
            }
        }
        match mean(&self.window) {
            Some(m) => m,
            None => {
                proof {
                    assert(false);
                }
                0
            },
        }
    }
}

} // verus!
