//! The best-tracker: the single consumer of candidate sequences. It keeps the
//! shortest candidate seen so far and the bound that workers search under.

use vstd::prelude::*;
use crate::generator::ScoredWord;

verus! {

/// The bound before any candidate has been accepted: no limit.
pub const UNBOUNDED: usize = usize::MAX;

/// The best candidate so far and the bound published to the workers.
pub struct BestTracker {
    pub best: Option<Vec<ScoredWord>>,
    pub bound: usize,
}

impl BestTracker {
    /// The bound is the best sequence's length when there is one, and
    /// unbounded before.
    pub open spec fn wf(&self) -> bool {
        match self.best {
            Some(b) => self.bound == b@.len(),
            None => self.bound == UNBOUNDED,
        }
    }

    /// Whether `cand` improves on the best so far: there is none yet, or
    /// `cand` is strictly shorter.
    pub open spec fn improves(&self, cand: Seq<ScoredWord>) -> bool {
        match self.best {
            Some(b) => cand.len() < b@.len(),
            None => true,
        }
    }

    /// A tracker with no best sequence and an unbounded bound.
    pub fn new() -> (r: BestTracker)
        ensures
            r.wf(),
            r.best is None,
            r.bound == UNBOUNDED,
    {
        BestTracker { best: None, bound: UNBOUNDED }
    }

    /// Offers a candidate. It replaces the best, and its length becomes the
    /// bound, exactly when it is strictly shorter than the best (or there is
    /// no best yet); otherwise nothing changes. The bound never grows.
    pub fn offer(&mut self, cand: Vec<ScoredWord>) -> (accepted: bool)
        requires
            old(self).wf(),
        ensures
            final(self).wf(),
            accepted == old(self).improves(cand@),
            accepted ==> final(self).best == Some(cand) && final(self).bound == cand@.len(),
            !accepted ==> *final(self) == *old(self),
            final(self).bound <= old(self).bound,
    {
        let improves = match &self.best {
            Some(b) => cand.len() < b.len(),
            None => true,
        };
        if improves {
            self.bound = cand.len();
            self.best = Some(cand);
        }
        improves
    }

    /// The length of the best sequence, if there is one.
    pub fn best_len(&self) -> (r: Option<usize>)
        requires
            self.wf(),
        ensures
            match self.best {
                Some(b) => r == Some(b@.len() as usize),
                None => r is None,
            },
    {
        match &self.best {
            Some(b) => Some(b.len()),
            None => None,
        }
    }
}

/// How many attempts pass between two progress reports.
pub const REPORT_EVERY: usize = 65536;

/// Whether a progress report is due after the attempt that brought the
/// attempt count to `count`: the count's low sixteen bits are all zero.
pub fn report_due(count: usize) -> (r: bool)
    ensures
        r == (count % REPORT_EVERY == 0),
{
    count % REPORT_EVERY == 0
}

} // verus!
