//! A fragment's score for a frame, merged from the evaluations made of it.

use vstd::prelude::*;

verus! {

/// A fragment's score for a frame: how many evaluations were merged into
/// it, and how many of them held. Both counts stop at `u32::MAX`.
#[derive(Debug, Clone, Copy, PartialEq, Eq, Structural)]
pub struct Evaluation {
    pub count: u32,
    pub held: u32,
}

/// `a + b`, or `u32::MAX` where that is larger.
pub open spec fn capped_sum(a: u32, b: u32) -> u32 {
    if a + b > u32::MAX {
        u32::MAX
    } else {
        (a + b) as u32
    }
}

impl Evaluation {
    /// Merges `other` into this evaluation: both counts add up.
    pub fn merge(&mut self, other: Evaluation)
        ensures
            final(self).count == capped_sum(old(self).count, other.count),
            final(self).held == capped_sum(old(self).held, other.held),
    {
        self.count = self.count.saturating_add(other.count);
        self.held = self.held.saturating_add(other.held);
    }
}

impl Default for Evaluation {
    fn default() -> (e: Evaluation)
        ensures
            e == (Evaluation { count: 0, held: 0 }),
    {
        Evaluation { count: 0, held: 0 }
    }
}

/// Values that can be turned into an evaluation.
pub trait Evaluate {
    fn evaluate(self) -> Evaluation;
}

impl Evaluate for bool {
    /// One evaluation, which held exactly when the value is true.
    fn evaluate(self) -> (e: Evaluation)
        ensures
            e == (Evaluation { count: 1, held: if self { 1u32 } else { 0u32 } }),
    {
        Evaluation { count: 1, held: if self { 1 } else { 0 } }
    }
}

impl Evaluate for Evaluation {
    /// The evaluation itself.
    fn evaluate(self) -> (e: Evaluation)
        ensures
            e == self,
    {
        self
    }
}

} // verus!
