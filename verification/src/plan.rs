//! Butterfly plans and what they compute.
//!
//! A plan works on a buffer of `n` values.  It says which sample is loaded
//! into which position, and then lists butterflies: each one combines the
//! values at two positions in place.  What a plan computes in exact
//! arithmetic is stated over sums of terms, one sum for each position.

use crate::terms::{negated, turned, Term};
use crate::twiddle::UnitRoot;
use vstd::prelude::*;

verus! {

/// One in-place step, a butterfly: with `t` the value at `lo` and `u` the
/// value at `hi` multiplied by `twiddle`, position `lo` receives `t + u` and
/// position `hi` receives `t - u`.
pub struct Step {
    pub lo: nat,
    pub hi: nat,
    pub twiddle: UnitRoot,
}

/// A transform laid out step by step: position `p` of the buffer starts as
/// sample `order[p]`, then the butterflies of `steps` run in their order.
pub struct Plan {
    pub order: Seq<nat>,
    pub steps: Seq<Step>,
}

impl Step {
    /// Whether the step can run on a buffer of `n` values, for an even `n`:
    /// two positions of the buffer, the lower one first, and a root that is
    /// a power of `ω`.
    pub open spec fn fits(self, n: nat) -> bool {
        &&& self.lo < self.hi < n
        &&& self.twiddle.turn < self.twiddle.over
        &&& n % self.twiddle.over == 0
        &&& n % 2 == 0
    }

    /// The buffer after the step.
    pub open spec fn apply(self, buffer: Seq<Seq<Term>>) -> Seq<Seq<Term>> {
        let n = buffer.len();
        let t = buffer[self.lo as int];
        let u = turned(buffer[self.hi as int], self.twiddle.turn_in(n), n);
        buffer.update(self.lo as int, t + u).update(self.hi as int, t + negated(u, n))
    }
}

/// The buffer after all of `steps`, first to last.
pub open spec fn run(steps: Seq<Step>, buffer: Seq<Seq<Term>>) -> Seq<Seq<Term>>
    decreases steps.len(),
{
    if steps.len() == 0 {
        buffer
    } else {
        steps.last().apply(run(steps.drop_last(), buffer))
    }
}

impl Plan {
    /// Whether every position loads a sample that exists and every step fits
    /// the buffer.
    pub open spec fn wf(self) -> bool {
        &&& forall|p: int|
            0 <= p < self.order.len() ==> #[trigger] self.order[p] < self.order.len()
        &&& forall|i: int|
            0 <= i < self.steps.len() ==> (#[trigger] self.steps[i]).fits(self.order.len())
    }

    /// The buffer before the first step: position `p` holds sample
    /// `order[p]`, not turned.
    pub open spec fn loaded(self) -> Seq<Seq<Term>> {
        Seq::new(self.order.len(), |p: int| seq![Term { sample: self.order[p], turn: 0 }])
    }

    /// The buffer after the last step.
    pub open spec fn outputs(self) -> Seq<Seq<Term>> {
        run(self.steps, self.loaded())
    }
}

/// Running one list of steps after another is running their concatenation.
pub proof fn lemma_run_concat(first: Seq<Step>, second: Seq<Step>, buffer: Seq<Seq<Term>>)
    ensures
        run(first + second, buffer) == run(second, run(first, buffer)),
    decreases second.len(),
{
    if second.len() == 0 {
        assert(first + second =~= first);
    } else {
        assert((first + second).drop_last() =~= first + second.drop_last());
        assert((first + second).last() == second.last());
        lemma_run_concat(first, second.drop_last(), buffer);
    }
}

} // verus!
