//! What it means to carry out a transform with a given arithmetic.
//!
//! The transforms leave the arithmetic on values to kernels that the caller
//! hands in, so that they work for rounded numbers as well as for exact ones.
//! A kernel is known only by what it promises of its results; the relations
//! below say which results a transform can then have.

use crate::plan::{Plan, Step};
use crate::twiddle::Twiddle;
use vstd::prelude::*;

verus! {

/// The buffer before the first step: position `p` holds sample `order[p]`.
pub open spec fn loaded<T>(order: Seq<nat>, samples: Seq<T>) -> Seq<T> {
    Seq::new(order.len(), |p: int| samples[order[p] as int])
}

/// Whether `kernel` can turn the buffer `before` into `after` by the
/// butterfly `step`: it is given the values at `lo` and `hi` and the root,
/// its two results go back to `lo` and `hi`, and nothing else changes.
pub open spec fn steps_to<T, K: Fn(T, T, Twiddle) -> (T, T)>(
    kernel: K,
    step: Step,
    before: Seq<T>,
    after: Seq<T>,
) -> bool {
    &&& step.lo < step.hi < before.len()
    &&& after.len() == before.len()
    &&& call_ensures(
        kernel,
        (before[step.lo as int], before[step.hi as int], step.twiddle.as_twiddle()),
        (after[step.lo as int], after[step.hi as int]),
    )
    &&& forall|q: int|
        0 <= q < before.len() && q != step.lo && q != step.hi ==> after[q] == before[q]
}

/// Whether step `i` leads from buffer `i` of `trace` to the next one.
pub open spec fn links<T, K: Fn(T, T, Twiddle) -> (T, T)>(
    kernel: K,
    steps: Seq<Step>,
    trace: Seq<Seq<T>>,
    i: int,
) -> bool {
    steps_to(kernel, steps[i], trace[i], trace[i + 1])
}

/// Whether `trace` lists the buffers of a run of `steps` on `samples`: the
/// loaded buffer first, then the buffer after each step.
pub open spec fn is_run<T, K: Fn(T, T, Twiddle) -> (T, T)>(
    kernel: K,
    order: Seq<nat>,
    steps: Seq<Step>,
    samples: Seq<T>,
    trace: Seq<Seq<T>>,
) -> bool {
    &&& trace.len() == steps.len() + 1
    &&& trace[0] == loaded(order, samples)
    &&& forall|i: int| 0 <= i < steps.len() ==> #[trigger] links(kernel, steps, trace, i)
}

/// Whether a run of the plan on `samples` can end with the buffer `out`.
pub open spec fn runs_to<T, K: Fn(T, T, Twiddle) -> (T, T)>(
    kernel: K,
    plan: Plan,
    samples: Seq<T>,
    out: Seq<T>,
) -> bool {
    exists|trace: Seq<Seq<T>>|
        #[trigger] is_run(kernel, plan.order, plan.steps, samples, trace) && trace.last() == out
}

/// A run that takes one more step is a run of one more step.
pub proof fn lemma_run_extends<T, K: Fn(T, T, Twiddle) -> (T, T)>(
    kernel: K,
    order: Seq<nat>,
    steps: Seq<Step>,
    samples: Seq<T>,
    trace: Seq<Seq<T>>,
    step: Step,
    after: Seq<T>,
)
    requires
        is_run(kernel, order, steps, samples, trace),
        steps_to(kernel, step, trace.last(), after),
    ensures
        is_run(kernel, order, steps.push(step), samples, trace.push(after)),
{
    let longer = trace.push(after);
    assert forall|i: int| 0 <= i < steps.len() + 1 implies #[trigger] links(
        kernel,
        steps.push(step),
        longer,
        i,
    ) by {
        if i < steps.len() {
            assert(links(kernel, steps, trace, i));
        }
    }
}

/// The unit root by which the direct transform of `len` samples multiplies
/// sample `sample` for bin `bin`: `e^(-2πi · bin · sample / len)`, with the
/// turn reduced below `len`.
pub open spec fn direct_root(len: usize, bin: usize, sample: usize) -> Twiddle {
    Twiddle { turn: ((bin * sample) % (len as int)) as usize, over: len }
}

/// Whether `kernel` can go from the sum of the first `j` rotated samples of
/// bin `bin` to the sum of the first `j + 1`.
pub open spec fn adds<T, K: Fn(T, T, Twiddle) -> T>(
    kernel: K,
    samples: Seq<T>,
    bin: usize,
    partial: Seq<T>,
    j: int,
) -> bool {
    call_ensures(
        kernel,
        (partial[j], samples[j], direct_root(samples.len() as usize, bin, j as usize)),
        partial[j + 1],
    )
}

/// Whether `partial` lists the sums that arise while bin `bin` is added up:
/// `zero` first, then the sum after each sample.
pub open spec fn is_sum<T, K: Fn(T, T, Twiddle) -> T>(
    kernel: K,
    samples: Seq<T>,
    bin: usize,
    zero: T,
    partial: Seq<T>,
) -> bool {
    &&& partial.len() == samples.len() + 1
    &&& partial[0] == zero
    &&& forall|j: int| 0 <= j < samples.len() ==> #[trigger] adds(kernel, samples, bin, partial, j)
}

/// Whether adding up bin `bin` of `samples`, from `zero` on and in the order
/// of the samples, can give `sum`.
pub open spec fn sums_to<T, K: Fn(T, T, Twiddle) -> T>(
    kernel: K,
    samples: Seq<T>,
    bin: usize,
    zero: T,
    sum: T,
) -> bool {
    exists|partial: Seq<T>|
        #[trigger] is_sum(kernel, samples, bin, zero, partial) && partial.last() == sum
}

} // verus!
