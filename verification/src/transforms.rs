//! The fast and the direct transform.

use crate::bit_reversal::{bit_reverse, lemma_half_is_pow2};
use crate::execution::{
    adds, direct_root, is_run, is_sum, lemma_run_extends, loaded, runs_to, steps_to, sums_to,
};
use crate::plan::Step;
use crate::power_of_two::is_power_of_two;
use crate::radix2::{block_order, butterflies, combine, lemma_block_order_split, radix2_plan};
use crate::terms::{direct_sum, Term};
use crate::twiddle::Twiddle;
use std::ops::Range;
use vstd::arithmetic::power2::is_pow2;
use vstd::prelude::*;

verus! {

/// Why a transform is refused.
#[derive(Clone, Copy, Debug, PartialEq, Eq, Structural)]
pub enum TransformError {
    /// The fast transform needs a length that is zero or a power of two.
    Domain,
    /// The direct transform needs bins `start..end` with
    /// `start <= end <= len`.
    Range,
}

impl TransformError {
    /// A sentence that says what was wrong with the request.
    pub fn message(&self) -> (text: &'static str)
        ensures
            *self == TransformError::Domain ==> text@
                == "the fast transform needs a length that is zero or a power of two"@,
            *self == TransformError::Range ==> text@
                == "the direct transform needs bins start..end with start <= end <= len"@,
    {
        match self {
            TransformError::Domain => {
                "the fast transform needs a length that is zero or a power of two"
            },
            TransformError::Range => {
                "the direct transform needs bins start..end with start <= end <= len"
            },
        }
    }
}

/// The buffer of a run while only its first positions are filled: they hold
/// `filled`, and every later position stands for the sample that it will
/// load.
spec fn pending<T>(order: Seq<nat>, samples: Seq<T>, filled: Seq<T>) -> Seq<T> {
    Seq::new(
        order.len(),
        |q: int|
            if q < filled.len() {
                filled[q]
            } else {
                samples[order[q] as int]
            },
    )
}

/// The fast transform of `samples`, with the arithmetic of `butterfly`.
///
/// `butterfly(t, u, w)` is to return `t + w·u` and `t - w·u`.  The result is
/// what a run of the radix-2 plan leaves in the buffer: bin `k` at position
/// `k`, as many bins as there are samples.  No samples give no bins, and one
/// sample is its own transform.  Lengths other than zero and the powers of
/// two are refused.
pub fn fft<T: Copy, K: Fn(T, T, Twiddle) -> (T, T)>(samples: &[T], butterfly: K) -> (r: Result<
    Vec<T>,
    TransformError,
>)
    requires
        forall|t: T, u: T, w: Twiddle| w.turn < w.over ==> call_requires(butterfly, (t, u, w)),
    ensures
        r is Ok <==> samples@.len() == 0 || is_pow2(samples@.len() as int),
        r matches Err(e) ==> e == TransformError::Domain,
        r matches Ok(out) ==> {
            &&& out@.len() == samples@.len()
            &&& runs_to(butterfly, radix2_plan(samples@.len()), samples@, out@)
            &&& samples@.len() <= 1 ==> out@ == samples@
        },
{
    let n = samples.len();
    let mut frequencies: Vec<T> = Vec::with_capacity(n);
    let ghost plan = radix2_plan(n as nat);
    let ghost start = seq![loaded(plan.order, samples@)];
    if n == 0 {
        proof {
            assert(is_run(butterfly, plan.order, plan.steps, samples@, start));
            assert(start.last() =~= frequencies@);
        }
        return Ok(frequencies);
    }
    if !is_power_of_two(n) {
        return Err(TransformError::Domain);
    }
    proof {
        assert(is_run(butterfly, plan.order, Seq::<Step>::empty(), samples@, start));
        assert(start.last() =~= pending(plan.order, samples@, frequencies@));
        assert(plan.order.subrange(0, n as int) =~= block_order(0, n as nat, 1));
    }
    let trace = divide_and_conquer(
        samples,
        0,
        n,
        1,
        &mut frequencies,
        &butterfly,
        Ghost(Seq::empty()),
        Ghost(start),
    );
    proof {
        assert(Seq::<Step>::empty() + butterflies(0, n as nat) =~= plan.steps);
        assert(pending(plan.order, samples@, frequencies@) =~= frequencies@);
        assert(is_run(butterfly, plan.order, plan.steps, samples@, trace@));
        if n == 1 {
            assert(bit_reverse(1, 0) == 0);
            assert(trace@[0] =~= samples@);
        }
    }
    Ok(frequencies)
}

/// Transforms the samples at `off`, `off + s`, `off + 2 * s`, ... into the
/// next `n` positions of `frequencies`: the samples of even rank into the
/// lower half of the block, those of odd rank into the upper half, and then
/// a butterfly for each pair of positions that lie half a block apart.
///
/// `done` and `trace` are the steps and the buffers of the run so far; the
/// result continues the trace through the butterflies of this block.
fn divide_and_conquer<T: Copy, K: Fn(T, T, Twiddle) -> (T, T)>(
    samples: &[T],
    off: usize,
    n: usize,
    s: usize,
    frequencies: &mut Vec<T>,
    butterfly: &K,
    Ghost(done): Ghost<Seq<Step>>,
    Ghost(trace): Ghost<Seq<Seq<T>>>,
) -> (longer: Ghost<Seq<Seq<T>>>)
    requires
        is_pow2(n as int),
        1 <= s,
        off < s,
        n * s == samples@.len(),
        old(frequencies)@.len() + n <= samples@.len(),
        forall|t: T, u: T, w: Twiddle| w.turn < w.over ==> call_requires(*butterfly, (t, u, w)),
        radix2_plan(samples@.len()).order.subrange(
            old(frequencies)@.len() as int,
            old(frequencies)@.len() + n,
        ) == block_order(off as nat, n as nat, s as nat),
        is_run(*butterfly, radix2_plan(samples@.len()).order, done, samples@, trace),
        trace.last() == pending(radix2_plan(samples@.len()).order, samples@, old(frequencies)@),
    ensures
        final(frequencies)@.len() == old(frequencies)@.len() + n,
        is_run(
            *butterfly,
            radix2_plan(samples@.len()).order,
            done + butterflies(old(frequencies)@.len(), n as nat),
            samples@,
            longer@,
        ),
        longer@.last() == pending(
            radix2_plan(samples@.len()).order,
            samples@,
            final(frequencies)@,
        ),
    decreases n,
{
    let ghost order = radix2_plan(samples@.len()).order;
    let base = frequencies.len();
    let total = samples.len();
    proof {
        reveal(is_pow2);
    }
    if n == 1 {
        assert(s == samples@.len()) by (nonlinear_arith)
            requires
                n == 1,
                n * s == samples@.len(),
        ;
        frequencies.push(samples[off]);
        proof {
            assert(bit_reverse(1, 0) == 0);
            assert(s * 0 == 0);
            assert(block_order(off as nat, 1, s as nat)[0] == off);
            assert(order.subrange(base as int, base + 1)[0] == order[base as int]);
            assert(pending(order, samples@, frequencies@) =~= pending(
                order,
                samples@,
                old(frequencies)@,
            ));
            assert(done + butterflies(base as nat, 1) =~= done);
        }
        return Ghost(trace);
    }
    let half = n / 2;
    proof {
        lemma_half_is_pow2(n as nat);
        assert(half * (2 * s) == n * s && 2 * s <= n * s) by (nonlinear_arith)
            requires
                n == 2 * half,
                half >= 1,
                s >= 1,
        ;
        lemma_block_order_split(off as nat, n as nat, s as nat);
        let even = block_order(off as nat, half as nat, (2 * s) as nat);
        let odd = block_order((off + s) as nat, half as nat, (2 * s) as nat);
        assert(order.subrange(base as int, base + n) == even + odd);
        assert(order.subrange(base as int, base + half) =~= even) by {
            assert forall|p: int| 0 <= p < half implies order.subrange(
                base as int,
                base + half,
            )[p] == even[p] by {
                assert(order.subrange(base as int, base + n)[p] == (even + odd)[p]);
            }
        }
        assert(order.subrange(base + half, base + half + half) =~= odd) by {
            assert forall|p: int| 0 <= p < half implies order.subrange(
                base + half,
                base + half + half,
            )[p] == odd[p] by {
                assert(order.subrange(base as int, base + n)[p + half] == (even + odd)[p + half]);
            }
        }
    }
    let lower = divide_and_conquer(
        samples,
        off,
        half,
        2 * s,
        frequencies,
        butterfly,
        Ghost(done),
        Ghost(trace),
    );
    let upper = divide_and_conquer(
        samples,
        off + s,
        half,
        2 * s,
        frequencies,
        butterfly,
        Ghost(done + butterflies(base as nat, half as nat)),
        lower,
    );
    let ghost halves = done + butterflies(base as nat, half as nat) + butterflies(
        (base + half) as nat,
        half as nat,
    );
    let ghost last = combine(base as nat, half as nat);
    let ghost mut current = upper@;
    let mut k: usize = 0;
    while k < half
        invariant
            k <= half,
            n == 2 * half,
            frequencies@.len() == base + n,
            base + n <= total,
            total == samples@.len(),
            order == radix2_plan(samples@.len()).order,
            last == combine(base as nat, half as nat),
            is_run(*butterfly, order, halves + last.take(k as int), samples@, current),
            current.last() == pending(order, samples@, frequencies@),
            forall|t: T, u: T, w: Twiddle| w.turn < w.over ==> call_requires(*butterfly, (t, u, w)),
        decreases half - k,
    {
        let lo = base + k;
        let hi = base + half + k;
        let t = frequencies[lo];
        let u = frequencies[hi];
        let ghost before = pending(order, samples@, frequencies@);
        let (sum, difference) = butterfly(t, u, Twiddle { turn: k, over: n });
        frequencies.set(lo, sum);
        frequencies.set(hi, difference);
        proof {
            let after = pending(order, samples@, frequencies@);
            let step = last[k as int];
            assert(step.twiddle.as_twiddle() == Twiddle { turn: k, over: n });
            assert(steps_to(*butterfly, step, before, after));
            lemma_run_extends(
                *butterfly,
                order,
                halves + last.take(k as int),
                samples@,
                current,
                step,
                after,
            );
            assert((halves + last.take(k as int)).push(step) =~= halves + last.take(k + 1));
            current = current.push(after);
        }
        k += 1;
    }
    proof {
        assert(last.take(half as int) =~= last);
        assert(halves + last =~= done + butterflies(base as nat, n as nat));
    }
    Ghost(current)
}

/// The direct transform of `samples` for the bins of `frequency_range`,
/// with the arithmetic of `accumulate`.
///
/// `accumulate(sum, x, w)` is to return `sum + w·x`.  Output `i` is bin
/// `frequency_range.start + i`, added up from `zero` over the samples in
/// their order.  A range that ends before it starts, or after the number of
/// samples, is refused.
pub fn dft<T: Copy, K: Fn(T, T, Twiddle) -> T>(
    samples: &[T],
    frequency_range: Range<usize>,
    zero: T,
    accumulate: K,
) -> (r: Result<Vec<T>, TransformError>)
    requires
        forall|sum: T, x: T, w: Twiddle| w.turn < w.over ==> call_requires(accumulate, (sum, x, w)),
    ensures
        r is Ok <==> frequency_range.start <= frequency_range.end <= samples@.len(),
        r matches Err(e) ==> e == TransformError::Range,
        r matches Ok(out) ==> {
            &&& out@.len() == frequency_range.end - frequency_range.start
            &&& forall|i: int|
                0 <= i < out@.len() ==> sums_to(
                    accumulate,
                    samples@,
                    (frequency_range.start + i) as usize,
                    zero,
                    #[trigger] out@[i],
                )
        },
{
    let len = samples.len();
    let start = frequency_range.start;
    let end = frequency_range.end;
    if start > end || end > len {
        return Err(TransformError::Range);
    }
    let mut out: Vec<T> = Vec::new();
    let mut k: usize = start;
    while k < end
        invariant
            start <= k <= end <= len,
            len == samples@.len(),
            out@.len() == k - start,
            forall|i: int|
                0 <= i < out@.len() ==> sums_to(
                    accumulate,
                    samples@,
                    (start + i) as usize,
                    zero,
                    #[trigger] out@[i],
                ),
            forall|sum: T, x: T, w: Twiddle|
                w.turn < w.over ==> call_requires(accumulate, (sum, x, w)),
        decreases end - k,
    {
        let mut sum = zero;
        let ghost mut partial: Seq<T> = seq![zero];
        let mut j: usize = 0;
        while j < len
            invariant
                j <= len,
                len == samples@.len(),
                partial.len() == j + 1,
                partial[0] == zero,
                partial.last() == sum,
                forall|m: int| 0 <= m < j ==> #[trigger] adds(accumulate, samples@, k, partial, m),
                forall|sum: T, x: T, w: Twiddle|
                    w.turn < w.over ==> call_requires(accumulate, (sum, x, w)),
            decreases len - j,
        {
            let w = direct_twiddle(len, k, j);
            let next = accumulate(sum, samples[j], w);
            proof {
                let longer = partial.push(next);
                assert forall|m: int| 0 <= m < j + 1 implies #[trigger] adds(
                    accumulate,
                    samples@,
                    k,
                    longer,
                    m,
                ) by {
                    if m < j {
                        assert(adds(accumulate, samples@, k, partial, m));
                    }
                }
                partial = longer;
            }
            sum = next;
            j += 1;
        }
        proof {
            assert(is_sum(accumulate, samples@, k, zero, partial));
        }
        let ghost earlier = out@;
        out.push(sum);
        proof {
            assert forall|i: int| 0 <= i < out@.len() implies sums_to(
                accumulate,
                samples@,
                (start + i) as usize,
                zero,
                #[trigger] out@[i],
            ) by {
                if i < earlier.len() {
                    assert(out@[i] == earlier[i]);
                }
            }
        }
        k += 1;
    }
    Ok(out)
}

/// The unit root by which the direct transform of `len` samples multiplies
/// sample `sample` for bin `bin`: `e^(-2πi · bin · sample / len)`, with the
/// turn reduced below `len`.
pub fn direct_twiddle(len: usize, bin: usize, sample: usize) -> (w: Twiddle)
    requires
        sample < len,
    ensures
        w == direct_root(len, bin, sample),
        w.over == len,
        w.turn == (bin as nat * sample as nat) % (len as nat),
        direct_sum(len as nat, bin as nat)[sample as int] == (Term {
            sample: sample as nat,
            turn: w@.turn_in(len as nat),
        }),
{
    assert(bin * sample <= 0xffff_ffff_ffff_ffff * 0xffff_ffff_ffff_ffff) by (nonlinear_arith)
        requires
            0 <= bin <= 0xffff_ffff_ffff_ffff,
            0 <= sample <= 0xffff_ffff_ffff_ffff,
    ;
    let product: u128 = (bin as u128) * (sample as u128);
    let turn: u128 = product % (len as u128);
    proof {
        assert(len as nat / len as nat == 1) by (nonlinear_arith)
            requires
                len > 0,
        ;
        assert(turn * 1 == turn);
    }
    Twiddle { turn: turn as usize, over: len }
}

} // verus!
