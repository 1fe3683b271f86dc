//! What the transforms compute when the arithmetic is exact.
//!
//! The transforms take their arithmetic from kernels.  The laws below hold
//! for every kernel that keeps its part: a kernel that adds and rotates
//! without error makes both transforms compute the sums that define the
//! bins, and a kernel that leaves zero alone makes them map silence to
//! silence.

use crate::execution::{adds, is_run, is_sum, links, loaded, runs_to, sums_to};
use crate::plan::{run, Plan, Step};
use crate::radix2::{lemma_radix2_computes_bins, lemma_radix2_wf, radix2_plan};
use crate::terms::{direct_sum, negated, turned, Term};
use crate::twiddle::Twiddle;
use vstd::arithmetic::div_mod::{lemma_div_basics, lemma_mod_twice, lemma_small_mod};
use vstd::arithmetic::power2::is_pow2;
use vstd::prelude::*;

verus! {

/// The samples of a signal of length `n` as sums: sample `j` is the single
/// term `x[j]`.
pub open spec fn unit_samples(n: nat) -> Seq<Seq<Term>> {
    Seq::new(n, |j: int| seq![Term { sample: j as nat, turn: 0 }])
}

/// Whether `kernel` is the butterfly without error, on sums of terms of a
/// transform of `n` samples: from `t`, `u` and the root `w` it returns
/// `t + w·u` and `t - w·u`.
pub open spec fn exact_butterfly<K: Fn(Seq<Term>, Seq<Term>, Twiddle) -> (Seq<Term>, Seq<Term>)>(
    kernel: K,
    n: nat,
) -> bool {
    forall|t: Seq<Term>, u: Seq<Term>, w: Twiddle, r: (Seq<Term>, Seq<Term>)| #[trigger]
        call_ensures(kernel, (t, u, w), r) ==> {
            &&& r.0 == t + turned(u, w@.turn_in(n), n)
            &&& r.1 == t + negated(turned(u, w@.turn_in(n), n), n)
        }
}

/// Whether `kernel` adds a rotated sample without error: from `sum`, `x` and
/// the root `w` it returns `sum + w·x`.
pub open spec fn exact_accumulate<K: Fn(Seq<Term>, Seq<Term>, Twiddle) -> Seq<Term>>(
    kernel: K,
    n: nat,
) -> bool {
    forall|sum: Seq<Term>, x: Seq<Term>, w: Twiddle, r: Seq<Term>| #[trigger]
        call_ensures(kernel, (sum, x, w), r) ==> r == sum + turned(x, w@.turn_in(n), n)
}

/// With an exact butterfly, buffer `i` of a run of the radix-2 plan is
/// what the first `i` steps of the plan make of the loaded samples.
proof fn lemma_exact_trace<K: Fn(Seq<Term>, Seq<Term>, Twiddle) -> (Seq<Term>, Seq<Term>)>(
    kernel: K,
    n: nat,
    trace: Seq<Seq<Seq<Term>>>,
    i: nat,
)
    requires
        is_pow2(n as int),
        n <= usize::MAX,
        exact_butterfly(kernel, n),
        is_run(kernel, radix2_plan(n).order, radix2_plan(n).steps, unit_samples(n), trace),
        i <= radix2_plan(n).steps.len(),
    ensures
        trace[i as int].len() == n,
        trace[i as int] == run(radix2_plan(n).steps.take(i as int), radix2_plan(n).loaded()),
    decreases i,
{
    let plan = radix2_plan(n);
    lemma_radix2_wf(n);
    if i == 0 {
        assert(plan.steps.take(0) =~= Seq::<Step>::empty());
        assert forall|p: int| 0 <= p < n implies loaded(plan.order, unit_samples(n))[p]
            == plan.loaded()[p] by {
            assert(plan.order[p] < n);
        }
        assert(trace[0] =~= plan.loaded());
    } else {
        let before = trace[i - 1];
        let after = trace[i as int];
        let step = plan.steps[i - 1];
        lemma_exact_trace(kernel, n, trace, (i - 1) as nat);
        assert(links(kernel, plan.steps, trace, i - 1));
        assert(step.fits(n));
        assert(step.twiddle.over <= n) by {
            reveal(is_pow2);
            if step.twiddle.over > n {
                lemma_small_mod(n, step.twiddle.over);
            }
        }
        assert(step.twiddle.as_twiddle()@ == step.twiddle);
        assert(after =~= step.apply(before));
        assert(plan.steps.take(i as int).drop_last() =~= plan.steps.take(i - 1));
        assert(plan.steps.take(i as int).last() == step);
    }
}

/// The fast transform with an exact butterfly computes the bins of the
/// transform: bin `k` ends at position `k` and is the sum of the terms
/// `x[j] · ω^(k·j)`, each once, as in the direct sum.
pub proof fn lemma_exact_fft<K: Fn(Seq<Term>, Seq<Term>, Twiddle) -> (Seq<Term>, Seq<Term>)>(
    kernel: K,
    n: nat,
    out: Seq<Seq<Term>>,
)
    requires
        is_pow2(n as int),
        n <= usize::MAX,
        exact_butterfly(kernel, n),
        runs_to(kernel, radix2_plan(n), unit_samples(n), out),
    ensures
        out.len() == n,
        forall|k: int|
            0 <= k < n ==> (#[trigger] out[k]).to_multiset() == direct_sum(
                n,
                k as nat,
            ).to_multiset(),
{
    let plan = radix2_plan(n);
    let trace = choose|trace: Seq<Seq<Seq<Term>>>| #[trigger]
        is_run(kernel, plan.order, plan.steps, unit_samples(n), trace) && trace.last() == out;
    lemma_exact_trace(kernel, n, trace, plan.steps.len());
    assert(plan.steps.take(plan.steps.len() as int) =~= plan.steps);
    assert(out == plan.outputs());
    assert forall|k: int| 0 <= k < n implies (#[trigger] out[k]).to_multiset() == direct_sum(
        n,
        k as nat,
    ).to_multiset() by {
        lemma_radix2_computes_bins(n, k as nat);
    }
}

/// With an exact kernel, the first `j` samples of bin `bin` add up to the
/// first `j` terms of the direct sum.
proof fn lemma_exact_partial<K: Fn(Seq<Term>, Seq<Term>, Twiddle) -> Seq<Term>>(
    kernel: K,
    n: nat,
    bin: usize,
    partial: Seq<Seq<Term>>,
    j: nat,
)
    requires
        0 < n <= usize::MAX,
        exact_accumulate(kernel, n),
        is_sum(kernel, unit_samples(n), bin, Seq::<Term>::empty(), partial),
        j <= n,
    ensures
        partial[j as int] == direct_sum(n, bin as nat).take(j as int),
    decreases j,
{
    let direct = direct_sum(n, bin as nat);
    if j == 0 {
        assert(partial[0] =~= direct.take(0));
    } else {
        let m = (j - 1) as nat;
        lemma_exact_partial(kernel, n, bin, partial, m);
        assert(adds(kernel, unit_samples(n), bin, partial, m as int));
        let turn = (bin * m) % (n as int);
        assert(n / n == 1) by {
            lemma_div_basics(n as int);
        }
        assert(turn * 1 == turn);
        assert((0 + turn) % (n as int) == turn) by {
            lemma_mod_twice((bin * m) as int, n as int);
        }
        assert(partial[j as int] =~= direct.take(j as int));
    }
}

/// The direct transform with an exact kernel computes the sum that defines
/// the bin, term by term in the order of the samples.
pub proof fn lemma_exact_dft<K: Fn(Seq<Term>, Seq<Term>, Twiddle) -> Seq<Term>>(
    kernel: K,
    n: nat,
    bin: usize,
    sum: Seq<Term>,
)
    requires
        0 < n <= usize::MAX,
        exact_accumulate(kernel, n),
        sums_to(kernel, unit_samples(n), bin, Seq::<Term>::empty(), sum),
    ensures
        sum == direct_sum(n, bin as nat),
{
    let partial = choose|partial: Seq<Seq<Term>>| #[trigger]
        is_sum(kernel, unit_samples(n), bin, Seq::<Term>::empty(), partial) && partial.last()
            == sum;
    lemma_exact_partial(kernel, n, bin, partial, n);
    assert(direct_sum(n, bin as nat).take(n as int) =~= direct_sum(n, bin as nat));
}

/// The two transforms agree: with exact kernels, bin `k` of the fast
/// transform and bin `k` of the direct transform are sums of the same terms.
pub proof fn lemma_fft_matches_dft<
    B: Fn(Seq<Term>, Seq<Term>, Twiddle) -> (Seq<Term>, Seq<Term>),
    A: Fn(Seq<Term>, Seq<Term>, Twiddle) -> Seq<Term>,
>(butterfly: B, accumulate: A, n: nat, k: usize, fast: Seq<Seq<Term>>, direct: Seq<Term>)
    requires
        is_pow2(n as int),
        n <= usize::MAX,
        k < n,
        exact_butterfly(butterfly, n),
        exact_accumulate(accumulate, n),
        runs_to(butterfly, radix2_plan(n), unit_samples(n), fast),
        sums_to(accumulate, unit_samples(n), k, Seq::<Term>::empty(), direct),
    ensures
        fast.len() == n,
        fast[k as int].to_multiset() == direct.to_multiset(),
{
    lemma_exact_fft(butterfly, n, fast);
    lemma_exact_dft(accumulate, n, k, direct);
}

/// Buffer `i` of a run holds nothing but `zero` when the samples do and the
/// kernel makes nothing else of it.
proof fn lemma_trace_keeps_zero<T, K: Fn(T, T, Twiddle) -> (T, T)>(
    kernel: K,
    order: Seq<nat>,
    steps: Seq<Step>,
    samples: Seq<T>,
    trace: Seq<Seq<T>>,
    zero: T,
    i: nat,
)
    requires
        forall|w: Twiddle, r: (T, T)| #[trigger]
            call_ensures(kernel, (zero, zero, w), r) ==> r == (zero, zero),
        forall|j: int| 0 <= j < samples.len() ==> samples[j] == zero,
        forall|p: int| 0 <= p < order.len() ==> order[p] < samples.len(),
        is_run(kernel, order, steps, samples, trace),
        i <= steps.len(),
    ensures
        trace[i as int].len() == order.len(),
        forall|q: int| 0 <= q < order.len() ==> (#[trigger] trace[i as int][q]) == zero,
    decreases i,
{
    if i > 0 {
        lemma_trace_keeps_zero(kernel, order, steps, samples, trace, zero, (i - 1) as nat);
        assert(links(kernel, steps, trace, i - 1));
        let before = trace[i - 1];
        let after = trace[i as int];
        let step = steps[i - 1];
        assert(before[step.lo as int] == zero && before[step.hi as int] == zero);
        assert forall|q: int| 0 <= q < order.len() implies (#[trigger] after[q]) == zero by {
            if q != step.lo && q != step.hi {
                assert(after[q] == before[q]);
            }
        }
    }
}

/// The fast transform maps silence to silence: when every sample is `zero`
/// and the butterfly of two zeros is two zeros, every bin is `zero`.
pub proof fn lemma_fft_keeps_zero<T, K: Fn(T, T, Twiddle) -> (T, T)>(
    kernel: K,
    plan: Plan,
    samples: Seq<T>,
    out: Seq<T>,
    zero: T,
)
    requires
        forall|w: Twiddle, r: (T, T)| #[trigger]
            call_ensures(kernel, (zero, zero, w), r) ==> r == (zero, zero),
        forall|j: int| 0 <= j < samples.len() ==> samples[j] == zero,
        forall|p: int| 0 <= p < plan.order.len() ==> plan.order[p] < samples.len(),
        runs_to(kernel, plan, samples, out),
    ensures
        out.len() == plan.order.len(),
        forall|k: int| 0 <= k < out.len() ==> out[k] == zero,
{
    let trace = choose|trace: Seq<Seq<T>>| #[trigger]
        is_run(kernel, plan.order, plan.steps, samples, trace) && trace.last() == out;
    lemma_trace_keeps_zero(
        kernel,
        plan.order,
        plan.steps,
        samples,
        trace,
        zero,
        plan.steps.len(),
    );
}

/// The direct transform maps silence to silence: when every sample is
/// `zero` and adding a rotated zero to zero gives zero, every bin is `zero`.
pub proof fn lemma_dft_keeps_zero<T, K: Fn(T, T, Twiddle) -> T>(
    kernel: K,
    samples: Seq<T>,
    bin: usize,
    sum: T,
    zero: T,
)
    requires
        forall|w: Twiddle, r: T| #[trigger] call_ensures(kernel, (zero, zero, w), r) ==> r == zero,
        forall|j: int| 0 <= j < samples.len() ==> samples[j] == zero,
        sums_to(kernel, samples, bin, zero, sum),
    ensures
        sum == zero,
{
    let partial = choose|partial: Seq<T>| #[trigger]
        is_sum(kernel, samples, bin, zero, partial) && partial.last() == sum;
    lemma_partial_keeps_zero(kernel, samples, bin, partial, zero, samples.len());
}

/// The sum of the first `j` rotated samples is `zero` when the samples are
/// and the kernel makes nothing else of it.
proof fn lemma_partial_keeps_zero<T, K: Fn(T, T, Twiddle) -> T>(
    kernel: K,
    samples: Seq<T>,
    bin: usize,
    partial: Seq<T>,
    zero: T,
    j: nat,
)
    requires
        forall|w: Twiddle, r: T| #[trigger] call_ensures(kernel, (zero, zero, w), r) ==> r == zero,
        forall|j: int| 0 <= j < samples.len() ==> samples[j] == zero,
        is_sum(kernel, samples, bin, zero, partial),
        j <= samples.len(),
    ensures
        partial[j as int] == zero,
    decreases j,
{
    if j > 0 {
        lemma_partial_keeps_zero(kernel, samples, bin, partial, zero, (j - 1) as nat);
        assert(adds(kernel, samples, bin, partial, j - 1));
    }
}

} // verus!
