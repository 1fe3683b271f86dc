//! The radix-2 plan, decimation in time, and the proof that it computes
//! every bin of the transform.
//!
//! A block of `n` positions is transformed by transforming its lower half,
//! which holds the samples of even rank, then its upper half, which holds
//! those of odd rank, and then combining position `k` of the one with
//! position `k` of the other, for every `k` below `n / 2`.

use crate::bit_reversal::{
    bit_reverse, lemma_bit_reverse_bound, lemma_bit_reverse_twice, lemma_half_is_pow2,
};
use crate::plan::{lemma_run_concat, run, Plan, Step};
use crate::terms::{direct_sum, negated, turned, Term};
use crate::twiddle::UnitRoot;
use vstd::arithmetic::div_mod::{
    lemma_add_mod_noop_right, lemma_div_by_multiple, lemma_mod_multiples_basic,
    lemma_mod_multiples_vanish, lemma_small_mod,
};
use vstd::arithmetic::logarithm::{lemma_log0, lemma_log_s, log};
use vstd::arithmetic::power2::is_pow2;
use vstd::prelude::*;

verus! {

/// The butterflies that combine the two transformed halves of the block of
/// `2 * half` positions from `base` on: the one for `k` works on the
/// positions `base + k` and `base + half + k` with the root
/// `e^(-2πi · k / (2 · half))`.
pub open spec fn combine(base: nat, half: nat) -> Seq<Step> {
    Seq::new(
        half,
        |k: int|
            Step {
                lo: (base + k) as nat,
                hi: (base + half + k) as nat,
                twiddle: UnitRoot { turn: k as nat, over: 2 * half },
            },
    )
}

/// All butterflies for the block of `n` positions from `base` on: those of
/// the lower half, those of the upper half, then the combining ones.
pub open spec fn butterflies(base: nat, n: nat) -> Seq<Step>
    decreases n,
{
    if n < 2 {
        Seq::empty()
    } else {
        butterflies(base, n / 2) + butterflies(base + n / 2, n / 2) + combine(base, n / 2)
    }
}

/// The radix-2 plan for `n` samples: the samples are loaded in bit-reversed
/// order, then the butterflies of the whole buffer run.
pub open spec fn radix2_plan(n: nat) -> Plan {
    Plan { order: Seq::new(n, |p: int| bit_reverse(n, p as nat)), steps: butterflies(0, n) }
}

/// Bin `k` of a transform of `n` samples taken at the places `off`,
/// `off + s`, `off + 2 * s`, ... of a signal of `total = n * s` samples, with
/// the terms in bit-reversed order of rank and the turns counted in
/// `total`-ths of the circle.
spec fn block_sum(off: nat, n: nat, s: nat, k: nat, total: nat) -> Seq<Term> {
    Seq::new(
        n,
        |p: int|
            Term {
                sample: off + s * bit_reverse(n, p as nat),
                turn: (k * (s * bit_reverse(n, p as nat))) % total,
            },
    )
}

/// Bin `k` of the transform of `n` samples as the radix-2 plan adds it up:
/// the same terms as in the direct sum, in bit-reversed order.
pub open spec fn fast_sum(n: nat, k: nat) -> Seq<Term> {
    Seq::new(
        n,
        |p: int|
            Term {
                sample: bit_reverse(n, p as nat),
                turn: (k * bit_reverse(n, p as nat)) % n,
            },
    )
}

/// What the first `count` combining butterflies do to a buffer: each one
/// rewrites its own two positions from their earlier values, and nothing
/// else changes.
proof fn lemma_combine_prefix(buffer: Seq<Seq<Term>>, base: nat, half: nat, count: nat)
    requires
        count <= half,
        base + 2 * half <= buffer.len(),
    ensures
        ({
            let n = buffer.len();
            let out = run(combine(base, half).take(count as int), buffer);
            &&& out.len() == n
            &&& forall|q: int|
                base <= q < base + count ==> #[trigger] out[q] == buffer[q] + turned(
                    buffer[q + half],
                    ((q - base) * (n / (2 * half))) as nat,
                    n,
                )
            &&& forall|q: int|
                base + half <= q < base + half + count ==> #[trigger] out[q] == buffer[q - half]
                    + negated(
                    turned(buffer[q], ((q - half - base) * (n / (2 * half))) as nat, n),
                    n,
                )
            &&& forall|q: int|
                0 <= q < n && !(base <= q < base + count) && !(base + half <= q < base + half
                    + count) ==> #[trigger] out[q] == buffer[q]
        }),
    decreases count,
{
    let steps = combine(base, half).take(count as int);
    if count > 0 {
        let fewer = (count - 1) as nat;
        lemma_combine_prefix(buffer, base, half, fewer);
        assert(steps.drop_last() =~= combine(base, half).take(fewer as int));
        assert(steps.last() == combine(base, half)[fewer as int]);
    }
}

/// Turning by `b` after reducing the turn is turning by `b` and reducing
/// once.
proof fn lemma_turn_sum(a: int, b: int, m: int)
    requires
        0 < m,
    ensures
        ((a % m) + b) % m == (a + b) % m,
{
    lemma_add_mod_noop_right(b, a, m);
}

/// The lower output of a combining butterfly: bin `k` of the even ranks plus
/// the turned bin `k` of the odd ranks is bin `k` of all ranks.
proof fn lemma_merge_lo(off: nat, n: nat, s: nat, k: nat, total: nat)
    requires
        is_pow2(n as int),
        n >= 2,
        s >= 1,
        n * s == total,
        k < n / 2,
    ensures
        block_sum(off, n / 2, 2 * s, k, total) + turned(
            block_sum(off + s, n / 2, 2 * s, k, total),
            k * s,
            total,
        ) == block_sum(off, n, s, k, total),
{
    lemma_half_is_pow2(n);
    let h = n / 2;
    let even = block_sum(off, h, 2 * s, k, total);
    let odd = turned(block_sum(off + s, h, 2 * s, k, total), k * s, total);
    let all = block_sum(off, n, s, k, total);
    assert(total > 0) by (nonlinear_arith)
        requires
            n >= 2,
            s >= 1,
            n * s == total,
    ;
    assert forall|p: int| 0 <= p < n implies (even + odd)[p] == all[p] by {
        if p < h {
            let r = bit_reverse(h, p as nat);
            assert(bit_reverse(n, p as nat) == 2 * r);
            assert((2 * s) * r == s * (2 * r)) by (nonlinear_arith);
        } else {
            let r = bit_reverse(h, (p - h) as nat);
            assert(bit_reverse(n, p as nat) == 2 * r + 1);
            let a = k * ((2 * s) * r);
            assert(s * (2 * r + 1) == s + (2 * s) * r) by (nonlinear_arith);
            assert(k * (s * (2 * r + 1)) == a + k * s) by (nonlinear_arith)
                requires
                    a == k * ((2 * s) * r),
            ;
            lemma_turn_sum(a as int, (k * s) as int, total as int);
        }
    }
    assert(even + odd =~= all);
}

/// The upper output of a combining butterfly: bin `k` of the even ranks
/// minus the turned bin `k` of the odd ranks is bin `k + n / 2` of all ranks.
proof fn lemma_merge_hi(off: nat, n: nat, s: nat, k: nat, total: nat)
    requires
        is_pow2(n as int),
        n >= 2,
        s >= 1,
        n * s == total,
        k < n / 2,
    ensures
        block_sum(off, n / 2, 2 * s, k, total) + negated(
            turned(block_sum(off + s, n / 2, 2 * s, k, total), k * s, total),
            total,
        ) == block_sum(off, n, s, k + n / 2, total),
{
    lemma_half_is_pow2(n);
    let h = n / 2;
    let even = block_sum(off, h, 2 * s, k, total);
    let odd = negated(turned(block_sum(off + s, h, 2 * s, k, total), k * s, total), total);
    let all = block_sum(off, n, s, k + h, total);
    assert(total == 2 * (h * s) && total > 0) by (nonlinear_arith)
        requires
            n == 2 * h,
            h >= 1,
            s >= 1,
            n * s == total,
    ;
    assert(total / 2 == h * s);
    assert forall|p: int| 0 <= p < n implies (even + odd)[p] == all[p] by {
        if p < h {
            let r = bit_reverse(h, p as nat);
            assert(bit_reverse(n, p as nat) == 2 * r);
            let a = k * ((2 * s) * r);
            assert((2 * s) * r == s * (2 * r)) by (nonlinear_arith);
            assert((k + h) * (s * (2 * r)) == total * r + a) by (nonlinear_arith)
                requires
                    a == k * ((2 * s) * r),
                    total == 2 * (h * s),
            ;
            lemma_mod_multiples_vanish(r as int, a as int, total as int);
        } else {
            let r = bit_reverse(h, (p - h) as nat);
            assert(bit_reverse(n, p as nat) == 2 * r + 1);
            let a = k * ((2 * s) * r);
            assert(s * (2 * r + 1) == s + (2 * s) * r) by (nonlinear_arith);
            assert((k + h) * (s * (2 * r + 1)) == total * r + (a + k * s + h * s))
                by (nonlinear_arith)
                requires
                    a == k * ((2 * s) * r),
                    total == 2 * (h * s),
            ;
            lemma_turn_sum(a as int, (k * s) as int, total as int);
            lemma_turn_sum((a + k * s) as int, (h * s) as int, total as int);
            lemma_mod_multiples_vanish(r as int, (a + k * s + h * s) as int, total as int);
        }
    }
    assert(even + odd =~= all);
}

/// Whether the block of `n` positions from `base` on holds, not yet turned,
/// the samples at `off`, `off + s`, ... in bit-reversed order of rank.
spec fn block_loaded(buffer: Seq<Seq<Term>>, off: nat, n: nat, s: nat, base: nat) -> bool {
    forall|q: int|
        base <= q < base + n ==> #[trigger] buffer[q] == seq![
            Term { sample: off + s * bit_reverse(n, (q - base) as nat), turn: 0 },
        ]
}

/// The butterflies of a block turn its loaded samples into the bins of
/// their transform, position `base + k` holding bin `k`, and leave the rest
/// of the buffer as it was.
proof fn lemma_block(buffer: Seq<Seq<Term>>, off: nat, n: nat, s: nat, base: nat)
    requires
        is_pow2(n as int),
        s >= 1,
        n * s == buffer.len(),
        base + n <= buffer.len(),
        block_loaded(buffer, off, n, s, base),
    ensures
        ({
            let out = run(butterflies(base, n), buffer);
            &&& out.len() == buffer.len()
            &&& forall|q: int|
                base <= q < base + n ==> #[trigger] out[q] == block_sum(
                    off,
                    n,
                    s,
                    (q - base) as nat,
                    buffer.len(),
                )
            &&& forall|q: int|
                0 <= q < buffer.len() && !(base <= q < base + n) ==> #[trigger] out[q]
                    == buffer[q]
        }),
    decreases n,
{
    let total = buffer.len();
    let out = run(butterflies(base, n), buffer);
    if n < 2 {
        assert(n == 1) by {
            reveal(is_pow2);
        }
        assert(bit_reverse(1, 0) == 0);
        assert(butterflies(base, n) =~= Seq::<Step>::empty());
        assert(total == s) by (nonlinear_arith)
            requires
                n == 1,
                n * s == total,
        ;
        let want = block_sum(off, n, s, 0, total);
        assert(want.len() == 1);
        assert(want[0].sample == off + s * bit_reverse(n, 0));
        assert(want[0].turn == 0) by {
            assert(0 * (s * bit_reverse(n, 0)) == 0) by (nonlinear_arith);
            lemma_small_mod(0, total);
        }
        assert(out == buffer);
        assert(out[base as int] =~= want);
    } else {
        lemma_half_is_pow2(n);
        let h = n / 2;
        let lower = butterflies(base, h);
        let upper = butterflies(base + h, h);
        let last = combine(base, h);
        assert(h * (2 * s) == total) by (nonlinear_arith)
            requires
                n == 2 * h,
                n * s == total,
        ;
        assert(total / n == s) by {
            assert(s * n == n * s) by (nonlinear_arith);
            lemma_div_by_multiple(s as int, n as int);
        }
        // the lower half holds the even ranks
        assert forall|q: int| base <= q < base + h implies #[trigger] buffer[q] == seq![
            Term { sample: off + (2 * s) * bit_reverse(h, (q - base) as nat), turn: 0 },
        ] by {
            let r = bit_reverse(h, (q - base) as nat);
            assert(bit_reverse(n, (q - base) as nat) == 2 * r);
            assert((2 * s) * r == s * (2 * r)) by (nonlinear_arith);
        }
        assert(block_loaded(buffer, off, h, 2 * s, base));
        lemma_block(buffer, off, h, 2 * s, base);
        let first = run(lower, buffer);
        // the upper half holds the odd ranks
        assert forall|q: int| base + h <= q < base + h + h implies #[trigger] first[q] == seq![
            Term { sample: off + s + (2 * s) * bit_reverse(h, (q - (base + h)) as nat), turn: 0 },
        ] by {
            let r = bit_reverse(h, (q - (base + h)) as nat);
            assert(first[q] == buffer[q]);
            assert(bit_reverse(n, (q - base) as nat) == 2 * r + 1);
            assert(s * (2 * r + 1) == s + (2 * s) * r) by (nonlinear_arith);
        }
        assert(block_loaded(first, off + s, h, 2 * s, base + h));
        lemma_block(first, off + s, h, 2 * s, base + h);
        let second = run(upper, first);
        lemma_combine_prefix(second, base, h, h);
        assert(last.take(h as int) =~= last);
        let third = run(last, second);
        lemma_run_concat(lower, upper, buffer);
        lemma_run_concat(lower + upper, last, buffer);
        assert(out == third);
        assert forall|q: int| base <= q < base + n implies #[trigger] out[q] == block_sum(
            off,
            n,
            s,
            (q - base) as nat,
            total,
        ) by {
            if q < base + h {
                let k = (q - base) as nat;
                assert(second[q] == first[q]);
                assert(second[q + h] == block_sum(off + s, h, 2 * s, k, total));
                assert(k * (total / (2 * h)) == k * s);
                lemma_merge_lo(off, n, s, k, total);
            } else {
                let k = (q - h - base) as nat;
                assert(second[q - h] == first[q - h]);
                assert(second[q] == block_sum(off + s, h, 2 * s, k, total));
                assert(k * (total / (2 * h)) == k * s);
                lemma_merge_hi(off, n, s, k, total);
            }
        }
    }
}

/// The samples of a block in the order in which its positions load them.
pub open spec fn block_order(off: nat, n: nat, s: nat) -> Seq<nat> {
    Seq::new(n, |p: int| off + s * bit_reverse(n, p as nat))
}

/// A block loads the even ranks into its lower half and the odd ranks into
/// its upper half, each half in the order of a block of its own.
pub proof fn lemma_block_order_split(off: nat, n: nat, s: nat)
    requires
        is_pow2(n as int),
        n >= 2,
    ensures
        block_order(off, n / 2, 2 * s) + block_order(off + s, n / 2, 2 * s) == block_order(
            off,
            n,
            s,
        ),
{
    lemma_half_is_pow2(n);
    let h = n / 2;
    let halves = block_order(off, h, 2 * s) + block_order(off + s, h, 2 * s);
    assert forall|p: int| 0 <= p < n implies halves[p] == block_order(off, n, s)[p] by {
        if p < h {
            let r = bit_reverse(h, p as nat);
            assert(bit_reverse(n, p as nat) == 2 * r);
            assert((2 * s) * r == s * (2 * r)) by (nonlinear_arith);
        } else {
            let r = bit_reverse(h, (p - h) as nat);
            assert(bit_reverse(n, p as nat) == 2 * r + 1);
            assert(s * (2 * r + 1) == s + (2 * s) * r) by (nonlinear_arith);
        }
    }
    assert(halves =~= block_order(off, n, s));
}

/// The radix-2 plan turns the loaded samples into the bins of their
/// transform: position `k` ends as `fast_sum(n, k)`.
pub proof fn lemma_radix2_outputs(n: nat)
    requires
        is_pow2(n as int),
    ensures
        radix2_plan(n).outputs().len() == n,
        forall|k: int|
            0 <= k < n ==> #[trigger] radix2_plan(n).outputs()[k] == fast_sum(n, k as nat),
{
    let plan = radix2_plan(n);
    let buffer = plan.loaded();
    assert(block_loaded(buffer, 0, n, 1, 0)) by {
        assert forall|q: int| 0 <= q < n implies 1 * bit_reverse(n, q as nat) == plan.order[q] by {}
    }
    lemma_block(buffer, 0, n, 1, 0);
    assert forall|k: int| 0 <= k < n implies #[trigger] plan.outputs()[k] == fast_sum(
        n,
        k as nat,
    ) by {
        assert(block_sum(0, n, 1, k as nat, n) =~= fast_sum(n, k as nat));
    }
}

/// The radix-2 plan adds up, for every bin, exactly the terms of the direct
/// sum, each of them once: the two sums differ in the order of their terms
/// only.
pub proof fn lemma_fast_sum_rearranges_direct(n: nat, k: nat)
    requires
        is_pow2(n as int),
    ensures
        fast_sum(n, k).to_multiset() == direct_sum(n, k).to_multiset(),
{
    let fast = fast_sum(n, k);
    let direct = direct_sum(n, k);
    assert(n > 0) by {
        reveal(is_pow2);
    }
    assert forall|p: int, q: int|
        0 <= p < fast.len() && 0 <= q < fast.len() && p != q implies fast[p] != fast[q] by {
        lemma_bit_reverse_twice(n, p as nat);
        lemma_bit_reverse_twice(n, q as nat);
        assert(fast[p].sample == bit_reverse(n, p as nat));
        assert(fast[q].sample == bit_reverse(n, q as nat));
    }
    assert(fast.no_duplicates());
    assert forall|i: int, j: int|
        0 <= i < direct.len() && 0 <= j < direct.len() && i != j implies direct[i] != direct[j] by {
        assert(direct[i].sample == i);
        assert(direct[j].sample == j);
    }
    assert(direct.no_duplicates());
    fast.lemma_multiset_has_no_duplicates();
    direct.lemma_multiset_has_no_duplicates();
    fast.to_multiset_ensures();
    direct.to_multiset_ensures();
    assert forall|t: Term| fast.contains(t) <==> direct.contains(t) by {
        if fast.contains(t) {
            let p = choose|p: int| 0 <= p < fast.len() && fast[p] == t;
            lemma_bit_reverse_bound(n, p as nat);
            assert(direct[bit_reverse(n, p as nat) as int] == t);
        }
        if direct.contains(t) {
            let j = choose|j: int| 0 <= j < direct.len() && direct[j] == t;
            lemma_bit_reverse_bound(n, j as nat);
            lemma_bit_reverse_twice(n, j as nat);
            assert(fast[bit_reverse(n, j as nat) as int] == t);
        }
    }
    assert forall|t: Term| fast.to_multiset().count(t) == direct.to_multiset().count(t) by {
        assert(fast.contains(t) <==> direct.contains(t));
    }
    assert(fast.to_multiset() =~= direct.to_multiset());
}

/// The radix-2 plan computes the transform: for a power of two `n`, bin
/// `k` ends at position `k` of the buffer, and it is the sum of the same
/// terms as the direct sum for bin `k`, each taken once.
pub proof fn lemma_radix2_computes_bins(n: nat, k: nat)
    requires
        is_pow2(n as int),
        k < n,
    ensures
        radix2_plan(n).outputs().len() == n,
        radix2_plan(n).outputs()[k as int].to_multiset() == direct_sum(n, k).to_multiset(),
{
    lemma_radix2_outputs(n);
    lemma_fast_sum_rearranges_direct(n, k);
    assert(radix2_plan(n).outputs()[k as int] == fast_sum(n, k));
}

/// The smallest transforms: no samples give no bins, and one sample is its
/// own transform.
pub proof fn lemma_radix2_base_cases()
    ensures
        radix2_plan(0).outputs() == Seq::<Seq<Term>>::empty(),
        radix2_plan(1).outputs() == seq![seq![Term { sample: 0, turn: 0 }]],
{
    assert(radix2_plan(0).outputs() =~= Seq::<Seq<Term>>::empty());
    assert(bit_reverse(1, 0) == 0);
    assert(radix2_plan(1).outputs() =~= seq![seq![Term { sample: 0, turn: 0 }]]);
}

/// Every butterfly of a block fits the buffer that the block lies in.
proof fn lemma_butterflies_fit(base: nat, n: nat, s: nat, total: nat)
    requires
        is_pow2(n as int),
        n * s == total,
        base + n <= total,
    ensures
        forall|i: int|
            0 <= i < butterflies(base, n).len() ==> (#[trigger] butterflies(base, n)[i]).fits(
                total,
            ),
    decreases n,
{
    if n >= 2 {
        lemma_half_is_pow2(n);
        let h = n / 2;
        let lower = butterflies(base, h);
        let upper = butterflies(base + h, h);
        assert(h * (2 * s) == total && total == 2 * (h * s) && s * n == total) by (nonlinear_arith)
            requires
                n == 2 * h,
                n * s == total,
        ;
        lemma_mod_multiples_basic(s as int, n as int);
        lemma_butterflies_fit(base, h, 2 * s, total);
        lemma_butterflies_fit(base + h, h, 2 * s, total);
        assert forall|i: int| 0 <= i < butterflies(base, n).len() implies (#[trigger] butterflies(
            base,
            n,
        )[i]).fits(total) by {
            if i < lower.len() {
                assert(butterflies(base, n)[i] == lower[i]);
            } else if i < lower.len() + upper.len() {
                assert(butterflies(base, n)[i] == upper[i - lower.len()]);
            } else {
                assert(butterflies(base, n)[i] == combine(base, h)[i - lower.len() - upper.len()]);
            }
        }
    }
}

/// The radix-2 plan is well formed.
pub proof fn lemma_radix2_wf(n: nat)
    requires
        n == 0 || is_pow2(n as int),
    ensures
        radix2_plan(n).wf(),
{
    let plan = radix2_plan(n);
    if n > 0 {
        assert(n * 1 == n);
        lemma_butterflies_fit(0, n, 1, n);
        assert forall|p: int| 0 <= p < plan.order.len() implies #[trigger] plan.order[p]
            < plan.order.len() by {
            lemma_bit_reverse_bound(n, p as nat);
        }
    }
}

/// A block of `n` positions takes `n / 2` butterflies for each of its
/// `log2(n)` levels.
pub proof fn lemma_butterfly_count(base: nat, n: nat)
    requires
        is_pow2(n as int),
    ensures
        2 * butterflies(base, n).len() == n * log(2, n as int),
    decreases n,
{
    if n >= 2 {
        lemma_half_is_pow2(n);
        let h = n / 2;
        lemma_butterfly_count(base, h);
        lemma_butterfly_count(base + h, h);
        lemma_log_s(2, n as int);
        let l = log(2, h as int);
        assert(n * (1 + l) == 2 * (h * l) + 2 * h) by (nonlinear_arith)
            requires
                n == 2 * h,
        ;
    } else {
        reveal(is_pow2);
        lemma_log0(2, n as int);
    }
}

} // verus!
