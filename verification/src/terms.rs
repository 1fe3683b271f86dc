//! Frequency bins as exact sums of rotated samples.
//!
//! For a transform of `n` samples write `ω = e^(-2πi/n)` for the unit root
//! that turns clockwise by one `n`-th of the circle.  Every value that a
//! transform handles is a sum of samples, each multiplied by a power of `ω`.
//! Such a sum is kept here term by term, so that two ways of computing a bin
//! can be compared without rounding.

use vstd::prelude::*;

verus! {

/// The summand `x[sample] · ω^turn`.
pub struct Term {
    pub sample: nat,
    pub turn: nat,
}

/// The sum multiplied by `ω^by`: every term turns further by `by`.
pub open spec fn turned(sum: Seq<Term>, by: nat, n: nat) -> Seq<Term> {
    Seq::new(
        sum.len(),
        |i: int| Term { sample: sum[i].sample, turn: (sum[i].turn + by) % n },
    )
}

/// The sum multiplied by `-1`.  For even `n` this is `ω^(n/2)`, so every
/// term turns by half a circle.
pub open spec fn negated(sum: Seq<Term>, n: nat) -> Seq<Term> {
    turned(sum, n / 2, n)
}

/// Bin `k` of the transform of `n` samples as it is defined: the sum of
/// `x[j] · ω^(k·j)` over all `j` below `n`, in this order.
pub open spec fn direct_sum(n: nat, k: nat) -> Seq<Term> {
    Seq::new(n, |j: int| Term { sample: j as nat, turn: (k * (j as nat)) % n })
}

} // verus!
