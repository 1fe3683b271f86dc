//! The bit-reversal permutation of the indices below a power of two.

use vstd::arithmetic::power2::is_pow2;
use vstd::prelude::*;

verus! {

/// The index whose binary digits, written with as many digits as `n - 1`
/// has, are those of `p` in reverse order.  Meant for a power of two `n` and
/// `p < n`: the leading digit of `p` becomes the last digit of the result.
pub open spec fn bit_reverse(n: nat, p: nat) -> nat
    decreases n,
{
    if n < 2 {
        0
    } else if p < n / 2 {
        2 * bit_reverse(n / 2, p)
    } else {
        2 * bit_reverse(n / 2, (p - n / 2) as nat) + 1
    }
}

/// A power of two above one is twice a power of two.
pub proof fn lemma_half_is_pow2(n: nat)
    requires
        is_pow2(n as int),
        n >= 2,
    ensures
        n % 2 == 0,
        is_pow2((n / 2) as int),
        n / 2 >= 1,
        2 * (n / 2) == n,
{
    reveal(is_pow2);
}

/// Reversing the digits of an index below `n` gives an index below `n`.
pub proof fn lemma_bit_reverse_bound(n: nat, p: nat)
    requires
        is_pow2(n as int),
        p < n,
    ensures
        bit_reverse(n, p) < n,
    decreases n,
{
    if n >= 2 {
        lemma_half_is_pow2(n);
        if p < n / 2 {
            lemma_bit_reverse_bound(n / 2, p);
        } else {
            lemma_bit_reverse_bound(n / 2, (p - n / 2) as nat);
        }
    }
}

/// Reading the digits from the other end: the last digit `b` of an index
/// becomes the leading digit of its reversal.
proof fn lemma_bit_reverse_last_digit(n: nat, q: nat, b: nat)
    requires
        is_pow2(n as int),
        n >= 2,
        q < n / 2,
        b < 2,
    ensures
        bit_reverse(n, 2 * q + b) == b * (n / 2) + bit_reverse(n / 2, q),
    decreases n,
{
    lemma_half_is_pow2(n);
    let h = n / 2;
    assert(b == 0 || b == 1);
    if h >= 2 {
        lemma_half_is_pow2(h);
        let g = h / 2;
        if q < g {
            lemma_bit_reverse_last_digit(h, q, b);
            assert(bit_reverse(n, 2 * q + b) == 2 * bit_reverse(h, 2 * q + b));
            assert(bit_reverse(h, q) == 2 * bit_reverse(g, q));
        } else {
            let r = (q - g) as nat;
            lemma_bit_reverse_last_digit(h, r, b);
            assert((2 * q + b - h) as nat == 2 * r + b);
            assert(bit_reverse(n, 2 * q + b) == 2 * bit_reverse(h, 2 * r + b) + 1);
            assert(bit_reverse(h, q) == 2 * bit_reverse(g, r) + 1);
        }
    } else {
        assert(q == 0);
        assert(bit_reverse(1, 0) == 0);
        assert(bit_reverse(n, b) == b);
    }
}

/// Reversing the digits twice gives the index back, so `bit_reverse(n, _)`
/// is a permutation of the indices below `n`.
pub proof fn lemma_bit_reverse_twice(n: nat, p: nat)
    requires
        is_pow2(n as int),
        p < n,
    ensures
        bit_reverse(n, bit_reverse(n, p)) == p,
    decreases n,
{
    if n >= 2 {
        lemma_half_is_pow2(n);
        let h = n / 2;
        if p < h {
            lemma_bit_reverse_twice(h, p);
            lemma_bit_reverse_bound(h, p);
            lemma_bit_reverse_last_digit(n, bit_reverse(h, p), 0);
        } else {
            let q = (p - h) as nat;
            lemma_bit_reverse_twice(h, q);
            lemma_bit_reverse_bound(h, q);
            lemma_bit_reverse_last_digit(n, bit_reverse(h, q), 1);
        }
    } else {
        reveal(is_pow2);
    }
}

} // verus!
