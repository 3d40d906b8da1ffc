//! Facts about products of integers that the solver does not find by itself.

use vstd::prelude::*;

verus! {

/// Multiplication of non-negative numbers is monotone in both factors.
pub proof fn lemma_mul_monotone(a: int, b: int, c: int, d: int)
    by (nonlinear_arith)
    requires
        0 <= a <= b,
        0 <= c <= d,
    ensures
        a * c <= b * d,
{
}

/// A strict inequality between two multiples of `k` carries over to the
/// cofactors.
pub proof fn lemma_mul_cancel_lt(k: int, a: int, b: int)
    by (nonlinear_arith)
    requires
        0 <= k,
        k * a < k * b,
    ensures
        a < b,
{
}

/// An inequality between two multiples of a positive `k` carries over to
/// the cofactors.
pub proof fn lemma_mul_cancel_le(k: int, a: int, b: int)
    by (nonlinear_arith)
    requires
        0 < k,
        k * a <= k * b,
    ensures
        a <= b,
{
}

/// The neighbours of a multiple of `k`.
pub proof fn lemma_mul_neighbours(k: int, c: int)
    by (nonlinear_arith)
    ensures
        k * (c + 1) == k * c + k,
        k * (c - 1) == k * c - k,
{
}

/// Dividing a multiple of a positive `k` by `k` gives back the cofactor.
pub proof fn lemma_div_of_multiple(k: int, c: int)
    by (nonlinear_arith)
    requires
        0 < k,
    ensures
        (k * c) / k == c,
{
}

/// Where the square of `n` fits in 64 bits, so does the product of `n` and
/// its successor.
pub proof fn lemma_square_leaves_room(n: int)
    by (nonlinear_arith)
    requires
        0 <= n,
        n * n <= u64::MAX,
    ensures
        n * n + n <= u64::MAX,
{
    if n > 0xffff_ffff {
        assert(n * n >= 0x1_0000_0000 * 0x1_0000_0000);
    }
}

} // verus!
