//! The defining property of the integer square root, with the facts about it
//! that the digit-by-digit construction and its callers rely on.

use vstd::arithmetic::div_mod::lemma_div_denominator;
use vstd::arithmetic::power2::{lemma2_to64, lemma_pow2_adds, lemma_pow2_pos, pow2};
use vstd::prelude::*;

verus! {

/// `root` is the integer square root of `n`: the largest integer whose square
/// does not exceed `n`.
pub open spec fn is_floor_sqrt(n: int, root: int) -> bool {
    &&& 0 <= root
    &&& root * root <= n
    &&& n < (root + 1) * (root + 1)
}

/// A number has at most one integer square root.
pub proof fn lemma_floor_sqrt_unique(n: int, r1: int, r2: int)
    requires
        is_floor_sqrt(n, r1),
        is_floor_sqrt(n, r2),
    ensures
        r1 == r2,
{
    assert(r1 == r2) by (nonlinear_arith)
        requires
            0 <= r1,
            r1 * r1 <= n,
            n < (r1 + 1) * (r1 + 1),
            0 <= r2,
            r2 * r2 <= n,
            n < (r2 + 1) * (r2 + 1),
    ;
}

/// The integer square root is monotonic: a larger number never has a smaller
/// root.
pub proof fn lemma_floor_sqrt_monotonic(a: int, b: int, root_a: int, root_b: int)
    requires
        a <= b,
        is_floor_sqrt(a, root_a),
        is_floor_sqrt(b, root_b),
    ensures
        root_a <= root_b,
{
    assert(root_a <= root_b) by (nonlinear_arith)
        requires
            a <= b,
            0 <= root_a,
            root_a * root_a <= a,
            a < (root_a + 1) * (root_a + 1),
            0 <= root_b,
            root_b * root_b <= b,
            b < (root_b + 1) * (root_b + 1),
    ;
}

/// One step of the digit-by-digit construction: doubling the root of the
/// quarter `q` of `x` brackets the root of `x` between the doubled value and
/// the odd candidate right above it.
pub(crate) proof fn lemma_digit_step(x: int, q: int, r0: int)
    requires
        0 <= x,
        4 * q <= x,
        x < 4 * q + 4,
        is_floor_sqrt(q, r0),
    ensures
        (2 * r0) * (2 * r0) <= x,
        x < (2 * r0 + 2) * (2 * r0 + 2),
{
    assert((2 * r0) * (2 * r0) <= x && x < (2 * r0 + 2) * (2 * r0 + 2)) by (nonlinear_arith)
        requires
            0 <= x,
            4 * q <= x,
            x < 4 * q + 4,
            0 <= r0,
            r0 * r0 <= q,
            q < (r0 + 1) * (r0 + 1),
    ;
}

/// A root whose square stays within a quarter of the range leaves room to
/// double it and add one.
pub(crate) proof fn lemma_candidate_fits(r: int, q: int, m: int)
    requires
        0 <= r,
        r * r <= q,
        4 * q + 3 <= m,
    ensures
        2 * r + 1 <= m,
{
    assert(2 * r + 1 <= m) by (nonlinear_arith)
        requires
            0 <= r,
            r * r <= q,
            4 * q + 3 <= m,
    ;
}

/// An integer square root never exceeds its argument.
pub(crate) proof fn lemma_root_le(r: int, n: int)
    requires
        0 <= n,
        0 <= r,
        r * r <= n,
    ensures
        r <= n,
{
    assert(r <= n) by (nonlinear_arith)
        requires
            0 <= n,
            0 <= r,
            r * r <= n,
    ;
}

/// Dividing by `pow2(s)` and then by four is dividing by `pow2(s + 2)`.
pub(crate) proof fn lemma_div_pow2_step(n: int, s: nat)
    requires
        0 <= n,
    ensures
        0 < pow2(s),
        pow2(s + 2) == 4 * pow2(s),
        (n / (pow2(s) as int)) / 4 == n / (pow2(s + 2) as int),
{
    lemma_pow2_pos(s);
    lemma_pow2_adds(s, 2);
    lemma2_to64();
    lemma_div_denominator(n, pow2(s) as int, 4);
}

} // verus!
