//! Exact comparison of non-negative rationals given as numerator/denominator
//! pairs.  Mastery estimates are such pairs, and the selection strategies
//! order items by them; comparing via cross-multiplication avoids any
//! rounding.

use vstd::prelude::*;

verus! {

/// `n1/d1 <= n2/d2`, for positive denominators.
pub open spec fn rat_le(n1: int, d1: int, n2: int, d2: int) -> bool {
    n1 * d2 <= n2 * d1
}

/// `n1/d1 < n2/d2`, for positive denominators.
pub open spec fn rat_lt(n1: int, d1: int, n2: int, d2: int) -> bool {
    n1 * d2 < n2 * d1
}

/// `n1/d1 == n2/d2`, for positive denominators.
pub open spec fn rat_eq(n1: int, d1: int, n2: int, d2: int) -> bool {
    n1 * d2 == n2 * d1
}

pub proof fn lemma_rat_le_trans(n1: int, d1: int, n2: int, d2: int, n3: int, d3: int)
    requires
        d1 > 0,
        d2 > 0,
        d3 > 0,
        rat_le(n1, d1, n2, d2),
        rat_le(n2, d2, n3, d3),
    ensures
        rat_le(n1, d1, n3, d3),
{
    assert((n1 * d3) * d2 <= (n3 * d1) * d2) by (nonlinear_arith)
        requires
            n1 * d2 <= n2 * d1,
            n2 * d3 <= n3 * d2,
            d1 > 0,
            d2 > 0,
            d3 > 0,
    {}
    assert(n1 * d3 <= n3 * d1) by (nonlinear_arith)
        requires
            (n1 * d3) * d2 <= (n3 * d1) * d2,
            d2 > 0,
    {}
}

pub proof fn lemma_rat_lt_le_trans(n1: int, d1: int, n2: int, d2: int, n3: int, d3: int)
    requires
        d1 > 0,
        d2 > 0,
        d3 > 0,
        rat_lt(n1, d1, n2, d2),
        rat_le(n2, d2, n3, d3),
    ensures
        rat_lt(n1, d1, n3, d3),
{
    assert((n1 * d3) * d2 < (n3 * d1) * d2) by (nonlinear_arith)
        requires
            n1 * d2 < n2 * d1,
            n2 * d3 <= n3 * d2,
            d1 > 0,
            d2 > 0,
            d3 > 0,
    {}
    assert(n1 * d3 < n3 * d1) by (nonlinear_arith)
        requires
            (n1 * d3) * d2 < (n3 * d1) * d2,
            d2 > 0,
    {}
}

pub proof fn lemma_rat_le_lt_trans(n1: int, d1: int, n2: int, d2: int, n3: int, d3: int)
    requires
        d1 > 0,
        d2 > 0,
        d3 > 0,
        rat_le(n1, d1, n2, d2),
        rat_lt(n2, d2, n3, d3),
    ensures
        rat_lt(n1, d1, n3, d3),
{
    assert((n1 * d3) * d2 < (n3 * d1) * d2) by (nonlinear_arith)
        requires
            n1 * d2 <= n2 * d1,
            n2 * d3 < n3 * d2,
            d1 > 0,
            d2 > 0,
            d3 > 0,
    {}
    assert(n1 * d3 < n3 * d1) by (nonlinear_arith)
        requires
            (n1 * d3) * d2 < (n3 * d1) * d2,
            d2 > 0,
    {}
}

} // verus!
