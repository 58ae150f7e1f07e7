//! Narrowing the coding interval: the sub-interval a table entry
//! selects inside the current interval, and the facts both the
//! encoder and the decoder rely on — nesting, ordering, and the
//! guaranteed width of the first narrowing step.

use vstd::prelude::*;
use vstd::arithmetic::div_mod::{
    lemma_div_is_ordered, lemma_div_multiples_vanish, lemma_div_pos_is_pos,
    lemma_fundamental_div_mod, lemma_mod_division_less_than_divisor,
};
use vstd::arithmetic::mul::{
    lemma_mul_inequality, lemma_mul_inequality_converse, lemma_mul_is_commutative,
    lemma_mul_is_distributive_sub, lemma_mul_nonnegative,
};
use crate::SCALE;

verus! {

/// The lower bound of the sub-interval that a table interval with
/// lower numerator `a` (over denominator `m`) selects inside
/// `[lo, hi)`.
pub open spec fn child_lo(lo: int, hi: int, a: int, m: int) -> int {
    lo + (hi - lo) * a / m
}

/// The upper bound of that sub-interval, from the table interval's
/// upper numerator `b`.
pub open spec fn child_hi(lo: int, hi: int, b: int, m: int) -> int {
    lo + (hi - lo) * b / m
}

/// Narrowing nests: the selected sub-interval lies inside `[lo, hi)`.
pub proof fn lemma_child_bounds(lo: int, hi: int, a: int, b: int, m: int)
    requires
        0 <= lo <= hi,
        0 <= a <= b <= m,
        0 < m,
    ensures
        lo <= child_lo(lo, hi, a, m),
        child_lo(lo, hi, a, m) <= child_hi(lo, hi, b, m),
        child_hi(lo, hi, b, m) <= hi,
{
    let d = hi - lo;
    lemma_mul_nonnegative(d, a);
    lemma_div_pos_is_pos(d * a, m);
    lemma_mul_inequality(a, b, d);
    lemma_mul_is_commutative(a, d);
    lemma_mul_is_commutative(b, d);
    lemma_div_is_ordered(d * a, d * b, m);
    lemma_mul_inequality(b, m, d);
    lemma_mul_is_commutative(m, d);
    lemma_div_is_ordered(d * b, d * m, m);
    lemma_div_multiples_vanish(d, m);
}

/// Narrowing keeps order: a table interval that ends where another
/// begins selects sub-intervals that do not overlap.
pub proof fn lemma_child_ordered(lo: int, hi: int, b1: int, a2: int, m: int)
    requires
        0 <= lo <= hi,
        0 <= b1 <= a2,
        0 < m,
    ensures
        child_hi(lo, hi, b1, m) <= child_lo(lo, hi, a2, m),
{
    let d = hi - lo;
    lemma_mul_inequality(b1, a2, d);
    lemma_mul_is_commutative(b1, d);
    lemma_mul_is_commutative(a2, d);
    lemma_div_is_ordered(d * b1, d * a2, m);
}

/// A lower bound on how far apart two quotients must land: numerators
/// at least `3 m - 1` apart give quotients at least `2` apart.
pub proof fn lemma_div_gap(x: int, y: int, m: int)
    requires
        0 < m,
        0 <= x,
        x + 3 * m - 1 <= y,
    ensures
        x / m + 2 <= y / m,
{
    let qx = x / m;
    let qy = y / m;
    lemma_fundamental_div_mod(x, m);
    lemma_fundamental_div_mod(y, m);
    lemma_mod_division_less_than_divisor(x, m);
    lemma_mod_division_less_than_divisor(y, m);
    assert(m * qy - m * qx >= 2 * m);
    lemma_mul_is_distributive_sub(m, qy, qx);
    assert(m * (qy - qx) >= 2 * m);
    lemma_mul_is_commutative(m, qy - qx);
    lemma_mul_is_commutative(m, 2);
    lemma_mul_inequality_converse(2, qy - qx, m);
}

/// Compute the sub-interval that entry bounds `a..b` select inside
/// `[lo, hi)`, in machine words.  The caller's interval lies within
/// the fixed-point unit interval and the entry bounds lie within the
/// denominator, so nothing overflows and the result nests.
pub fn child(lo: u64, hi: u64, a: u128, b: u128, m: u128) -> (r: (u64, u64))
    requires
        lo <= hi,
        hi <= SCALE,
        a <= b,
        b <= m,
        0 < m,
        m as int <= (0xffff_ffff_ffff_ffffu64 as int) * (SCALE as int),
    ensures
        r.0 as int == child_lo(lo as int, hi as int, a as int, m as int),
        r.1 as int == child_hi(lo as int, hi as int, b as int, m as int),
        lo <= r.0,
        r.0 <= r.1,
        r.1 <= hi,
{
    let delta = (hi - lo) as u128;
    proof {
        assert((delta as int) * (b as int) <= u128::MAX as int) by (nonlinear_arith)
            requires
                0 <= delta as int <= SCALE as int,
                0 <= b as int <= m as int,
                m as int <= (0xffff_ffff_ffff_ffffu64 as int) * (SCALE as int),
        ;
        assert((delta as int) * (a as int) <= (delta as int) * (b as int)) by (nonlinear_arith)
            requires
                0 <= delta as int,
                0 <= a as int <= b as int,
        ;
        lemma_child_bounds(lo as int, hi as int, a as int, b as int, m as int);
    }
    let qlo = delta * a / m;
    let qhi = delta * b / m;
    (lo + (qlo as u64), lo + (qhi as u64))
}

} // verus!
