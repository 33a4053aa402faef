//! Rounding addresses to multiples of a granule.

use vstd::prelude::*;
use vstd::arithmetic::div_mod::{
    lemma_fundamental_div_mod, lemma_fundamental_div_mod_converse, lemma_mod_bound,
    lemma_mod_multiples_basic,
};
use vstd::arithmetic::mul::lemma_mul_is_commutative;

verus! {

/// `x` rounded down to a multiple of `a`.
pub open spec fn align_down(x: int, a: int) -> int {
    x - x % a
}

/// `x` rounded up to a multiple of `a`.
pub open spec fn align_up(x: int, a: int) -> int {
    if x % a == 0 {
        x
    } else {
        x - x % a + a
    }
}

/// Rounding down gives a multiple of `a` less than `a` below `x`.
pub proof fn lemma_align_down(x: int, a: int)
    requires
        0 <= x,
        0 < a,
    ensures
        0 <= align_down(x, a) <= x,
        x - align_down(x, a) < a,
        align_down(x, a) % a == 0,
{
    lemma_mod_bound(x, a);
    lemma_fundamental_div_mod(x, a);
    lemma_mul_is_commutative(a, x / a);
    lemma_mod_multiples_basic(x / a, a);
}

/// A multiple of `a` that is at most `x` is at most `x` rounded down.
pub proof fn lemma_multiple_below(x: int, y: int, a: int)
    requires
        0 < a,
        y % a == 0,
        y <= x,
    ensures
        y <= align_down(x, a),
{
    lemma_fundamental_div_mod(x, a);
    lemma_fundamental_div_mod(y, a);
    lemma_mod_bound(x, a);
    let qx = x / a;
    let qy = y / a;
    assert(y == a * qy);
    assert(x == a * qx + x % a);
    if qy > qx {
        assert(a * qy >= a * (qx + 1)) by (nonlinear_arith)
            requires
                qy >= qx + 1,
                a > 0,
        ;
        assert(a * (qx + 1) == a * qx + a) by (nonlinear_arith);
    } else {
        assert(a * qy <= a * qx) by (nonlinear_arith)
            requires
                qy <= qx,
                a > 0,
        ;
    }
}

/// Rounding up gives a multiple of `a` less than `a` above `x`.
pub proof fn lemma_align_up(x: int, a: int)
    requires
        0 <= x,
        0 < a,
    ensures
        x <= align_up(x, a) < x + a,
        align_up(x, a) % a == 0,
{
    lemma_mod_bound(x, a);
    if x % a != 0 {
        lemma_fundamental_div_mod(x, a);
        assert(x - x % a + a == (x / a + 1) * a) by (nonlinear_arith)
            requires
                x == a * (x / a) + x % a,
        ;
        lemma_mod_multiples_basic(x / a + 1, a);
    }
}

/// A multiple of `a` that is at least `x` is at least `x` rounded up.
pub proof fn lemma_multiple_above(x: int, y: int, a: int)
    requires
        0 <= x,
        0 < a,
        y % a == 0,
        x <= y,
    ensures
        align_up(x, a) <= y,
{
    lemma_mod_bound(x, a);
    if x % a != 0 {
        lemma_fundamental_div_mod(x, a);
        lemma_fundamental_div_mod(y, a);
        let qx = x / a;
        let qy = y / a;
        if qy <= qx {
            assert(a * qy <= a * qx) by (nonlinear_arith)
                requires
                    qy <= qx,
                    a > 0,
            ;
        } else {
            assert(a * qy >= a * (qx + 1)) by (nonlinear_arith)
                requires
                    qy >= qx + 1,
                    a > 0,
            ;
            assert(a * (qx + 1) == a * qx + a) by (nonlinear_arith);
        }
    }
}

/// A multiple of a whole number of pages is page aligned.
pub proof fn lemma_aligned_pages(y: int, a: int)
    requires
        0 < a,
        a % 4096 == 0,
        y % a == 0,
    ensures
        y % 4096 == 0,
{
    lemma_fundamental_div_mod(y, a);
    lemma_fundamental_div_mod(a, 4096);
    let q = y / a;
    let p = a / 4096;
    assert(y == (q * p) * 4096) by (nonlinear_arith)
        requires
            y == a * q,
            a == 4096 * p,
    ;
    lemma_mod_multiples_basic(q * p, 4096);
}

/// Addresses between a multiple of `a` and the next one round down to that
/// multiple.
pub proof fn lemma_same_block(x: int, y: int, a: int)
    requires
        0 < a,
        align_down(x, a) <= y < align_down(x, a) + a,
    ensures
        y / a == x / a,
        align_down(y, a) == align_down(x, a),
        y % a == y - align_down(x, a),
{
    lemma_fundamental_div_mod(x, a);
    lemma_mod_bound(x, a);
    lemma_fundamental_div_mod_converse(y, a, x / a, y - align_down(x, a));
}

/// Addresses with one quotient by `a` round down to one multiple of `a`.
pub proof fn lemma_block_of(x: int, y: int, a: int)
    requires
        0 < a,
        y / a == x / a,
    ensures
        align_down(x, a) <= y < align_down(x, a) + a,
{
    lemma_fundamental_div_mod(x, a);
    lemma_fundamental_div_mod(y, a);
    lemma_mod_bound(x, a);
    lemma_mod_bound(y, a);
}

} // verus!
