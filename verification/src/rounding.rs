//! Division of integers rounded to the nearest integer.

use vstd::prelude::*;

verus! {

/// The integer nearest to the quotient `num / den`. A quotient that lies
/// exactly halfway between two integers goes to the one farther from zero.
pub open spec fn round_div(num: int, den: int) -> int
    recommends
        den > 0,
{
    if num >= 0 {
        (2 * num + den) / (2 * den)
    } else {
        -((2 * (-num) + den) / (2 * den))
    }
}

/// `round_div` on machine integers.
pub fn round_div_exec(num: i128, den: i128) -> (r: i128)
    requires
        den > 0,
        2 * den <= i128::MAX,
        -i128::MAX <= 2 * num - den,
        2 * num + den <= i128::MAX,
    ensures
        r == round_div(num as int, den as int),
{
    if num >= 0 {
        (2 * num + den) / (2 * den)
    } else {
        let q: i128 = (2 * (-num) + den) / (2 * den);
        -q
    }
}

/// The floor of `a / b` for a positive `b`, between its two bounds.
proof fn lemma_floor_bounds(a: int, b: int)
    requires
        b > 0,
    ensures
        b * (a / b) <= a < b * (a / b) + b,
{
    vstd::arithmetic::div_mod::lemma_fundamental_div_mod(a, b);
    vstd::arithmetic::div_mod::lemma_mod_bound(a, b);
}

/// A quotient `q` that the two bounds of the floor enclose is the floor.
proof fn lemma_floor_unique(a: int, b: int, q: int)
    requires
        b > 0,
        b * q <= a < b * q + b,
    ensures
        a / b == q,
{
    lemma_floor_bounds(a, b);
    let f = a / b;
    assert(f == q) by (nonlinear_arith)
        requires
            b > 0,
            b * q <= a < b * q + b,
            b * f <= a < b * f + b,
    ;
}

/// The rounded quotient is no farther than one half from the exact one, and
/// where it is exactly one half away it is the farther from zero of the two
/// candidates.
pub proof fn lemma_round_div_nearest(num: int, den: int)
    requires
        den > 0,
    ensures
        -den <= 2 * (round_div(num, den) * den - num) <= den,
        num >= 0 ==> 2 * (round_div(num, den) * den - num) > -den,
        num < 0 ==> 2 * (round_div(num, den) * den - num) < den,
{
    let r = round_div(num, den);
    if num >= 0 {
        lemma_floor_bounds(2 * num + den, 2 * den);
        assert(2 * den * r == 2 * (r * den)) by (nonlinear_arith);
    } else {
        lemma_floor_bounds(2 * (-num) + den, 2 * den);
        assert(2 * den * (-r) == -(2 * (r * den))) by (nonlinear_arith);
    }
}

/// Among the integers, only the rounded quotient meets the bounds of
/// `lemma_round_div_nearest`.
pub proof fn lemma_round_div_unique(num: int, den: int, r: int)
    requires
        den > 0,
        -den <= 2 * (r * den - num) <= den,
        num >= 0 ==> 2 * (r * den - num) > -den,
        num < 0 ==> 2 * (r * den - num) < den,
    ensures
        r == round_div(num, den),
{
    if num >= 0 {
        assert(2 * den * r == 2 * (r * den)) by (nonlinear_arith);
        lemma_floor_unique(2 * num + den, 2 * den, r);
    } else {
        let b = 2 * den;
        let q = -r;
        assert(b * q == -(2 * (r * den))) by (nonlinear_arith)
            requires
                b == 2 * den,
                q == -r,
        ;
        lemma_floor_unique(2 * (-num) + den, b, q);
    }
}

/// A multiple of the divisor is divided without rounding.
pub proof fn lemma_round_div_multiple(k: int, den: int)
    requires
        den > 0,
    ensures
        round_div(k * den, den) == k,
{
    assert(k >= 0 ==> k * den >= 0) by (nonlinear_arith)
        requires
            den > 0,
    ;
    assert(k < 0 ==> k * den < 0) by (nonlinear_arith)
        requires
            den > 0,
    ;
    lemma_round_div_unique(k * den, den, k);
}

/// Rounding is symmetric about zero.
pub proof fn lemma_round_div_negate(num: int, den: int)
    requires
        den > 0,
    ensures
        round_div(-num, den) == -round_div(num, den),
{
    if num == 0 {
        lemma_floor_unique(den, 2 * den, 0);
    }
}

/// Rounding keeps the order of the dividends.
pub proof fn lemma_round_div_monotonic(a: int, b: int, den: int)
    requires
        den > 0,
        a <= b,
    ensures
        round_div(a, den) <= round_div(b, den),
{
    let ra = round_div(a, den);
    let rb = round_div(b, den);
    lemma_round_div_nearest(a, den);
    lemma_round_div_nearest(b, den);
    if ra > rb {
        assert(ra * den - rb * den >= den) by (nonlinear_arith)
            requires
                ra >= rb + 1,
                den > 0,
        ;
        assert(2 * (ra * den - a) == den && 2 * (rb * den - b) == -den);
    }
}

} // verus!
