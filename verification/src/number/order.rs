//! Rounding keeps the order, is exact where it can be, and never errs by more than
//! half a step.
use crate::number::pack::lemma_pow2_le;
use crate::number::rounding::{
    fits_at, lemma_fitting_exponent, lemma_nearest_at, lemma_pow2_24, lemma_round_even_scale,
    nearest, round_even, EXPONENT_STEP, INFINITY_BITS, SIGNIFICAND_END,
};
use crate::number::single::{units, Single};
use vstd::arithmetic::power2::{lemma_pow2_adds, lemma_pow2_pos, lemma_pow2_unfold, pow2};
use vstd::prelude::*;

verus! {

/// Units of a bit pattern by significand and exponent.
pub proof fn lemma_units_at(m: nat, e: nat)
    requires
        m <= SIGNIFICAND_END,
        e > 0 ==> m >= EXPONENT_STEP,
        m + e * (EXPONENT_STEP as nat) < INFINITY_BITS,
    ensures
        units((m + e * EXPONENT_STEP as nat) as u32) == m * pow2(e),
{
    reveal(units);
    lemma_pow2_24();
    let b = m + e * EXPONENT_STEP as nat;
    if m < EXPONENT_STEP {
        assert(m * 1 == m);
    } else if m < SIGNIFICAND_END {
        let f = (m - EXPONENT_STEP) as nat;
        vstd::arithmetic::div_mod::lemma_fundamental_div_mod_converse(
            b as int,
            EXPONENT_STEP as int,
            (e + 1) as int,
            f as int,
        );
    } else {
        vstd::arithmetic::div_mod::lemma_fundamental_div_mod_converse(
            b as int,
            EXPONENT_STEP as int,
            (e + 2) as int,
            0,
        );
        lemma_pow2_unfold((e + 1) as nat);
        let p = pow2(e);
        assert(0x80_0000 * (2 * p) == 0x100_0000 * p);
    }
}

/// Zero is no units.
pub proof fn lemma_zero_units()
    ensures
        units(0) == 0,
{
    reveal(units);
}

/// A larger bit pattern is a larger number.
pub proof fn lemma_units_increase(a: u32, b: u32)
    requires
        a < b < INFINITY_BITS,
    ensures
        units(a) < units(b),
{
    reveal(units);
    lemma_pow2_24();
    let step = EXPONENT_STEP as nat;
    let ea = a as nat / step;
    let eb = b as nat / step;
    let fa = a as nat % step;
    let fb = b as nat % step;
    vstd::arithmetic::div_mod::lemma_fundamental_div_mod(a as int, step as int);
    vstd::arithmetic::div_mod::lemma_fundamental_div_mod(b as int, step as int);
    if b < EXPONENT_STEP {
    } else if a < EXPONENT_STEP {
        lemma_pow2_pos((eb - 1) as nat);
        let p = pow2((eb - 1) as nat);
        assert((fb + step) * p >= step) by (nonlinear_arith)
            requires
                p >= 1,
        ;
    } else {
        let pa = pow2((ea - 1) as nat);
        let pb = pow2((eb - 1) as nat);
        lemma_pow2_pos((ea - 1) as nat);
        if ea == eb {
            assert((fa + step) * pa < (fb + step) * pa) by (nonlinear_arith)
                requires
                    fa < fb,
                    pa > 0,
            ;
        } else {
            lemma_pow2_le(ea, (eb - 1) as nat);
            lemma_pow2_unfold(ea);
            assert((fa + step) * pa < (fb + step) * pb) by (nonlinear_arith)
                requires
                    fa < step,
                    pb >= 2 * pa,
                    pa > 0,
            ;
        }
    }
}

/// The order of bit patterns is that of the numbers.
pub proof fn lemma_units_order(a: u32, b: u32)
    requires
        a < INFINITY_BITS,
        b < INFINITY_BITS,
    ensures
        (a < b) == (units(a) < units(b)),
        (a == b) == (units(a) == units(b)),
{
    if a < b {
        lemma_units_increase(a, b);
    } else if b < a {
        lemma_units_increase(b, a);
    }
}

/// Finite numbers compare as their values do.
pub proof fn law_order_is_that_of_values(a: Single, b: Single)
    requires
        a.is_finite(),
        b.is_finite(),
    ensures
        (a.rank() < b.rank()) == (a.value() < b.value()),
        (a.rank() <= b.rank()) == (a.value() <= b.value()),
{
    lemma_units_order(a.magnitude(), b.magnitude());
    lemma_units_order(0, a.magnitude());
    lemma_units_order(0, b.magnitude());
    lemma_zero_units();
}

/// Rounding to integers keeps the order.
proof fn lemma_round_even_monotone(n: nat, m: nat, d: nat)
    requires
        d > 0,
        n <= m,
    ensures
        round_even(n, d) <= round_even(m, d),
{
    let q1 = n / d;
    let q2 = m / d;
    vstd::arithmetic::div_mod::lemma_fundamental_div_mod(n as int, d as int);
    vstd::arithmetic::div_mod::lemma_fundamental_div_mod(m as int, d as int);
    vstd::arithmetic::div_mod::lemma_div_is_ordered(n as int, m as int, d as int);
}

/// The rounded integer is at most half a step away.
proof fn lemma_round_even_error(n: nat, d: nat)
    requires
        d > 0,
    ensures
        2 * n <= 2 * (round_even(n, d) * d) + d,
        2 * (round_even(n, d) * d) <= 2 * n + d,
        n % d == 0 ==> round_even(n, d) * d == n,
{
    let q = n / d;
    let r = n % d;
    vstd::arithmetic::div_mod::lemma_fundamental_div_mod(n as int, d as int);
    assert(q * d == d * q && (q + 1) * d == d * q + d) by (nonlinear_arith);
}

/// Bounds of the rounded significand at the exponent that fits.
proof fn lemma_significand_range(n: nat, d: nat, e: nat)
    requires
        d > 0,
        fits_at(n, d, e),
    ensures
        d * pow2(e) > 0,
        round_even(n, d * pow2(e)) <= SIGNIFICAND_END,
        e > 0 ==> round_even(n, d * pow2(e)) >= EXPONENT_STEP,
{
    lemma_pow2_24();
    lemma_pow2_pos(e);
    lemma_pow2_adds(24, e);
    lemma_pow2_adds(23, e);
    let p = pow2(e);
    let w = d * p;
    assert(w > 0) by (nonlinear_arith)
        requires
            d > 0,
            p > 0,
            w == d * p,
    ;
    let q = n / w;
    let r = n % w;
    vstd::arithmetic::div_mod::lemma_fundamental_div_mod(n as int, w as int);
    assert(q < SIGNIFICAND_END) by (nonlinear_arith)
        requires
            w * q <= n,
            n < d * (SIGNIFICAND_END as nat * p),
            w == d * p,
            w > 0,
    ;
    if e > 0 {
        assert(q >= EXPONENT_STEP) by (nonlinear_arith)
            requires
                n == w * q + r,
                r < w,
                d * (EXPONENT_STEP as nat * p) <= n,
                w == d * p,
                w > 0,
        ;
    }
}

/// A larger quotient does not round to a smaller number.
pub proof fn lemma_nearest_monotone(n1: nat, d1: nat, n2: nat, d2: nat)
    requires
        d1 > 0,
        d2 > 0,
        n1 * d2 <= n2 * d1,
    ensures
        nearest(n1, d1) <= nearest(n2, d2),
{
    let e1 = lemma_fitting_exponent(n1, d1);
    let e2 = lemma_fitting_exponent(n2, d2);
    lemma_nearest_at(n1, d1, e1);
    lemma_nearest_at(n2, d2, e2);
    lemma_significand_range(n1, d1, e1);
    lemma_significand_range(n2, d2, e2);
    if e1 > e2 {
        let lo = pow2((23 + e1) as nat);
        let hi = pow2(24 + e2);
        lemma_pow2_le(24 + e2, (23 + e1) as nat);
        assert(false) by (nonlinear_arith)
            requires
                d1 * lo <= n1,
                n2 < d2 * hi,
                hi <= lo,
                n1 * d2 <= n2 * d1,
                d1 > 0,
                d2 > 0,
        {
            assert((d1 * lo) * d2 <= n1 * d2);
            assert(n2 * d1 < (d2 * hi) * d1);
            assert((d2 * hi) * d1 <= (d1 * lo) * d2);
        }
    } else if e1 == e2 {
        let p = pow2(e1);
        lemma_pow2_pos(e1);
        let w1 = d1 * p;
        let w2 = d2 * p;
        lemma_round_even_scale(n1, w1, d2);
        lemma_round_even_scale(n2, w2, d1);
        assert(w1 * d2 == w2 * d1) by (nonlinear_arith)
            requires
                w1 == d1 * p,
                w2 == d2 * p,
        ;
        assert(w1 * d2 > 0) by (nonlinear_arith)
            requires
                w1 > 0,
                d2 > 0,
        ;
        lemma_round_even_monotone(n1 * d2, n2 * d1, w1 * d2);
    } else {
        let step = EXPONENT_STEP as nat;
        assert(e1 * step + step <= e2 * step) by (nonlinear_arith)
            requires
                e1 + 1 <= e2,
        ;
    }
}

/// The rounded significand, where the result is finite: the number has that many
/// steps of 2^e units, and is at most half a step away.
pub proof fn lemma_rounded(n: nat, d: nat, e: nat) -> (m: nat)
    requires
        d > 0,
        fits_at(n, d, e),
        nearest(n, d) < INFINITY_BITS,
    ensures
        units(nearest(n, d)) == m * pow2(e),
        2 * n <= 2 * (m * (d * pow2(e))) + d * pow2(e),
        2 * (m * (d * pow2(e))) <= 2 * n + d * pow2(e),
{
    lemma_nearest_at(n, d, e);
    lemma_significand_range(n, d, e);
    let w = d * pow2(e);
    let m = round_even(n, w);
    lemma_round_even_error(n, w);
    lemma_units_at(m, e);
    m
}

/// A magnitude below 2^(24 + j) units is rounded by at most half of 2^j units.
pub proof fn lemma_nearest_error(n: nat, d: nat, j: nat)
    requires
        d > 0,
        n < d * pow2(24 + j),
        j <= 200,
    ensures
        nearest(n, d) < INFINITY_BITS,
        2 * n <= 2 * (units(nearest(n, d)) * d) + d * pow2(j),
        2 * (units(nearest(n, d)) * d) <= 2 * n + d * pow2(j),
{
    let e = lemma_fitting_exponent(n, d);
    lemma_nearest_at(n, d, e);
    lemma_significand_range(n, d, e);
    if e > j {
        lemma_pow2_le(24 + j, (23 + e) as nat);
        assert(false) by (nonlinear_arith)
            requires
                d * pow2((23 + e) as nat) <= n,
                n < d * pow2(24 + j),
                pow2(24 + j) <= pow2((23 + e) as nat),
                d > 0,
        ;
    }
    lemma_pow2_le(e, j);
    let p = pow2(e);
    let w = d * p;
    let m = round_even(n, w);
    lemma_round_even_error(n, w);
    let step = EXPONENT_STEP as nat;
    assert(e * step <= 200 * step) by (nonlinear_arith)
        requires
            e <= 200,
    ;
    lemma_units_at(m, e);
    assert((m * p) * d == m * w) by (nonlinear_arith)
        requires
            w == d * p,
    ;
    assert(w <= d * pow2(j)) by (nonlinear_arith)
        requires
            w == d * p,
            p <= pow2(j),
    ;
}

/// A finite result is off by at most one part in 2^24, or by half a unit where the
/// result is that small.
pub proof fn lemma_relative_error(n: nat, d: nat)
    requires
        d > 0,
        nearest(n, d) < INFINITY_BITS,
    ensures
        0x100_0000 * (units(nearest(n, d)) * d) <= 0x100_0001 * n + 0x80_0000 * d,
        0xff_ffff * n <= 0x100_0000 * (units(nearest(n, d)) * d) + 0x80_0000 * d,
{
    let e = lemma_fitting_exponent(n, d);
    let p = pow2(e);
    let m = lemma_rounded(n, d, e);
    let w = d * p;
    lemma_pow2_24();
    lemma_pow2_adds(23, e);
    assert((m * p) * d == m * w) by (nonlinear_arith)
        requires
            w == d * p,
    ;
    if e > 0 {
        assert(0x80_0000 * w <= n) by (nonlinear_arith)
            requires
                d * (0x80_0000 * p) <= n,
                w == d * p,
        ;
    } else {
        assert(w == d) by (nonlinear_arith)
            requires
                w == d * p,
                p == 1,
        ;
    }
}

/// A finite number is its own nearest number.
pub proof fn lemma_nearest_exact(mag: u32)
    requires
        mag < INFINITY_BITS,
    ensures
        nearest(units(mag), 1) == mag,
{
    reveal(units);
    lemma_pow2_24();
    let step = EXPONENT_STEP as nat;
    let n = units(mag);
    let (m, e) = if mag < EXPONENT_STEP {
        (mag as nat, 0nat)
    } else {
        ((mag as nat % step + step) as nat, (mag as nat / step - 1) as nat)
    };
    let p = pow2(e);
    lemma_pow2_pos(e);
    lemma_pow2_adds(24, e);
    lemma_pow2_adds(23, e);
    assert(n == m * p) by {
        assert(m * 1 == m);
    }
    assert(n < 1 * pow2(24 + e)) by (nonlinear_arith)
        requires
            n == m * p,
            m < SIGNIFICAND_END,
            SIGNIFICAND_END as nat * p == pow2(24 + e),
            p > 0,
    ;
    if e > 0 {
        assert(1 * pow2((23 + e) as nat) <= n) by (nonlinear_arith)
            requires
                n == m * p,
                m >= EXPONENT_STEP,
                EXPONENT_STEP as nat * p == pow2((23 + e) as nat),
        ;
    }
    lemma_nearest_at(n, 1, e);
    assert(1 * p == p);
    lemma_round_even_scale(m, 1, p);
    assert(round_even(m, 1) == m);
    vstd::arithmetic::div_mod::lemma_fundamental_div_mod(mag as int, step as int);
}

} // verus!
