//! What holds of the arithmetic as a whole.
use crate::number::order::{
    lemma_nearest_error, lemma_nearest_exact, lemma_nearest_monotone, lemma_rounded,
    lemma_units_at, lemma_units_order, lemma_zero_units,
};
use crate::number::pack::lemma_pow2_le;
use crate::number::constants::{MINUS_ONE, ONE};
use crate::number::rounding::{
    lemma_fitting_exponent, lemma_nearest_at, lemma_nearest_scale, lemma_nearest_zero,
    lemma_pow2_24, nearest, round_even, EXPONENT_STEP, INFINITY_BITS, SIGNIFICAND_END,
};
use crate::number::single::{
    absolute, at_most, difference, nearest_signed, negated, num, product, quotient, signed, sum,
    units, Single, UNIT_SHIFT,
};
use vstd::arithmetic::power2::{lemma_pow2_adds, lemma_pow2_pos, pow2};
use vstd::prelude::*;

verus! {

/// How far apart two integers are.
pub open spec fn apart(a: int, b: int) -> int {
    if a < b {
        b - a
    } else {
        a - b
    }
}

/// A multiple of the step is no nearer than the rounded one.
proof fn lemma_no_multiple_nearer(n: int, w: int, m: int, k: int)
    requires
        w > 0,
        2 * apart(m * w, n) <= w,
    ensures
        apart(m * w, n) <= apart(k * w, n),
{
    if k < m {
        assert(k * w <= m * w - w) by (nonlinear_arith)
            requires
                k + 1 <= m,
                w > 0,
        ;
    } else if k > m {
        assert(k * w >= m * w + w) by (nonlinear_arith)
            requires
                m + 1 <= k,
                w > 0,
        ;
    }
}

/// A finite number at or above the exponent `e` is a multiple of 2^e; one below it
/// is smaller than every significand at `e`.
pub proof fn lemma_multiple_or_below(c: u32, e: nat) -> (k: nat)
    requires
        c < INFINITY_BITS,
    ensures
        units(c) == k * pow2(e) || (e > 0 && units(c) < EXPONENT_STEP as nat * pow2(e)),
{
    reveal(units);
    lemma_pow2_24();
    let step = EXPONENT_STEP as nat;
    let p = pow2(e);
    lemma_pow2_pos(e);
    if c < EXPONENT_STEP {
        if e > 0 {
            assert(c < step * p) by (nonlinear_arith)
                requires
                    c < step,
                    p >= 1,
            ;
        }
        assert(c * 1 == c);
        c as nat
    } else {
        let m = (c as nat % step + step) as nat;
        let g = (c as nat / step - 1) as nat;
        if g >= e {
            lemma_pow2_adds((g - e) as nat, e);
            let k = m * pow2((g - e) as nat);
            assert(m * (pow2((g - e) as nat) * p) == k * p) by (nonlinear_arith)
                requires
                    k == m * pow2((g - e) as nat),
            ;
            k
        } else {
            lemma_pow2_le(g + 1, e);
            vstd::arithmetic::power2::lemma_pow2_unfold((g + 1) as nat);
            let q = pow2(g);
            assert(m * q < step * p) by (nonlinear_arith)
                requires
                    m < 2 * step,
                    2 * q <= p,
                    q > 0,
            ;
            0
        }
    }
}

/// No finite number is nearer to the exact quotient `n / d` than the rounded one.
pub proof fn law_rounded_is_nearest(n: nat, d: nat, c: u32)
    requires
        d > 0,
        nearest(n, d) < INFINITY_BITS,
        c < INFINITY_BITS,
    ensures
        apart((units(nearest(n, d)) * d) as int, n as int) <= apart(
            (units(c) * d) as int,
            n as int,
        ),
{
    let e = lemma_fitting_exponent(n, d);
    let p = pow2(e);
    lemma_pow2_pos(e);
    let m = lemma_rounded(n, d, e);
    let w = d * p;
    assert(w > 0) by (nonlinear_arith)
        requires
            d > 0,
            p > 0,
            w == d * p,
    ;
    assert((m * p) * d == m * w) by (nonlinear_arith)
        requires
            w == d * p,
    ;
    let k = lemma_multiple_or_below(c, e);
    if units(c) == k * p {
        assert((k * p) * d == k * w) by (nonlinear_arith)
            requires
                w == d * p,
        ;
        lemma_no_multiple_nearer(n as int, w as int, m as int, k as int);
    } else {
        let step = EXPONENT_STEP as nat;
        lemma_pow2_24();
        lemma_pow2_adds(23, e);
        lemma_no_multiple_nearer(n as int, w as int, m as int, step as int);
        assert(step * w <= n) by (nonlinear_arith)
            requires
                d * (step * p) <= n,
                w == d * p,
        ;
        assert(units(c) * d < step * w) by (nonlinear_arith)
            requires
                units(c) < step * p,
                w == d * p,
                d > 0,
        ;
    }
}

/// The order of the terms of a sum does not matter.
pub proof fn law_sum_commutes(a: Single, b: Single)
    ensures
        sum(a, b) == sum(b, a),
{
    reveal(sum);
}

/// The order of the factors of a product does not matter.
pub proof fn law_product_commutes(a: Single, b: Single)
    ensures
        product(a, b) == product(b, a),
{
    reveal(product);
    assert(a.size() * b.size() == b.size() * a.size()) by (nonlinear_arith);
}

/// A number less itself is zero.
pub proof fn law_self_difference(a: Single)
    requires
        a.is_finite(),
    ensures
        difference(a, a) == signed(false, 0),
{
    reveal(sum);
}

/// Parts of a number put together from a sign and a magnitude.
proof fn lemma_signed(negative: bool, mag: u32)
    requires
        mag < 0x8000_0000,
    ensures
        signed(negative, mag).negative() == negative,
        signed(negative, mag).magnitude() == mag,
        absolute(signed(negative, mag)) == signed(false, mag),
{
}

/// Two numbers are as far from each other as the other way round.
pub proof fn law_difference_symmetric(a: Single, b: Single)
    ensures
        absolute(difference(a, b)) == absolute(difference(b, a)),
{
    let na = negated(a);
    let nb = negated(b);
    lemma_signed(!a.negative(), a.magnitude());
    lemma_signed(!b.negative(), b.magnitude());
    if a.is_finite() && b.is_finite() {
        let v = a.value() - b.value();
        assert(a.value() + nb.value() == v && b.value() + na.value() == -v);
        assert(difference(a, b) == if v == 0 {
            signed(a.negative() && nb.negative(), 0)
        } else {
            nearest_signed(v)
        }) by {
            reveal(sum);
        }
        assert(difference(b, a) == if v == 0 {
            signed(b.negative() && na.negative(), 0)
        } else {
            nearest_signed(-v)
        }) by {
            reveal(sum);
        }
        let mag = nearest(apart(v, 0) as nat, 1);
        lemma_signed(true, mag);
        lemma_signed(false, mag);
        lemma_signed(true, 0);
        lemma_signed(false, 0);
    } else {
        reveal(sum);
    }
}

/// What is rounded lies where it did, as far as finite numbers can tell.
proof fn lemma_nearest_signed_rank(v: int, w: int)
    requires
        v <= w,
        v != 0,
        w != 0,
    ensures
        nearest_signed(v).rank() <= nearest_signed(w).rank(),
        !nearest_signed(v).is_nan(),
        !nearest_signed(w).is_nan(),
{
    if 0 < v {
        lemma_nearest_monotone(v as nat, 1, w as nat, 1);
    } else if w < 0 {
        lemma_nearest_monotone((-w) as nat, 1, (-v) as nat, 1);
    }
}

/// A larger exact sum does not round to a smaller number.
pub proof fn law_sum_monotone(a: Single, b: Single, c: Single, d: Single)
    requires
        a.is_finite(),
        b.is_finite(),
        c.is_finite(),
        d.is_finite(),
        a.value() + b.value() <= c.value() + d.value(),
    ensures
        at_most(sum(a, b), sum(c, d)),
{
    reveal(sum);
    let v = a.value() + b.value();
    let w = c.value() + d.value();
    if v != 0 && w != 0 {
        lemma_nearest_signed_rank(v, w);
    } else if v != 0 {
        lemma_nearest_signed_rank(v, v);
    } else if w != 0 {
        lemma_nearest_signed_rank(w, w);
    }
}

/// A sum below 2^(24 + j) units is rounded by at most half of 2^j units.
pub proof fn law_sum_error(a: Single, b: Single, j: nat)
    requires
        a.is_finite(),
        b.is_finite(),
        apart(a.value() + b.value(), 0) < pow2(24 + j),
        j <= 200,
    ensures
        sum(a, b).is_finite(),
        2 * apart(sum(a, b).value(), a.value() + b.value()) <= pow2(j),
{
    reveal(sum);
    let v = a.value() + b.value();
    if v == 0 {
        lemma_zero_units();
        lemma_pow2_pos(j);
    } else {
        let n = apart(v, 0) as nat;
        assert(1 * pow2(24 + j) == pow2(24 + j) && 1 * pow2(j) == pow2(j));
        lemma_nearest_error(n, 1, j);
        assert(units(nearest(n, 1)) * 1 == units(nearest(n, 1)));
    }
}

/// Adding zero leaves the value as it is.
pub proof fn law_zero_adds_nothing(a: Single, z: Single)
    requires
        a.is_finite(),
        z.is_zero(),
    ensures
        sum(a, z).is_finite(),
        sum(a, z).value() == a.value(),
        !a.is_zero() ==> sum(a, z) == a,
{
    reveal(sum);
    lemma_zero_units();
    lemma_nearest_exact(a.magnitude());
    lemma_units_order(0, a.magnitude());
}

/// A whole number of steps of 2^g units, no more of them than a significand holds, is
/// rounded to itself.
pub proof fn law_short_numbers_are_exact(k: nat, g: nat)
    requires
        k <= SIGNIFICAND_END,
        g <= 190,
    ensures
        nearest(k * pow2(g), 1) < INFINITY_BITS,
        units(nearest(k * pow2(g), 1)) == k * pow2(g),
{
    let n = k * pow2(g);
    lemma_pow2_24();
    lemma_pow2_pos(g);
    lemma_pow2_adds(24, g);
    assert(n <= pow2(24 + g)) by (nonlinear_arith)
        requires
            n == k * pow2(g),
            k <= SIGNIFICAND_END,
            SIGNIFICAND_END as nat * pow2(g) == pow2(24 + g),
    ;
    lemma_pow2_pos(24 + g);
    vstd::arithmetic::power2::lemma_pow2_unfold((25 + g) as nat);
    assert(1 * pow2((25 + g) as nat) == pow2((25 + g) as nat));
    lemma_nearest_error(n, 1, (g + 1) as nat);
    // the exact number is among those that the rounded one is at least as near as
    let c = lemma_short_number(k, g);
    law_rounded_is_nearest(n, 1, c);
    assert(units(c) * 1 == units(c));
    assert(units(nearest(n, 1)) * 1 == units(nearest(n, 1)));
}

/// The bit pattern of such a number.
proof fn lemma_short_number(k: nat, g: nat) -> (c: u32)
    requires
        k <= SIGNIFICAND_END,
        g <= 200,
    ensures
        c < INFINITY_BITS,
        units(c) == k * pow2(g),
    decreases g,
{
    let step = EXPONENT_STEP as nat;
    if g == 0 || k >= EXPONENT_STEP {
        assert(g * step <= 200 * step) by (nonlinear_arith)
            requires
                g <= 200,
        ;
        lemma_units_at(k, g);
        (k + g * step) as u32
    } else {
        vstd::arithmetic::power2::lemma_pow2_unfold(g);
        let p = pow2((g - 1) as nat);
        assert(k * (2 * p) == (2 * k) * p) by (nonlinear_arith);
        lemma_short_number(2 * k, (g - 1) as nat)
    }
}

/// Rounding forgets less than half a step above a whole number of steps, and less than
/// half a step below it.
proof fn lemma_round_even_near(m: nat, p: nat, d: nat)
    requires
        p > 0,
        m > 0,
        2 * d < p,
    ensures
        round_even(m * p + d, p) == m,
        round_even((m * p - d) as nat, p) == m,
{
    assert(m * p >= p) by (nonlinear_arith)
        requires
            m >= 1,
            p > 0,
    ;
    vstd::arithmetic::div_mod::lemma_fundamental_div_mod_converse(
        (m * p + d) as int,
        p as int,
        m as int,
        d as int,
    );
    if d > 0 {
        assert((m - 1) * p == m * p - p) by (nonlinear_arith);
        vstd::arithmetic::div_mod::lemma_fundamental_div_mod_converse(
            m * p - d,
            p as int,
            m - 1,
            p - d,
        );
    }
}

/// Significand and exponent of a number that is not among the smallest.
proof fn lemma_parts_of(mag: u32) -> (me: (nat, nat))
    requires
        EXPONENT_STEP <= mag < INFINITY_BITS,
    ensures
        me.1 == mag as nat / EXPONENT_STEP as nat - 1,
        EXPONENT_STEP <= me.0 < SIGNIFICAND_END,
        (me.0 == EXPONENT_STEP) == (mag as nat % EXPONENT_STEP as nat == 0),
        units(mag) == me.0 * pow2(me.1),
        me.0 + me.1 * EXPONENT_STEP as nat == mag,
{
    reveal(units);
    let step = EXPONENT_STEP as nat;
    vstd::arithmetic::div_mod::lemma_fundamental_div_mod(mag as int, step as int);
    let m = mag as nat % step + step;
    let e = (mag as nat / step - 1) as nat;
    assert(m + e * step == mag) by (nonlinear_arith)
        requires
            mag == step * (e + 1) + (m - step),
    ;
    (m, e)
}

/// A term below half the distance to the next number is lost in a sum.
pub proof fn law_small_term_is_lost(a: Single, b: Single)
    requires
        a.is_finite(),
        b.is_finite(),
        !a.negative(),
        !b.negative(),
        a.magnitude() >= EXPONENT_STEP,
        2 * b.size() < pow2((a.magnitude() as nat / EXPONENT_STEP as nat - 1) as nat),
    ensures
        sum(a, b) == a,
{
    let (m, e) = lemma_parts_of(a.magnitude());
    let p = pow2(e);
    let d = b.size();
    let n = m * p + d;
    lemma_pow2_24();
    lemma_pow2_pos(e);
    lemma_pow2_adds(24, e);
    lemma_pow2_adds(23, e);
    assert(0x80_0000 * p <= n < 0x100_0000 * p) by (nonlinear_arith)
        requires
            n == m * p + d,
            0x80_0000 <= m,
            m + 1 <= 0x100_0000,
            d < p,
    ;
    assert(1 * pow2((23 + e) as nat) == pow2((23 + e) as nat) && 1 * pow2(24 + e) == pow2(24 + e)
        && 1 * p == p);
    lemma_nearest_at(n, 1, e);
    lemma_round_even_near(m, p, d);
    lemma_signed(false, a.magnitude());
    reveal(sum);
}

/// So it is in a difference, unless the number is a power of two: numbers are closer
/// below it, and the term has to be below half of that distance.
pub proof fn law_small_loss_is_lost(a: Single, b: Single)
    requires
        a.is_finite(),
        b.is_finite(),
        !a.negative(),
        !b.negative(),
        a.magnitude() >= 2 * EXPONENT_STEP,
        2 * b.size() < pow2((a.magnitude() as nat / EXPONENT_STEP as nat - 1) as nat),
        a.magnitude() as nat % EXPONENT_STEP as nat == 0 ==> 4 * b.size() < pow2(
            (a.magnitude() as nat / EXPONENT_STEP as nat - 1) as nat,
        ),
    ensures
        difference(a, b) == a,
{
    let (m, e) = lemma_parts_of(a.magnitude());
    let step = EXPONENT_STEP as nat;
    let p = pow2(e);
    let d = b.size();
    lemma_zero_units();
    lemma_units_order(0, b.magnitude());
    lemma_pow2_24();
    lemma_pow2_pos(e);
    lemma_signed(true, b.magnitude());
    lemma_signed(false, a.magnitude());
    if d == 0 {
        law_zero_adds_nothing(a, negated(b));
    } else if m > step {
        let n = (m * p - d) as nat;
        lemma_pow2_adds(24, e);
        lemma_pow2_adds(23, e);
        assert(0 < step * p <= m * p - d && m * p < 0x100_0000 * p) by (nonlinear_arith)
            requires
                step + 1 <= m < 0x100_0000,
                step > 0,
                d < p,
        ;
        assert(1 * pow2((23 + e) as nat) == pow2((23 + e) as nat) && 1 * pow2(24 + e) == pow2(
            24 + e,
        ) && 1 * p == p);
        lemma_nearest_at(n, 1, e);
        lemma_round_even_near(m, p, d);
        reveal(sum);
    } else {
        let f = (e - 1) as nat;
        let h = pow2(f);
        vstd::arithmetic::power2::lemma_pow2_unfold(e);
        lemma_pow2_pos(f);
        lemma_pow2_adds(24, f);
        lemma_pow2_adds(23, f);
        assert(step * (2 * h) == 0x100_0000 * h) by (nonlinear_arith)
            requires
                step == 0x80_0000,
        ;
        let n = (0x100_0000 * h - d) as nat;
        assert(1 * pow2((23 + f) as nat) == pow2((23 + f) as nat) && 1 * pow2(24 + f) == pow2(
            24 + f,
        ) && 1 * h == h);
        lemma_nearest_at(n, 1, f);
        lemma_round_even_near(0x100_0000, h, d);
        assert(f * step + step == e * step) by (nonlinear_arith)
            requires
                e == f + 1,
        ;
        reveal(sum);
    }
}

/// A larger factor does not give a smaller product.
pub proof fn law_product_monotone(a: Single, b: Single, c: Single)
    requires
        a.is_finite(),
        b.is_finite(),
        c.is_finite(),
        !a.negative(),
        b.value() <= c.value(),
    ensures
        at_most(product(a, b), product(a, c)),
{
    let one = pow2(UNIT_SHIFT as nat);
    lemma_pow2_pos(UNIT_SHIFT as nat);
    let x = a.size();
    let nb = nearest(x * b.size(), one);
    let nc = nearest(x * c.size(), one);
    reveal(product);
    assert(product(a, b) == signed(b.negative(), nb));
    assert(product(a, c) == signed(c.negative(), nc));
    lemma_signed(b.negative(), nb);
    lemma_signed(c.negative(), nc);
    lemma_units_order(0, b.magnitude());
    lemma_units_order(0, c.magnitude());
    lemma_zero_units();
    lemma_nearest_zero(one);
    if !b.negative() {
        if c.negative() {
            // both are zeros
            assert(x * b.size() == 0 && x * c.size() == 0) by (nonlinear_arith)
                requires
                    b.size() == 0,
                    c.size() == 0,
            ;
        } else {
            assert((x * b.size()) * one <= (x * c.size()) * one) by (nonlinear_arith)
                requires
                    b.size() <= c.size(),
            ;
            lemma_nearest_monotone(x * b.size(), one, x * c.size(), one);
        }
    } else if c.negative() {
        assert((x * c.size()) * one <= (x * b.size()) * one) by (nonlinear_arith)
            requires
                c.size() <= b.size(),
        ;
        lemma_nearest_monotone(x * c.size(), one, x * b.size(), one);
    }
}

/// A number divided by itself is one, and by its negative minus one.
pub proof fn law_self_quotient(a: Single)
    requires
        a.is_finite(),
        !a.is_zero(),
    ensures
        quotient(a, a) == num(ONE),
        quotient(negated(a), a) == num(MINUS_ONE),
{
    let one = pow2(UNIT_SHIFT as nat);
    lemma_one();
    lemma_nearest_exact(ONE);
    lemma_units_order(0, a.magnitude());
    lemma_zero_units();
    lemma_nearest_scale(one, 1, a.size());
    assert(1 * a.size() == a.size());
    assert(one * a.size() == a.size() * one) by (nonlinear_arith);
    lemma_signed(!a.negative(), a.magnitude());
    reveal(quotient);
}

/// Dividing by a number that is not larger does not give a smaller quotient.
pub proof fn law_quotient_monotone(a: Single, b: Single, c: Single, d: Single)
    requires
        a.is_finite(),
        b.is_finite(),
        c.is_finite(),
        d.is_finite(),
        0 <= a.value() <= c.value(),
        0 < d.value() <= b.value(),
        !a.negative(),
        !c.negative(),
    ensures
        at_most(quotient(a, b), quotient(c, d)),
{
    let one = pow2(UNIT_SHIFT as nat);
    lemma_zero_units();
    lemma_units_order(0, b.magnitude());
    lemma_units_order(0, d.magnitude());
    assert((a.size() * one) * d.size() <= (c.size() * one) * b.size()) by (nonlinear_arith)
        requires
            a.size() <= c.size(),
            d.size() <= b.size(),
    ;
    lemma_nearest_monotone(a.size() * one, b.size(), c.size() * one, d.size());
    lemma_signed(false, nearest(a.size() * one, b.size()));
    lemma_signed(false, nearest(c.size() * one, d.size()));
    reveal(quotient);
}

/// A quotient that a number states exactly is that number.
pub proof fn law_exact_quotient(a: Single, b: Single, q: Single)
    requires
        a.is_finite(),
        b.is_finite(),
        q.is_finite(),
        !a.negative(),
        !b.negative(),
        !q.negative(),
        b.size() > 0,
        a.size() * pow2(UNIT_SHIFT as nat) == q.size() * b.size(),
    ensures
        quotient(a, b) == q,
{
    lemma_zero_units();
    lemma_nearest_exact(q.magnitude());
    lemma_nearest_scale(q.size(), 1, b.size());
    assert(1 * b.size() == b.size());
    lemma_signed(false, q.magnitude());
    reveal(quotient);
}

/// A number times one is itself.
pub proof fn lemma_times_one(a: Single)
    requires
        a.is_finite(),
    ensures
        product(a, num(ONE)) == a,
        product(a, num(MINUS_ONE)) == negated(a),
{
    let one = pow2(UNIT_SHIFT as nat);
    lemma_pow2_pos(UNIT_SHIFT as nat);
    lemma_one();
    lemma_nearest_exact(a.magnitude());
    lemma_nearest_scale(a.size(), 1, one);
    assert(1 * one == one);
    reveal(product);
}

/// The product with a zero is a zero.
pub proof fn lemma_zero_product(a: Single, b: Single)
    requires
        a.is_finite(),
        b.is_finite(),
        a.is_zero() || b.is_zero(),
    ensures
        product(a, b).is_zero(),
{
    reveal(product);
    let one = pow2(UNIT_SHIFT as nat);
    lemma_pow2_pos(UNIT_SHIFT as nat);
    lemma_nearest_zero(one);
    lemma_zero_units();
    assert(a.size() * b.size() == 0) by (nonlinear_arith)
        requires
            a.size() == 0 || b.size() == 0,
    ;
}

/// One is 2^149 units.
pub proof fn lemma_one()
    ensures
        units(ONE) == pow2(UNIT_SHIFT as nat),
{
    reveal(units);
    lemma_pow2_24();
    lemma_pow2_adds(23, 126);
}

} // verus!
