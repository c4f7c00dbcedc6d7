//! The gain of a bin: how far its magnitude stands out from its smoothed magnitude.
//!
//! The powers themselves are taken by the caller; the functions here say of what.
use crate::channel::{smoothed, PCEN_S};
use crate::number::constants::ONE;
use crate::number::laws::{
    apart, law_quotient_monotone, law_sum_monotone, law_zero_adds_nothing, lemma_one,
};
use crate::number::near::{is_nearest_to, law_sum_is_the_nearest, lemma_one_is_large, one};
use crate::number::order::{
    law_order_is_that_of_values, lemma_nearest_exact, lemma_nearest_monotone, lemma_relative_error,
    lemma_units_order, lemma_zero_units,
};
use crate::number::rounding::{
    lemma_nearest_at, lemma_pow2_24, lemma_round_even_scale, nearest, round_even,
};
use crate::number::single::{
    at_most, difference, negated, num, product, quotient, signed, sum, units, Single, UNIT_SHIFT,
};
use crate::picture::{is_modest, lemma_bounds};
use vstd::arithmetic::power2::{
    lemma2_to64, lemma2_to64_rest, lemma_pow2_adds, lemma_pow2_pos, pow2,
};
use vstd::prelude::*;

verus! {

/// 0.000001, which keeps the gain of a silent bin finite.
pub const PCEN_EPS: u32 = 0x3586_37bd;

/// 0.98, the power of the smoothed magnitude in the gain.
pub const PCEN_ALPHA: u32 = 0x3f7a_e148;

/// 2, added before the root in the gain.
pub const PCEN_DELTA: u32 = 0x4000_0000;

/// 0.5, the power that is the root in the gain.
pub const PCEN_R: u32 = 0x3f00_0000;

/// 0.975, the share of the old magnitude in the smoothed one.
pub const REST: u32 = 0x3f79_999a;

/// A power that is to be taken.
#[derive(Clone, Copy, Debug, PartialEq, Eq, Structural)]
pub struct Power {
    pub base: Single,
    pub exponent: Single,
}

/// What a magnitude is divided by, from the smoothed magnitude of its bin.
pub fn gain_denominator(smoothed: Single) -> (p: Power)
    ensures
        p == (Power { base: sum(num(PCEN_EPS), smoothed), exponent: num(PCEN_ALPHA) }),
        is_modest(smoothed) ==> is_nearest_to(
            p.base,
            num(PCEN_EPS).value() + smoothed.value(),
        ),
{
    proof {
        if is_modest(smoothed) {
            lemma_eps();
            lemma_bounds();
            law_sum_is_the_nearest(num(PCEN_EPS), smoothed);
        }
    }
    Power { base: num(PCEN_EPS).plus(smoothed), exponent: num(PCEN_ALPHA) }
}

/// What the root in the gain is taken of: the magnitude in relation to the power of
/// `gain_denominator`, and `PCEN_DELTA`.
pub open spec fn gain_argument(mag: Single, denominator: Single) -> Single {
    sum(quotient(mag, denominator), num(PCEN_DELTA))
}

/// The root in the gain.
pub fn gain_root(mag: Single, denominator: Single) -> (p: Power)
    ensures
        p == (Power { base: gain_argument(mag, denominator), exponent: num(PCEN_R) }),
{
    Power { base: mag.over(denominator).plus(num(PCEN_DELTA)), exponent: num(PCEN_R) }
}

/// What the root is for a silent bin.
pub fn gain_floor() -> (p: Power)
    ensures
        p == (Power { base: num(PCEN_DELTA), exponent: num(PCEN_R) }),
{
    Power { base: num(PCEN_DELTA), exponent: num(PCEN_R) }
}

/// The gain of a bin, from the powers of `gain_root` and `gain_floor`.
pub fn gain_value(root: Single, floor: Single) -> (r: Single)
    ensures
        r == difference(root, floor),
        is_modest(root) && is_modest(floor) ==> is_nearest_to(r, root.value() - floor.value()),
{
    proof {
        if is_modest(root) && is_modest(floor) {
            lemma_bounds();
            law_sum_is_the_nearest(root, negated(floor));
        }
    }
    root.minus(floor)
}

/// 0.000001, in units.
proof fn lemma_eps()
    ensures
        is_modest(num(PCEN_EPS)),
        apart(1_000_000 * num(PCEN_EPS).value(), one()) * 0x10_0000 <= one(),
{
    reveal(units);
    lemma_one_is_large();
    lemma_bounds();
    lemma_pow2_24();
    lemma2_to64_rest();
    lemma_pow2_pos(106);
    lemma_pow2_adds(43, 106);
    assert(num(PCEN_EPS).value() == 0x86_37bd * pow2(106));
    assert(one() == 0x800_0000_0000 * pow2(106));
}

/// What a magnitude is divided by is the power of a number that is larger than the smoothed
/// magnitude by a millionth, so it is not zero for a silent bin.
pub proof fn law_silent_bin_is_not_divided_by_zero(smoothed: Single)
    requires
        is_modest(smoothed),
        0 <= smoothed.value(),
    ensures
        sum(num(PCEN_EPS), smoothed).is_finite(),
        smoothed.value() <= sum(num(PCEN_EPS), smoothed).value(),
        num(PCEN_EPS).value() <= sum(num(PCEN_EPS), smoothed).value(),
        apart(1_000_000 * num(PCEN_EPS).value(), one()) * 0x10_0000 <= one(),
        0 < num(PCEN_EPS).value(),
{
    lemma_eps();
    lemma_bounds();
    lemma_one_is_large();
    law_sum_is_the_nearest(num(PCEN_EPS), smoothed);
    assert(smoothed.is_finite() && num(PCEN_EPS).is_finite());
}

/// The gain is what the root exceeds the root of a silent bin by.
pub proof fn law_gain_is_the_excess(root: Single, floor: Single)
    requires
        is_modest(root),
        is_modest(floor),
    ensures
        is_nearest_to(difference(root, floor), root.value() - floor.value()),
{
    lemma_bounds();
    law_sum_is_the_nearest(root, negated(floor));
}

/// What the root in the gain is taken of does not fall as the magnitude grows, nor rise as
/// the denominator grows.
pub proof fn law_gain_argument_follows_magnitude(
    soft: Single,
    wide: Single,
    loud: Single,
    narrow: Single,
)
    requires
        soft.is_finite(),
        loud.is_finite(),
        wide.is_finite(),
        narrow.is_finite(),
        !soft.negative(),
        !loud.negative(),
        soft.value() <= loud.value(),
        0 < narrow.value() <= wide.value(),
    ensures
        at_most(gain_argument(soft, wide), gain_argument(loud, narrow)),
{
    let a = quotient(soft, wide);
    let b = quotient(loud, narrow);
    lemma_zero_units();
    law_quotient_monotone(soft, wide, loud, narrow);
    assert(!a.negative() && !b.negative()) by {
        reveal(quotient);
    }
    if b.is_finite() {
        law_order_is_that_of_values(a, b);
        law_sum_monotone(a, num(PCEN_DELTA), b, num(PCEN_DELTA));
    } else {
        if a.is_finite() {
            law_sum_monotone(a, num(PCEN_DELTA), a, num(PCEN_DELTA));
        }
        reveal(sum);
    }
}

/// The shares of the old magnitude and of the new one, in steps of 2^-29.
pub proof fn lemma_share_units()
    ensures
        pow2(120) > 0,
        pow2(UNIT_SHIFT as nat) == 0x2000_0000 * pow2(120),
        num(PCEN_S).size() == 13421773 * pow2(120),
        difference(num(ONE), num(PCEN_S)) == num(REST),
        num(REST).size() == 523449152 * pow2(120),
{
    let h = pow2(120);
    lemma_pow2_pos(120);
    lemma2_to64();
    lemma_pow2_adds(29, 120);
    lemma_pow2_adds(5, 120);
    lemma_pow2_adds(23, 125);
    lemma_pow2_adds(24, 125);
    lemma_pow2_24();
    lemma_one();
    assert(num(PCEN_S).size() == 13421773 * h && num(REST).size() == 16357786 * pow2(125)) by {
        reveal(units);
    }
    let v: nat = 523449139 * h;
    assert(1 * pow2(125) == pow2(125) && 1 * pow2(148) == pow2(148) && 1 * pow2(149) == pow2(
        149,
    ));
    lemma_nearest_at(v, 1, 125);
    lemma_round_even_scale(523449139, 32, h);
    assert(round_even(523449139, 32) == 16357786);
    reveal(sum);
}

/// Taking a share of a magnitude: the exact share is 2^-29 of `c` times the magnitude.
pub proof fn lemma_share(share: Single, c: nat, x: Single)
    requires
        share.is_finite(),
        !share.negative(),
        c <= 0x2000_0000,
        share.size() == c * pow2(120),
        x.is_finite(),
        !x.negative(),
    ensures
        product(share, x).is_finite(),
        !product(share, x).negative(),
        0x100_0000 * (0x2000_0000 * product(share, x).size()) <= 0x100_0001 * (c * x.size())
            + 0x80_0000 * 0x2000_0000,
        0xff_ffff * (c * x.size()) <= 0x100_0000 * (0x2000_0000 * product(share, x).size())
            + 0x80_0000 * 0x2000_0000,
{
    let h = pow2(120);
    let one = pow2(UNIT_SHIFT as nat);
    lemma_share_units();
    let n = share.size() * x.size();
    let m = nearest(n, one);
    assert(n <= x.size() * one) by (nonlinear_arith)
        requires
            n == (c * h) * x.size(),
            one == 0x2000_0000 * h,
            c <= 0x2000_0000,
    ;
    assert(n * 1 == n);
    lemma_nearest_monotone(n, one, x.size(), 1);
    lemma_nearest_exact(x.magnitude());
    assert(product(share, x) == signed(false, m)) by {
        reveal(product);
    }
    lemma_relative_error(n, one);
    let u = units(m);
    let k = c * x.size();
    assert(n == k * h) by (nonlinear_arith)
        requires
            n == (c * h) * x.size(),
            k == c * x.size(),
    ;
    assert(u * one == (0x2000_0000 * u) * h) by (nonlinear_arith)
        requires
            one == 0x2000_0000 * h,
    ;
    assert(0x100_0000 * (0x2000_0000 * u) <= 0x100_0001 * k + 0x80_0000 * 0x2000_0000)
        by (nonlinear_arith)
        requires
            0x100_0000 * ((0x2000_0000 * u) * h) <= 0x100_0001 * (k * h) + 0x80_0000 * (
            0x2000_0000 * h),
            h > 0,
    ;
    assert(0xff_ffff * k <= 0x100_0000 * (0x2000_0000 * u) + 0x80_0000 * 0x2000_0000)
        by (nonlinear_arith)
        requires
            0xff_ffff * (k * h) <= 0x100_0000 * ((0x2000_0000 * u) * h) + 0x80_0000 * (0x2000_0000
                * h),
            h > 0,
    ;
}

/// A smoothed magnitude is 0.975 of the old one and 0.025 of the new magnitude, but for at
/// most one part in 2^22 and two units: a sudden sound is followed by a fortieth of it.
pub proof fn law_smoothed_is_weighted_mean(old: Single, mag: Single)
    requires
        old.is_finite(),
        mag.is_finite(),
        !old.negative(),
        !mag.negative(),
        smoothed(true, old, mag).is_finite(),
    ensures
        ({
            let s = 0x2000_0000 * smoothed(true, old, mag).value();
            let mean = 523449152 * old.value() + 13421773 * mag.value();
            0x40_0000 * apart(s, mean) <= mean + 0x80_0000 * 0x2000_0000
        }),
{
    lemma_smoothed(old, mag);
}

/// What rounding leaves of the exact mean.
proof fn lemma_smoothed(old: Single, mag: Single)
    requires
        old.is_finite(),
        mag.is_finite(),
        !old.negative(),
        !mag.negative(),
        smoothed(true, old, mag).is_finite(),
    ensures
        ({
            let s = 0x2000_0000 * smoothed(true, old, mag).value();
            let mean = 523449152 * old.value() + 13421773 * mag.value();
            0x60_0000 * apart(s, mean) <= mean + 0xa0_0000 * 0x2000_0000
        }),
{
    lemma_share_units();
    lemma_zero_units();
    lemma_share(num(REST), 523449152, old);
    lemma_share(num(PCEN_S), 13421773, mag);
    let p = product(num(REST), old);
    let q = product(num(PCEN_S), mag);
    let n = p.size() + q.size();
    if n == 0 {
        assert(sum(p, q).is_zero()) by {
            reveal(sum);
        }
    } else {
        assert(sum(p, q) == signed(false, nearest(n, 1))) by {
            reveal(sum);
        }
        lemma_relative_error(n, 1);
        assert(units(nearest(n, 1)) * 1 == units(nearest(n, 1)));
    }
}

/// A smoothed magnitude lies between the old one and the new magnitude, but for at most
/// one part in 2^22 and two units.
pub proof fn law_smoothed_lies_between(old: Single, mag: Single)
    requires
        old.is_finite(),
        mag.is_finite(),
        !old.negative(),
        !mag.negative(),
        smoothed(true, old, mag).is_finite(),
    ensures
        ({
            let s = smoothed(true, old, mag).value();
            let low = if old.value() <= mag.value() {
                old.value()
            } else {
                mag.value()
            };
            let high = if old.value() <= mag.value() {
                mag.value()
            } else {
                old.value()
            };
            &&& 0x40_0000 * (s - high) <= high + 0x80_0000
            &&& 0x40_0000 * (low - s) <= low + 0x80_0000
        }),
{
    lemma_smoothed(old, mag);
}

/// What the root in the gain is taken of is at least what it is for a silent bin.
pub proof fn law_gain_argument_above_floor(mag: Single, denominator: Single)
    requires
        mag.is_finite(),
        !mag.negative(),
        denominator.is_finite(),
        0 < denominator.value(),
    ensures
        at_most(num(PCEN_DELTA), gain_argument(mag, denominator)),
{
    let q = quotient(mag, denominator);
    lemma_zero_units();
    lemma_units_order(0, denominator.magnitude());
    assert(!q.is_nan() && !q.negative()) by {
        reveal(quotient);
    }
    if q.is_finite() {
        law_zero_adds_nothing(num(PCEN_DELTA), num(0));
        law_sum_monotone(num(PCEN_DELTA), num(0), q, num(PCEN_DELTA));
    } else {
        reveal(sum);
    }
}

/// A root that is at least that of a silent bin gives a gain that is not negative, and no
/// larger than the root.
pub proof fn law_gain_is_not_negative(root: Single, floor: Single)
    requires
        root.is_finite(),
        !root.negative(),
        floor.is_finite(),
        !floor.negative(),
        at_most(floor, root),
    ensures
        difference(root, floor).is_finite(),
        !difference(root, floor).negative(),
        at_most(difference(root, floor), root),
{
    let g = difference(root, floor);
    lemma_zero_units();
    law_order_is_that_of_values(floor, root);
    law_zero_adds_nothing(root, num(0));
    law_sum_monotone(root, negated(floor), root, num(0));
    law_zero_adds_nothing(num(0), num(0));
    law_sum_monotone(num(0), num(0), root, negated(floor));
    law_order_is_that_of_values(sum(root, num(0)), root);
    law_order_is_that_of_values(num(0), sum(num(0), num(0)));
    assert(g.is_finite());
    reveal(sum);
}

/// The first magnitude of a bin is taken as it is.
pub proof fn law_first_magnitude_is_taken(old: Single, mag: Single)
    ensures
        smoothed(false, old, mag) == mag,
{
}

} // verus!
