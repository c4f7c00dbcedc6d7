//! What the exponents of a frame are: the time of the frame in time constants, and the time
//! constants by the response speed.
use crate::easing::law_exponents_bounded;
use crate::number::constants::ONE;
use crate::number::laws::apart;
use crate::number::near::{
    law_held_between, law_order_of_values, law_product_is_near, law_quotient_is_near,
    lemma_one_is_large, lemma_product_is_finite, lemma_size_times, lemma_times, one, size,
};
use crate::number::order::law_order_is_that_of_values;
use crate::number::rounding::lemma_pow2_24;
use crate::number::single::{less, limited, negated, num, product, quotient, smaller, units, Single};
use crate::picture::{held, lemma_bounds, lemma_modest_sum};
use crate::smoothing::{
    exponents, law_time_constant_range, time_constant, ATTACK_SLOW, ATTACK_SPAN, DIRECTION_SLOW,
    DIRECTION_SPAN, LEAST_SCALE, LONGEST_FRAME, RELEASE_SLOW, RELEASE_SPAN, SCALE_ATTACK,
    SCALE_RELEASE,
};
use vstd::arithmetic::power2::{lemma2_to64, lemma_pow2_adds, lemma_pow2_pos, pow2};
use vstd::prelude::*;

verus! {

/// A time constant is the slow one at a speed of 0, shorter by the span at a speed of 1, and
/// between them in proportion to the speed.
pub proof fn law_time_constant_by_speed(slow: Single, span: Single, speed: Single)
    requires
        slow.is_finite(),
        span.is_finite(),
        speed.is_finite(),
        0 <= span.value() <= slow.value() <= one(),
        0 <= speed.value() <= one(),
    ensures
        ({
            let t = time_constant(slow, span, speed);
            &&& t.is_finite()
            &&& 0x40_0000 * apart(
                t.value() * one(),
                slow.value() * one() - span.value() * speed.value(),
            ) <= slow.value() * one() + 0x100_0000 * one()
        }),
{
    let o = one();
    let p = product(span, speed);
    let sp = span.value() * speed.value();
    lemma_one_is_large();
    lemma_bounds();
    lemma_size_times(span.value(), speed.value(), slow.value(), o);
    assert(slow.value() * o < o * pow2(224) && 0 <= sp) by (nonlinear_arith)
        requires
            0 <= slow.value() <= o,
            sp == span.value() * speed.value(),
            0 <= span.value(),
            0 <= speed.value(),
            o < pow2(224),
            o > 0,
    ;
    lemma_product_is_finite(span, speed);
    law_product_is_near(span, speed);
    let pv = p.value();
    let so = slow.value() * o;
    assert(0x100_0000 * size(pv) <= 0x100_0001 * slow.value() + 0x80_0000) by (nonlinear_arith)
        requires
            0x100_0000 * apart(pv * o, sp) <= sp + 0x80_0000 * o,
            0 <= sp <= so,
            so == slow.value() * o,
            o > 0,
    {
        assert(size(pv * o) == size(pv) * o);
        assert((0x100_0000 * size(pv)) * o <= (0x100_0001 * slow.value() + 0x80_0000) * o);
    }
    lemma_modest_sum(slow, negated(p));
    let t = time_constant(slow, span, speed).value();
    lemma_times(t, slow.value() - pv, o, 0x100_0000, size(slow.value() - pv) + 0x80_0000, o);
    assert((slow.value() - pv) * o == so - pv * o && (size(slow.value() - pv) + 0x80_0000) * o <= 3
        * so + 0x100_0000 * o) by (nonlinear_arith)
        requires
            so == slow.value() * o,
            size(slow.value() - pv) <= 3 * slow.value() + 1,
            o > 0,
    ;
}

/// `e` is the time `t`, negative, in time constants `tau`.
pub open spec fn is_exponent(e: Single, t: int, tau: Single) -> bool {
    &&& e.is_finite()
    &&& tau.is_finite()
    &&& 0 < tau.value()
    &&& 0x100_0000 * apart(e.value() * tau.value(), -(t * one())) <= t * one() + 0x80_0000
        * tau.value()
}

/// The time constants of a response speed.
pub open spec fn constant_at(slow: u32, span: u32, sensitivity: Single) -> Single {
    time_constant(num(slow), num(span), limited(sensitivity, num(0), num(ONE)))
}

proof fn lemma_exponent(t: Single, tau: Single, e: Single)
    requires
        t.is_finite(),
        0 <= t.value(),
        tau.is_finite(),
        0 < tau.value(),
        e == quotient(negated(t), tau),
        e.is_finite(),
    ensures
        is_exponent(e, t.value(), tau),
{
    let o = one();
    law_quotient_is_near(negated(t), tau);
    lemma_one_is_large();
    assert(negated(t).value() == -t.value());
    assert((-t.value()) * o == -(t.value() * o) && t.value() * o >= 0) by (nonlinear_arith)
        requires
            t.value() >= 0,
            o > 0,
    ;
}

/// The exponents are the time of the frame, at most 0.1 seconds, in time constants: those of
/// direction, attack and release by the response speed, those of the scale 0.1 and 6 seconds.
pub proof fn law_exponents_count_the_time(sensitivity: Single, elapsed: Single)
    requires
        sensitivity.is_finite(),
        elapsed.is_finite(),
        !elapsed.negative(),
    ensures
        ({
            let e = exponents(sensitivity, elapsed);
            let most = num(LONGEST_FRAME).value();
            let t = if elapsed.value() < most {
                elapsed.value()
            } else {
                most
            };
            &&& is_exponent(
                e.direction,
                t,
                constant_at(DIRECTION_SLOW, DIRECTION_SPAN, sensitivity),
            )
            &&& is_exponent(e.attack, t, constant_at(ATTACK_SLOW, ATTACK_SPAN, sensitivity))
            &&& is_exponent(e.release, t, constant_at(RELEASE_SLOW, RELEASE_SPAN, sensitivity))
            &&& is_exponent(e.scale_attack, t, num(SCALE_ATTACK))
            &&& is_exponent(e.scale_release, t, num(SCALE_RELEASE))
        }),
{
    let e = exponents(sensitivity, elapsed);
    let t = smaller(elapsed, num(LONGEST_FRAME));
    lemma_one_is_large();
    law_order_of_values(elapsed, num(LONGEST_FRAME));
    law_order_is_that_of_values(num(0), num(LONGEST_FRAME));
    law_order_is_that_of_values(num(0), elapsed);
    law_exponents_bounded(sensitivity, elapsed);
    lemma_constant(DIRECTION_SLOW, DIRECTION_SPAN, sensitivity);
    lemma_constant(ATTACK_SLOW, ATTACK_SPAN, sensitivity);
    lemma_constant(RELEASE_SLOW, RELEASE_SPAN, sensitivity);
    law_order_is_that_of_values(num(0), num(SCALE_ATTACK));
    law_order_is_that_of_values(num(0), num(SCALE_RELEASE));
    lemma_exponent(t, constant_at(DIRECTION_SLOW, DIRECTION_SPAN, sensitivity), e.direction);
    lemma_exponent(t, constant_at(ATTACK_SLOW, ATTACK_SPAN, sensitivity), e.attack);
    lemma_exponent(t, constant_at(RELEASE_SLOW, RELEASE_SPAN, sensitivity), e.release);
    lemma_exponent(t, num(SCALE_ATTACK), e.scale_attack);
    lemma_exponent(t, num(SCALE_RELEASE), e.scale_release);
}

/// A time constant is finite and positive.
proof fn lemma_constant(slow: u32, span: u32, sensitivity: Single)
    requires
        sensitivity.is_finite(),
        num(slow).is_finite(),
        num(span).is_finite(),
        !num(span).negative(),
        less(num(span), num(slow)),
    ensures
        constant_at(slow, span, sensitivity).is_finite(),
        0 < constant_at(slow, span, sensitivity).value(),
{
    lemma_one_is_large();
    law_order_is_that_of_values(num(span), num(slow));
    law_time_constant_range(num(slow), num(span), sensitivity);
    law_order_is_that_of_values(num(0), constant_at(slow, span, sensitivity));
}

/// A speed below 0 counts as 0, one above 1 as 1.
pub proof fn law_speed_is_held(sensitivity: Single)
    requires
        sensitivity.is_finite(),
    ensures
        limited(sensitivity, num(0), num(ONE)).is_finite(),
        limited(sensitivity, num(0), num(ONE)).value() == held(sensitivity.value(), 0, one()),
{
    lemma_one_is_large();
    law_held_between(sensitivity, num(0), num(ONE));
}

/// A constant is so many thousandths.
pub open spec fn in_thousandths(bits: u32, n: int) -> bool {
    &&& num(bits).is_finite()
    &&& 0x10_0000 * apart(1000 * num(bits).value(), n * one()) <= n * one()
}

/// The time constants in seconds: for a direction from 0.06 down to 0.01, for a rising energy
/// from 0.045 down to 0.01, for a falling one from 0.22 down to 0.08, and for the scale 0.1 and
/// 6. A frame counts for at most 0.1 seconds, and the scale does not aim below 0.15.
pub proof fn law_time_constants_in_seconds()
    ensures
        in_thousandths(DIRECTION_SLOW, 60),
        in_thousandths(DIRECTION_SPAN, 50),
        in_thousandths(ATTACK_SLOW, 45),
        in_thousandths(ATTACK_SPAN, 35),
        in_thousandths(RELEASE_SLOW, 220),
        in_thousandths(RELEASE_SPAN, 140),
        in_thousandths(SCALE_ATTACK, 100),
        in_thousandths(SCALE_RELEASE, 6000),
        in_thousandths(LONGEST_FRAME, 100),
        in_thousandths(LEAST_SCALE, 150),
{
    reveal(units);
    lemma_pow2_24();
    lemma2_to64();
    lemma_pow2_pos(121);
    lemma_pow2_adds(1, 121);
    lemma_pow2_adds(2, 121);
    lemma_pow2_adds(7, 121);
    lemma_pow2_adds(28, 121);
    assert(one() == 0x1000_0000 * pow2(121));
    assert(num(DIRECTION_SLOW).value() == 0xf5_c28f * pow2(121));
    assert(num(DIRECTION_SPAN).value() == 0xcc_cccd * pow2(121));
    assert(num(ATTACK_SLOW).value() == 0xb8_51ec * pow2(121));
    assert(num(ATTACK_SPAN).value() == 0x8f_5c29 * pow2(121));
    assert(num(RELEASE_SLOW).value() == 0xe1_47ae * pow2(123));
    assert(num(RELEASE_SPAN).value() == 0x8f_5c29 * pow2(123));
    assert(num(SCALE_ATTACK).value() == 0xcc_cccd * pow2(122));
    assert(num(SCALE_RELEASE).value() == 0xc0_0000 * pow2(128));
    assert(num(LEAST_SCALE).value() == 0x99_999a * pow2(123));
}

} // verus!
