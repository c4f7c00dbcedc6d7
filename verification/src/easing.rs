//! How near a value comes to its target in one frame.
use crate::number::constants::ONE;
use crate::number::laws::{
    apart, law_exact_quotient, law_quotient_monotone, law_short_numbers_are_exact, law_sum_monotone,
    law_zero_adds_nothing, lemma_one,
};
use crate::number::order::{
    law_order_is_that_of_values, lemma_nearest_exact, lemma_nearest_monotone, lemma_units_order,
    lemma_zero_units,
};
use crate::number::rounding::{
    lemma_nearest_zero, lemma_pow2_24, nearest, EXPONENT_STEP, INFINITY_BITS,
};
use crate::number::single::{
    at_most, difference, less, limited, negated, num, product, quotient, smaller, sum, units,
    Single, UNIT_SHIFT,
};
use crate::smoothing::{
    eased, eased_energy, exponents, law_higher_speed_is_faster, law_time_constant_range,
    time_constant, Decays, Exponents, ATTACK_SLOW, ATTACK_SPAN, DIRECTION_SLOW, DIRECTION_SPAN,
    LONGEST_FRAME, RELEASE_SLOW, RELEASE_SPAN, SCALE_ATTACK, SCALE_RELEASE,
};
use vstd::arithmetic::power2::{lemma2_to64, lemma_pow2_adds, lemma_pow2_pos, pow2};
use vstd::prelude::*;

verus! {

/// 2^-22, the least decay for which a value is known not to pass its target. It is less
/// than the exponential of -11.
pub const LEAST_DECAY: u32 = 0x3480_0000;

/// 11
pub const ELEVEN: u32 = 0x4130_0000;

/// -11
pub const MINUS_ELEVEN: u32 = 0xc130_0000;

/// 0.009765625, in seconds; every time constant is longer.
pub const SHORT_CONSTANT: u32 = 0x3c20_0000;

/// 0.107421875, in seconds; no frame counts longer.
pub const LONG_TIME: u32 = 0x3ddc_0000;

/// A decay between the least and 1.
pub open spec fn is_decay(d: Single) -> bool {
    at_most(num(LEAST_DECAY), d) && at_most(d, num(ONE))
}

/// What is done of the way with a decay: at most all of it but one part in 2^22.
proof fn lemma_part_done(d: Single)
    requires
        is_decay(d),
    ensures
        ({
            let k = difference(num(ONE), d);
            &&& k.is_finite()
            &&& !k.negative()
            &&& k.size() <= 0x3f_ffff * pow2(127)
            &&& pow2(UNIT_SHIFT as nat) == 0x40_0000 * pow2(127)
        }),
{
    let k = difference(num(ONE), d);
    let p = pow2(127);
    lemma_pow2_pos(127);
    lemma2_to64();
    lemma_pow2_24();
    lemma_pow2_adds(22, 127);
    lemma_pow2_adds(23, 104);
    lemma_one();
    lemma_zero_units();
    assert(num(LEAST_DECAY).value() == p) by {
        reveal(units);
    }
    law_order_is_that_of_values(num(LEAST_DECAY), d);
    law_order_is_that_of_values(d, num(ONE));
    let most = difference(num(ONE), num(LEAST_DECAY));
    law_short_numbers_are_exact(0x3f_ffff, 127);
    assert(most.is_finite() && most.value() == 0x3f_ffff * p) by {
        reveal(sum);
    }
    law_zero_adds_nothing(num(0), num(0));
    law_sum_monotone(num(ONE), negated(d), num(ONE), negated(num(LEAST_DECAY)));
    law_sum_monotone(num(0), num(0), num(ONE), negated(d));
    assert(!k.negative()) by {
        reveal(sum);
    }
    assert(k.is_finite());
    law_order_is_that_of_values(k, most);
}

/// The number before one that is not among the smallest is nearer than one part in 2^23.
proof fn lemma_number_before(m: u32)
    requires
        EXPONENT_STEP <= m < INFINITY_BITS,
    ensures
        0x80_0000 * (units(m) - units((m - 1) as u32)) <= units(m),
{
    reveal(units);
    lemma_pow2_24();
    let step = EXPONENT_STEP as nat;
    let e = (m as nat / step - 1) as nat;
    let p = pow2(e);
    lemma_pow2_pos(e);
    vstd::arithmetic::div_mod::lemma_fundamental_div_mod(m as int, step as int);
    let s = m as nat % step + step;
    if m as nat % step > 0 {
        vstd::arithmetic::div_mod::lemma_fundamental_div_mod_converse(
            m - 1,
            step as int,
            m as int / step as int,
            m as int % step as int - 1,
        );
        assert(units((m - 1) as u32) == (s - 1) * p);
        assert((s - 1) * p == s * p - p && 0x80_0000 * p <= s * p) by (nonlinear_arith)
            requires
                s >= 0x80_0000,
        ;
    } else if e == 0 {
        assert(m == step && p == 1);
    } else {
        let f = (e - 1) as nat;
        vstd::arithmetic::power2::lemma_pow2_unfold(e);
        vstd::arithmetic::div_mod::lemma_fundamental_div_mod_converse(
            m - 1,
            step as int,
            m as int / step as int - 1,
            step as int - 1,
        );
        assert(units((m - 1) as u32) == 0xff_ffff * pow2(f));
        assert(units(m) == 0x80_0000 * (2 * pow2(f)));
    }
}

/// A step towards the target is no longer than the way, and goes towards it.
proof fn lemma_step(a: Single, target: Single, d: Single)
    requires
        a.is_finite(),
        target.is_finite(),
        difference(target, a).is_finite(),
        is_decay(d),
    ensures
        ({
            let step = product(difference(num(ONE), d), difference(target, a));
            let way = target.value() - a.value();
            &&& step.is_finite()
            &&& way >= 0 ==> 0 <= step.value() <= way
            &&& way <= 0 ==> way <= step.value() <= 0
        }),
{
    let k = difference(num(ONE), d);
    let gap = difference(target, a);
    let step = product(k, gap);
    let one = pow2(UNIT_SHIFT as nat);
    let way = target.value() - a.value();
    let n = apart(way, 0) as nat;
    lemma_part_done(d);
    lemma_zero_units();
    lemma_pow2_pos(127);
    lemma_nearest_zero(one);
    if n == 0 {
        assert(gap.is_zero()) by {
            reveal(sum);
        }
        assert(k.size() * 0 == 0) by (nonlinear_arith);
        reveal(product);
    } else {
        let m = nearest(n, 1);
        assert(gap.magnitude() == m && gap.negative() == (way < 0)) by {
            reveal(sum);
        }
        let u = units(m);
        let c = k.size() * u;
        assert(step.magnitude() == nearest(c, one) && (step.negative() == (way < 0))) by {
            reveal(product);
        }
        lemma_nearest_exact(m);
        assert(c * 1 <= u * one) by (nonlinear_arith)
            requires
                c == k.size() * u,
                k.size() <= one,
        ;
        lemma_nearest_monotone(c, one, u, 1);
        lemma_units_order(nearest(c, one), m);
        if u > n {
            // the way was rounded up, so it is a large number
            if n <= 0x100_0000 {
                lemma_pow2_24();
                assert(n * pow2(0) == n);
                law_short_numbers_are_exact(n, 0);
            }
            assert(m >= EXPONENT_STEP) by {
                if m < EXPONENT_STEP {
                    reveal(units);
                }
            }
            let before = (m - 1) as u32;
            lemma_number_before(m);
            lemma_nearest_exact(before);
            if n <= units(before) {
                assert(n * 1 <= units(before) * 1);
                lemma_nearest_monotone(n, 1, units(before), 1);
            }
            let p = pow2(127);
            let v = units(before);
            assert(c * 1 <= v * one) by (nonlinear_arith)
                requires
                    c == k.size() * u,
                    k.size() <= 0x3f_ffff * p,
                    one == 0x40_0000 * p,
                    0x80_0000 * (u - v) <= u,
                    p > 0,
            ;
            lemma_nearest_monotone(c, one, v, 1);
            lemma_units_order(nearest(c, one), before);
        }
    }
}

/// A value does not pass its target: it ends between where it was and where it is going.
/// With no decay at all it may: from -1 to 1.5 * 2^-24, the way is rounded up to
/// 1 + 2^-23.
pub proof fn law_does_not_pass_target(a: Single, target: Single, d: Single)
    requires
        a.is_finite(),
        target.is_finite(),
        difference(target, a).is_finite(),
        is_decay(d),
    ensures
        ({
            let e = eased(a, target, d);
            &&& e.is_finite()
            &&& a.value() <= target.value() ==> a.value() <= e.value() <= target.value()
            &&& target.value() <= a.value() ==> target.value() <= e.value() <= a.value()
        }),
{
    let step = product(difference(num(ONE), d), difference(target, a));
    let e = eased(a, target, d);
    lemma_step(a, target, d);
    lemma_zero_units();
    law_zero_adds_nothing(a, num(0));
    law_zero_adds_nothing(target, num(0));
    let from = sum(a, num(0));
    let to = sum(target, num(0));
    if a.value() <= target.value() {
        law_sum_monotone(a, num(0), a, step);
        law_sum_monotone(a, step, target, num(0));
        assert(e.is_finite());
        law_order_is_that_of_values(from, e);
        law_order_is_that_of_values(e, to);
    }
    if target.value() <= a.value() {
        law_sum_monotone(a, step, a, num(0));
        law_sum_monotone(target, num(0), a, step);
        assert(e.is_finite());
        law_order_is_that_of_values(e, from);
        law_order_is_that_of_values(to, e);
    }
}

/// With a smaller decay a value ends no farther from its target.
pub proof fn law_smaller_decay_ends_nearer(a: Single, target: Single, small: Single, large: Single)
    requires
        a.is_finite(),
        target.is_finite(),
        difference(target, a).is_finite(),
        is_decay(small),
        is_decay(large),
        at_most(small, large),
    ensures
        apart(eased(a, target, small).value(), target.value()) <= apart(
            eased(a, target, large).value(),
            target.value(),
        ),
{
    let gap = difference(target, a);
    let k = difference(num(ONE), small);
    let j = difference(num(ONE), large);
    law_does_not_pass_target(a, target, small);
    law_does_not_pass_target(a, target, large);
    lemma_part_done(small);
    lemma_part_done(large);
    lemma_step(a, target, small);
    lemma_step(a, target, large);
    law_order_is_that_of_values(small, large);
    law_sum_monotone(num(ONE), negated(large), num(ONE), negated(small));
    law_order_is_that_of_values(j, k);
    lemma_larger_part(j, k, gap);
    if a.value() <= target.value() {
        assert(0 <= gap.value()) by {
            lemma_gap_side(a, target);
        }
        law_sum_monotone(a, product(j, gap), a, product(k, gap));
        law_order_is_that_of_values(eased(a, target, large), eased(a, target, small));
    } else {
        assert(gap.value() <= 0) by {
            lemma_gap_side(a, target);
        }
        law_sum_monotone(a, product(k, gap), a, product(j, gap));
        law_order_is_that_of_values(eased(a, target, small), eased(a, target, large));
    }
}

/// The rounded way points as the way does.
proof fn lemma_gap_side(a: Single, target: Single)
    requires
        a.is_finite(),
        target.is_finite(),
        difference(target, a).is_finite(),
    ensures
        a.value() <= target.value() ==> 0 <= difference(target, a).value(),
        target.value() <= a.value() ==> difference(target, a).value() <= 0,
{
    lemma_zero_units();
    reveal(sum);
}

/// A larger part of a way is longer.
proof fn lemma_larger_part(j: Single, k: Single, gap: Single)
    requires
        j.is_finite(),
        k.is_finite(),
        gap.is_finite(),
        !j.negative(),
        !k.negative(),
        j.value() <= k.value(),
        product(j, gap).is_finite(),
        product(k, gap).is_finite(),
    ensures
        0 <= gap.value() ==> product(j, gap).value() <= product(k, gap).value(),
        gap.value() <= 0 ==> product(k, gap).value() <= product(j, gap).value(),
{
    let one = pow2(UNIT_SHIFT as nat);
    let u = gap.size();
    lemma_pow2_pos(UNIT_SHIFT as nat);
    lemma_zero_units();
    lemma_nearest_zero(one);
    reveal(product);
    assert((j.size() * u) * one <= (k.size() * u) * one) by (nonlinear_arith)
        requires
            j.size() <= k.size(),
    ;
    lemma_nearest_monotone(j.size() * u, one, k.size() * u, one);
    lemma_units_order(nearest(j.size() * u, one), nearest(k.size() * u, one));
    if u == 0 {
        assert(j.size() * u == 0 && k.size() * u == 0) by (nonlinear_arith)
            requires
                u == 0,
        ;
    }
}

/// A faster response leaves every band no farther from the sound: with decays that are
/// not larger, its energy and its direction end no farther from their targets.
pub proof fn law_faster_response_ends_nearer(
    energy: Single,
    new_energy: Single,
    direction: Single,
    new_direction: Single,
    fast: Decays,
    slow: Decays,
)
    requires
        energy.is_finite(),
        new_energy.is_finite(),
        direction.is_finite(),
        new_direction.is_finite(),
        difference(new_energy, energy).is_finite(),
        difference(new_direction, direction).is_finite(),
        is_decay(fast.attack) && is_decay(slow.attack) && at_most(fast.attack, slow.attack),
        is_decay(fast.release) && is_decay(slow.release) && at_most(fast.release, slow.release),
        is_decay(fast.direction) && is_decay(slow.direction) && at_most(
            fast.direction,
            slow.direction,
        ),
    ensures
        apart(eased_energy(energy, new_energy, fast).value(), new_energy.value()) <= apart(
            eased_energy(energy, new_energy, slow).value(),
            new_energy.value(),
        ),
        apart(eased(direction, new_direction, fast.direction).value(), new_direction.value())
            <= apart(
            eased(direction, new_direction, slow.direction).value(),
            new_direction.value(),
        ),
{
    law_smaller_decay_ends_nearer(energy, new_energy, fast.attack, slow.attack);
    law_smaller_decay_ends_nearer(energy, new_energy, fast.release, slow.release);
    law_smaller_decay_ends_nearer(direction, new_direction, fast.direction, slow.direction);
}

/// A negative number divided by a positive one is the negative of their quotient.
proof fn lemma_negated_quotient(a: Single, b: Single)
    requires
        !a.negative(),
        less(num(0), b),
        a.is_finite(),
        b.is_finite(),
    ensures
        quotient(negated(a), b) == negated(quotient(a, b)),
        !quotient(a, b).is_nan(),
        !quotient(a, b).negative(),
{
    reveal(quotient);
}

/// The exponent for a time constant, in which a shorter one is lower.
proof fn lemma_exponent_order(time: Single, long: Single, short: Single)
    requires
        time.is_finite(),
        !time.negative(),
        long.is_finite(),
        short.is_finite(),
        less(num(0), short),
        at_most(short, long),
    ensures
        at_most(quotient(negated(time), short), quotient(negated(time), long)),
{
    lemma_zero_units();
    law_order_is_that_of_values(num(0), short);
    law_order_is_that_of_values(short, long);
    law_quotient_monotone(time, long, time, short);
    lemma_negated_quotient(time, long);
    lemma_negated_quotient(time, short);
}

/// A time that is not negative counts as one that is finite.
proof fn lemma_counted_time(elapsed: Single)
    requires
        !elapsed.is_nan(),
        !elapsed.negative(),
    ensures
        smaller(elapsed, num(LONGEST_FRAME)).is_finite(),
        !smaller(elapsed, num(LONGEST_FRAME)).negative(),
        at_most(smaller(elapsed, num(LONGEST_FRAME)), num(LONGEST_FRAME)),
{
}

/// A higher speed makes no exponent larger: what is left of an old value after a frame
/// is an exponential of less.
pub proof fn law_higher_speed_lowers_exponents(a: Single, b: Single, elapsed: Single)
    requires
        at_most(a, b),
        !elapsed.is_nan(),
        !elapsed.negative(),
    ensures
        at_most(exponents(b, elapsed).direction, exponents(a, elapsed).direction),
        at_most(exponents(b, elapsed).attack, exponents(a, elapsed).attack),
        at_most(exponents(b, elapsed).release, exponents(a, elapsed).release),
        exponents(b, elapsed).scale_attack == exponents(a, elapsed).scale_attack,
        exponents(b, elapsed).scale_release == exponents(a, elapsed).scale_release,
{
    lemma_counted_time(elapsed);
    lemma_speed_order(num(DIRECTION_SLOW), num(DIRECTION_SPAN), a, b, elapsed);
    lemma_speed_order(num(ATTACK_SLOW), num(ATTACK_SPAN), a, b, elapsed);
    lemma_speed_order(num(RELEASE_SLOW), num(RELEASE_SPAN), a, b, elapsed);
}

proof fn lemma_speed_order(slow: Single, span: Single, a: Single, b: Single, elapsed: Single)
    requires
        slow.is_finite(),
        span.is_finite(),
        !span.negative(),
        less(span, slow),
        at_most(a, b),
        !elapsed.is_nan(),
        !elapsed.negative(),
    ensures
        ({
            let back = negated(smaller(elapsed, num(LONGEST_FRAME)));
            at_most(
                quotient(back, time_constant(slow, span, limited(b, num(0), num(ONE)))),
                quotient(back, time_constant(slow, span, limited(a, num(0), num(ONE)))),
            )
        }),
{
    lemma_counted_time(elapsed);
    law_order_is_that_of_values(span, slow);
    law_time_constant_range(slow, span, a);
    law_time_constant_range(slow, span, b);
    law_higher_speed_is_faster(slow, span, a, b);
    lemma_exponent_order(
        smaller(elapsed, num(LONGEST_FRAME)),
        time_constant(slow, span, limited(a, num(0), num(ONE))),
        time_constant(slow, span, limited(b, num(0), num(ONE))),
    );
}

/// 11, the largest quotient of a frame's time and a time constant.
proof fn lemma_eleven()
    ensures
        quotient(num(LONG_TIME), num(SHORT_CONSTANT)) == num(ELEVEN),
        num(SHORT_CONSTANT).value() <= num(DIRECTION_SLOW).value() - num(DIRECTION_SPAN).value(),
        num(SHORT_CONSTANT).value() <= num(ATTACK_SLOW).value() - num(ATTACK_SPAN).value(),
        num(SHORT_CONSTANT).value() <= num(RELEASE_SLOW).value() - num(RELEASE_SPAN).value(),
{
    let p = pow2(119);
    lemma_pow2_pos(119);
    lemma_pow2_24();
    lemma2_to64();
    lemma_pow2_adds(2, 119);
    lemma_pow2_adds(3, 119);
    lemma_pow2_adds(4, 119);
    lemma_pow2_adds(10, 119);
    lemma_pow2_adds(30, 119);
    assert(num(SHORT_CONSTANT).size() == 0xa0_0000 * p) by {
        reveal(units);
    }
    assert(num(LONG_TIME).size() == 0xdc_0000 * (8 * p)) by {
        reveal(units);
    }
    assert(num(ELEVEN).size() == 0xb0_0000 * (0x400 * p)) by {
        reveal(units);
    }
    assert(num(DIRECTION_SLOW).size() == 0xf5_c28f * (4 * p) && num(DIRECTION_SPAN).size()
        == 0xcc_cccd * (4 * p)) by {
        reveal(units);
    }
    assert(num(ATTACK_SLOW).size() == 0xb8_51ec * (4 * p) && num(ATTACK_SPAN).size() == 0x8f_5c29
        * (4 * p)) by {
        reveal(units);
    }
    assert(num(RELEASE_SLOW).size() == 0xe1_47ae * (16 * p) && num(RELEASE_SPAN).size()
        == 0x8f_5c29 * (16 * p)) by {
        reveal(units);
    }
    assert((0xdc_0000 * (8 * p)) * (0x4000_0000 * p) == (0xb0_0000 * (0x400 * p)) * (0xa0_0000
        * p)) by (nonlinear_arith);
    law_exact_quotient(num(LONG_TIME), num(SHORT_CONSTANT), num(ELEVEN));
}

/// An exponent for a time constant that is not too short is not below -11.
proof fn lemma_exponent_bound(elapsed: Single, constant: Single)
    requires
        !elapsed.is_nan(),
        !elapsed.negative(),
        constant.is_finite(),
        at_most(num(SHORT_CONSTANT), constant),
    ensures
        ({
            let e = quotient(negated(smaller(elapsed, num(LONGEST_FRAME))), constant);
            at_most(num(MINUS_ELEVEN), e) && at_most(e, num(0))
        }),
{
    let time = smaller(elapsed, num(LONGEST_FRAME));
    lemma_counted_time(elapsed);
    lemma_zero_units();
    lemma_eleven();
    law_order_is_that_of_values(time, num(LONG_TIME));
    law_order_is_that_of_values(num(0), num(SHORT_CONSTANT));
    law_order_is_that_of_values(num(SHORT_CONSTANT), constant);
    law_quotient_monotone(time, constant, num(LONG_TIME), num(SHORT_CONSTANT));
    lemma_negated_quotient(time, constant);
}

/// The fastest time constant is not too short.
proof fn lemma_constant_bound(slow: Single, span: Single, sensitivity: Single)
    requires
        slow.is_finite(),
        span.is_finite(),
        !span.negative(),
        num(SHORT_CONSTANT).value() <= slow.value() - span.value(),
        !sensitivity.is_nan(),
    ensures
        at_most(
            num(SHORT_CONSTANT),
            time_constant(slow, span, limited(sensitivity, num(0), num(ONE))),
        ),
        time_constant(slow, span, limited(sensitivity, num(0), num(ONE))).is_finite(),
{
    lemma_zero_units();
    law_order_is_that_of_values(num(0), num(SHORT_CONSTANT));
    law_time_constant_range(slow, span, sensitivity);
    law_zero_adds_nothing(num(SHORT_CONSTANT), num(0));
    law_sum_monotone(num(SHORT_CONSTANT), num(0), slow, negated(span));
}

/// No frame, however long, has an exponent below -11, so no exponential of one is below
/// the least decay for which a value does not pass its target.
pub proof fn law_exponents_bounded(sensitivity: Single, elapsed: Single)
    requires
        !sensitivity.is_nan(),
        !elapsed.is_nan(),
        !elapsed.negative(),
    ensures
        ({
            let e = exponents(sensitivity, elapsed);
            &&& at_most(num(MINUS_ELEVEN), e.direction) && at_most(e.direction, num(0))
            &&& at_most(num(MINUS_ELEVEN), e.attack) && at_most(e.attack, num(0))
            &&& at_most(num(MINUS_ELEVEN), e.release) && at_most(e.release, num(0))
            &&& at_most(num(MINUS_ELEVEN), e.scale_attack) && at_most(e.scale_attack, num(0))
            &&& at_most(num(MINUS_ELEVEN), e.scale_release) && at_most(e.scale_release, num(0))
        }),
{
    let speed = limited(sensitivity, num(0), num(ONE));
    lemma_eleven();
    lemma_constant_bound(num(DIRECTION_SLOW), num(DIRECTION_SPAN), sensitivity);
    lemma_constant_bound(num(ATTACK_SLOW), num(ATTACK_SPAN), sensitivity);
    lemma_constant_bound(num(RELEASE_SLOW), num(RELEASE_SPAN), sensitivity);
    lemma_exponent_bound(
        elapsed,
        time_constant(num(DIRECTION_SLOW), num(DIRECTION_SPAN), speed),
    );
    lemma_exponent_bound(elapsed, time_constant(num(ATTACK_SLOW), num(ATTACK_SPAN), speed));
    lemma_exponent_bound(elapsed, time_constant(num(RELEASE_SLOW), num(RELEASE_SPAN), speed));
    lemma_exponent_bound(elapsed, num(SCALE_ATTACK));
    lemma_exponent_bound(elapsed, num(SCALE_RELEASE));
}

/// An exponential between -11 and 0: it is a decay there, and does not fall.
pub open spec fn is_exponential(exp: spec_fn(Single) -> Single) -> bool {
    &&& forall|x: Single|
        at_most(num(MINUS_ELEVEN), x) && at_most(x, num(0)) ==> is_decay(#[trigger] exp(x))
    &&& forall|x: Single, y: Single|
        at_most(num(MINUS_ELEVEN), x) && at_most(x, y) && at_most(y, num(0)) ==> at_most(
            #[trigger] exp(x),
            #[trigger] exp(y),
        )
}

/// What is left of the distances after a frame, for an exponential.
pub open spec fn decays(exp: spec_fn(Single) -> Single, e: Exponents) -> Decays {
    Decays {
        direction: exp(e.direction),
        attack: exp(e.attack),
        release: exp(e.release),
        scale_attack: exp(e.scale_attack),
        scale_release: exp(e.scale_release),
    }
}

/// A higher response speed leaves every band no farther from the sound: after a frame its
/// energy and its direction are no farther from their targets than with a lower speed.
pub proof fn law_higher_speed_ends_nearer(
    exp: spec_fn(Single) -> Single,
    low: Single,
    high: Single,
    elapsed: Single,
    energy: Single,
    new_energy: Single,
    direction: Single,
    new_direction: Single,
)
    requires
        is_exponential(exp),
        at_most(low, high),
        !elapsed.is_nan(),
        !elapsed.negative(),
        energy.is_finite(),
        new_energy.is_finite(),
        direction.is_finite(),
        new_direction.is_finite(),
        difference(new_energy, energy).is_finite(),
        difference(new_direction, direction).is_finite(),
    ensures
        ({
            let fast = decays(exp, exponents(high, elapsed));
            let slow = decays(exp, exponents(low, elapsed));
            &&& apart(eased_energy(energy, new_energy, fast).value(), new_energy.value()) <= apart(
                eased_energy(energy, new_energy, slow).value(),
                new_energy.value(),
            )
            &&& apart(
                eased(direction, new_direction, fast.direction).value(),
                new_direction.value(),
            ) <= apart(
                eased(direction, new_direction, slow.direction).value(),
                new_direction.value(),
            )
        }),
{
    law_higher_speed_lowers_exponents(low, high, elapsed);
    law_exponents_bounded(low, elapsed);
    law_exponents_bounded(high, elapsed);
    law_faster_response_ends_nearer(
        energy,
        new_energy,
        direction,
        new_direction,
        decays(exp, exponents(high, elapsed)),
        decays(exp, exponents(low, elapsed)),
    );
}

} // verus!
