//! A ball whose sound comes from neither side is in the middle of the strip.
use crate::layout::{aim, ball_range, ball_x, edges, tracks, Edges, MIN_TRACK_LENGTH};
use crate::number::constants::{EIGHTEEN, HALF, MINUS_ONE, ONE, SIXTEEN, TWO};
use crate::number::laws::{
    apart, law_exact_quotient, law_short_numbers_are_exact, law_sum_monotone,
    law_zero_adds_nothing, lemma_multiple_or_below, lemma_zero_product,
};
use crate::number::order::{
    law_order_is_that_of_values, lemma_nearest_exact, lemma_units_order, lemma_zero_units,
};
use crate::number::rounding::{lemma_nearest_scale, lemma_pow2_24, EXPONENT_STEP, INFINITY_BITS};
use crate::number::single::{
    at_most, difference, limited, negated, num, product, quotient, sum, units, Single, UNIT_SHIFT,
};
use crate::paint::center_x;
use crate::room::{
    lemma_between, lemma_constants, lemma_half_length, lemma_pixel_sum, lemma_whole_constant, pixel,
};
use crate::settings::{Placement, MAX_WIDTH, MIN_WIDTH};
use vstd::arithmetic::power2::{lemma2_to64, lemma_pow2_adds, lemma_pow2_pos, pow2};
use vstd::prelude::*;

verus! {

/// 36, what the two ends of the strip take from the tracks.
pub const BOTH_ENDS: u32 = 0x4210_0000;

/// 2^23, from which on every number is whole.
pub const WHOLE_FROM: u32 = 0x4b00_0000;

/// Half of a number that is not among the smallest is the number one exponent below.
proof fn lemma_half_units(mag: u32)
    requires
        2 * EXPONENT_STEP <= mag < INFINITY_BITS,
    ensures
        units(mag) == 2 * units((mag - EXPONENT_STEP as u32) as u32),
{
    reveal(units);
    let step = EXPONENT_STEP as nat;
    let half = (mag - EXPONENT_STEP as u32) as u32;
    vstd::arithmetic::div_mod::lemma_fundamental_div_mod(mag as int, step as int);
    vstd::arithmetic::div_mod::lemma_fundamental_div_mod_converse(
        half as int,
        step as int,
        mag as int / step as int - 1,
        mag as int % step as int,
    );
    let e = (mag as nat / step - 1) as nat;
    let m = mag as nat % step + step;
    vstd::arithmetic::power2::lemma_pow2_unfold(e);
    let p = pow2((e - 1) as nat);
    assert(m * (2 * p) == 2 * (m * p)) by (nonlinear_arith);
}

/// Halving a length of at least a pixel is exact.
proof fn lemma_halved(s: Single)
    requires
        s.is_finite(),
        pixel() <= s.value(),
    ensures
        quotient(s, num(TWO)).is_finite(),
        2 * quotient(s, num(TWO)).value() == s.value(),
{
    let one = pow2(UNIT_SHIFT as nat);
    lemma_constants();
    lemma_zero_units();
    lemma_pow2_24();
    lemma2_to64();
    lemma_pow2_adds(24, 125);
    assert(units((2 * EXPONENT_STEP) as u32) == 0x80_0000 * 2) by {
        reveal(units);
    }
    assert(s.magnitude() >= 2 * EXPONENT_STEP) by {
        lemma_pow2_pos(125);
        lemma_units_order(s.magnitude(), (2 * EXPONENT_STEP) as u32);
    }
    lemma_half_units(s.magnitude());
    let q = num((s.magnitude() - EXPONENT_STEP as u32) as u32);
    assert(s.size() * one == q.size() * (2 * one)) by (nonlinear_arith)
        requires
            s.size() == 2 * q.size(),
    ;
    law_exact_quotient(s, num(TWO), q);
}

/// The ends of the strip take 36 pixels.
pub proof fn lemma_both_ends()
    ensures
        product(num(EIGHTEEN), num(TWO)) == num(BOTH_ENDS),
        num(BOTH_ENDS).value() == 36 * pixel(),
        num(MIN_TRACK_LENGTH).value() == 80 * pixel(),
{
    let one = pow2(UNIT_SHIFT as nat);
    lemma2_to64();
    lemma_constants();
    lemma_whole_constant(BOTH_ENDS, 36, 18);
    lemma_whole_constant(MIN_TRACK_LENGTH, 80, 17);
    lemma_nearest_exact(BOTH_ENDS);
    lemma_nearest_scale(36 * one, 1, one);
    assert((18 * one) * (2 * one) == (36 * one) * one && 1 * one == one) by (nonlinear_arith);
    reveal(product);
}

/// A smaller ball may go at least as far as one of 16 pixels.
proof fn lemma_range_of_smaller(strip: Edges, r: Single)
    requires
        strip.left.is_finite(),
        strip.right.is_finite(),
        0 <= strip.left.value(),
        at_most(r, num(SIXTEEN)),
        sum(strip.left, num(SIXTEEN)).is_finite(),
        difference(strip.right, num(SIXTEEN)).is_finite(),
    ensures
        at_most(ball_range(strip, r).0, ball_range(strip, num(SIXTEEN)).0),
        at_most(ball_range(strip, num(SIXTEEN)).1, ball_range(strip, r).1),
{
    let x = strip.left;
    let most = num(SIXTEEN);
    let two = num(TWO);
    lemma_zero_units();
    law_sum_monotone(sum(x, most), two, sum(x, most), two);
    law_sum_monotone(
        difference(strip.right, most),
        negated(two),
        difference(strip.right, most),
        negated(two),
    );
    if !r.is_finite() {
        reveal(sum);
    } else {
        law_order_is_that_of_values(r, most);
        law_zero_adds_nothing(r, num(0));
        law_sum_monotone(r, num(0), x, r);
        law_sum_monotone(x, r, x, most);
        lemma_between(sum(r, num(0)), sum(x, r), sum(x, most));
        law_sum_monotone(sum(x, r), two, sum(x, most), two);
        let b = difference(strip.right, r);
        law_sum_monotone(strip.right, negated(most), strip.right, negated(r));
        if b.is_finite() {
            law_order_is_that_of_values(difference(strip.right, most), b);
            law_sum_monotone(difference(strip.right, most), negated(two), b, negated(two));
        } else {
            reveal(sum);
        }
    }
}

/// From 2^22 pixels on, a number is a multiple of half a pixel.
proof fn lemma_half_pixels(s: Single) -> (k: nat)
    requires
        s.is_finite(),
        0x40_0000 * pixel() <= s.value(),
    ensures
        2 * s.value() == k * pixel(),
{
    lemma_constants();
    lemma2_to64();
    lemma_pow2_adds(1, 148);
    let k = lemma_multiple_or_below(s.magnitude(), 148);
    assert(2 * (k * pow2(148)) == k * (2 * pow2(148))) by (nonlinear_arith);
    k
}

/// From 2^23 pixels on, a number is a multiple of a pixel.
proof fn lemma_whole_pixels(s: Single) -> (k: nat)
    requires
        s.is_finite(),
        0x80_0000 * pixel() <= s.value(),
    ensures
        s.value() == k * pixel(),
{
    lemma_constants();
    lemma_multiple_or_below(s.magnitude(), UNIT_SHIFT as nat)
}

/// Multiples that are less than `n` apart are less than `n` steps apart.
proof fn lemma_steps_apart(i: nat, j: nat, p: int, n: int)
    requires
        p > 0,
        apart(i * p, j * p) < n * p,
    ensures
        apart(i * p, j * p) <= (n - 1) * p,
{
    if i >= j {
        assert(i - j <= n - 1 && (i - j) * p <= (n - 1) * p && (i - j) * p == i * p - j * p)
            by (nonlinear_arith)
            requires
                p > 0,
                i * p - j * p < n * p,
        ;
    } else {
        assert(j - i <= n - 1 && (j - i) * p <= (n - 1) * p && (j - i) * p == j * p - i * p)
            by (nonlinear_arith)
            requires
                p > 0,
                j * p - i * p < n * p,
        ;
    }
}

/// Sums of 2^23 and of 2^24 pixels and more stay there.
proof fn lemma_sum_stays(a: Single, b: Single)
    requires
        a.is_finite(),
        b.is_finite(),
        sum(a, b).is_finite(),
    ensures
        0x80_0000 * pixel() <= a.value() + b.value() ==> 0x80_0000 * pixel() <= sum(a, b).value(),
        0x100_0000 * pixel() <= a.value() + b.value() ==> 0x100_0000 * pixel() <= sum(
            a,
            b,
        ).value(),
{
    let w = num(WHOLE_FROM);
    lemma2_to64();
    lemma_zero_units();
    lemma_whole_constant(WHOLE_FROM, 0x80_0000, 0);
    law_zero_adds_nothing(w, num(0));
    if 0x80_0000 * pixel() <= a.value() + b.value() {
        law_sum_monotone(w, num(0), a, b);
        law_order_is_that_of_values(sum(w, num(0)), sum(a, b));
    }
    if 0x100_0000 * pixel() <= a.value() + b.value() {
        lemma_pow2_24();
        lemma_pow2_adds(1, UNIT_SHIFT as nat);
        law_short_numbers_are_exact(0x80_0000, 150);
        lemma_constants();
        assert(sum(w, w).is_finite() && sum(w, w).value() == 0x100_0000 * pixel()) by {
            reveal(sum);
        }
        law_sum_monotone(w, w, a, b);
        law_order_is_that_of_values(sum(w, w), sum(a, b));
    }
}

/// Where a ball aims whose sound comes from neither side.
proof fn lemma_middle_aim(p: Placement, shown: nat, d: Single)
    requires
        p.x.is_finite(),
        p.width.is_finite(),
        0 <= p.x.value(),
        280 * pixel() <= p.width.value() <= 1600 * pixel(),
        p.x.value() + p.width.value() < 0x100_0000 * pixel(),
        d.is_zero(),
    ensures
        ({
            let a = aim(tracks(p, shown), d);
            let error = apart(2 * a.value(), 2 * p.x.value() + p.width.value());
            let left_is_fine = p.x.value() + 18 * pixel() < 0x80_0000 * pixel();
            &&& a.is_finite()
            &&& 8 * error <= 17 * pixel()
            &&& left_is_fine ==> 8 * error <= 13 * pixel()
            &&& left_is_fine && a.value() < 0x80_0000 * pixel() ==> 8 * error <= 9 * pixel()
            &&& p.x.value() + p.width.value() < 0x80_0000 * pixel() ==> 8 * error <= 9 * pixel()
        }),
{
    let t = tracks(p, shown);
    lemma_constants();
    lemma_zero_units();
    lemma_both_ends();
    // a direction of zero is half the track
    let c = limited(d, num(MINUS_ONE), num(ONE));
    assert(c == d);
    lemma_zero_product(num(HALF), d);
    law_zero_adds_nothing(num(HALF), product(num(HALF), d));
    // the track is as long as the strip, less its ends
    let rest = difference(p.width, num(BOTH_ENDS));
    lemma_pixel_sum(p.width, negated(num(BOTH_ENDS)));
    law_order_is_that_of_values(num(MIN_TRACK_LENGTH), rest);
    assert(t.length == rest);
    lemma_half_length(rest);
    lemma_pixel_sum(p.x, num(EIGHTEEN));
    lemma_pixel_sum(t.left, product(rest, num(HALF)));
    lemma_sum_stays(t.left, product(rest, num(HALF)));
}

/// On a strip that ends beyond 2^23 pixels, a ball whose sound comes from neither side aims
/// at most a pixel away from the middle line.
proof fn lemma_far_middle(p: Placement, shown: nat, d: Single)
    requires
        p.x.is_finite(),
        p.width.is_finite(),
        0 <= p.x.value(),
        280 * pixel() <= p.width.value() <= 1600 * pixel(),
        0x80_0000 * pixel() <= p.x.value() + p.width.value() < 0x100_0000 * pixel(),
        d.is_zero(),
    ensures
        apart(
            aim(tracks(p, shown), d).value(),
            center_x(edges(p.x, p.y, p.width, p.height)).value(),
        ) <= pixel(),
{
    let strip = edges(p.x, p.y, p.width, p.height);
    let a = aim(tracks(p, shown), d);
    let middle = center_x(strip);
    let both = sum(p.x, strip.right);
    lemma_constants();
    lemma_middle_aim(p, shown, d);
    lemma_pixel_sum(p.x, p.width);
    lemma_pixel_sum(p.x, strip.right);
    lemma_sum_stays(p.x, strip.right);
    lemma_halved(both);
    let i = lemma_half_pixels(a);
    let j = lemma_half_pixels(middle);
    if 0x100_0000 * pixel() <= both.value() && 0x80_0000 * pixel() <= a.value() {
        let k = lemma_whole_pixels(a);
        let l = lemma_whole_pixels(middle);
        lemma_steps_apart(k, l, pixel() as int, 2);
    } else {
        lemma_steps_apart(i, j, pixel() as int, 3);
    }
}

/// The ends of the strip do not hold back a ball whose sound comes from neither side.
proof fn lemma_not_held_back(p: Placement, shown: nat, d: Single, r: Single)
    requires
        p.x.is_finite(),
        p.width.is_finite(),
        0 <= p.x.value(),
        280 * pixel() <= p.width.value() <= 1600 * pixel(),
        p.x.value() + p.width.value() < 0x100_0000 * pixel(),
        d.is_zero(),
        at_most(r, num(SIXTEEN)),
    ensures
        ball_x(edges(p.x, p.y, p.width, p.height), tracks(p, shown), d, r) == aim(
            tracks(p, shown),
            d,
        ),
{
    let strip = edges(p.x, p.y, p.width, p.height);
    let a = aim(tracks(p, shown), d);
    let most = num(SIXTEEN);
    lemma_constants();
    lemma_middle_aim(p, shown, d);
    lemma_pixel_sum(p.x, p.width);
    lemma_pixel_sum(p.x, most);
    lemma_pixel_sum(sum(p.x, most), num(TWO));
    lemma_pixel_sum(strip.right, negated(most));
    lemma_pixel_sum(difference(strip.right, most), negated(num(TWO)));
    lemma_range_of_smaller(strip, r);
    law_order_is_that_of_values(ball_range(strip, most).0, a);
    law_order_is_that_of_values(a, ball_range(strip, most).1);
}

/// A ball whose sound comes from neither side is in the middle of the strip: less than a
/// pixel from the middle line where the strip ends below 2^23 pixels, and at most a pixel
/// where it ends below 2^24, where numbers are a pixel apart. There a ball can be a whole
/// pixel off, such as on a strip of 281.4 pixels that starts at 2^23.
pub proof fn law_ball_in_the_middle(p: Placement, shown: nat, d: Single, r: Single)
    requires
        p.x.is_finite(),
        0 <= p.x.value(),
        at_most(num(MIN_WIDTH), p.width),
        at_most(p.width, num(MAX_WIDTH)),
        p.x.value() + p.width.value() < 0x100_0000 * pixel(),
        d.is_zero(),
        at_most(r, num(SIXTEEN)),
    ensures
        ({
            let strip = edges(p.x, p.y, p.width, p.height);
            let ball = ball_x(strip, tracks(p, shown), d, r);
            let middle = center_x(strip);
            &&& ball.is_finite()
            &&& middle.is_finite()
            &&& apart(ball.value(), middle.value()) <= pixel()
            &&& p.x.value() + p.width.value() < 0x80_0000 * pixel() ==> apart(
                ball.value(),
                middle.value(),
            ) < pixel()
        }),
{
    let strip = edges(p.x, p.y, p.width, p.height);
    lemma_constants();
    lemma_between(num(MIN_WIDTH), p.width, num(MAX_WIDTH));
    lemma_middle_aim(p, shown, d);
    lemma_not_held_back(p, shown, d, r);
    if 0x80_0000 * pixel() <= p.x.value() + p.width.value() {
        lemma_far_middle(p, shown, d);
    }
    lemma_pixel_sum(p.x, p.width);
    lemma_pixel_sum(p.x, strip.right);
    lemma_halved(sum(p.x, strip.right));
}

} // verus!
