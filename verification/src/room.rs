//! Balls follow the sound and never leave the strip.
use crate::layout::{
    aim, ball_radius, ball_range, ball_x, edges, law_ball_within_track, share, track_line,
    track_top, tracks, Edges, Tracks, MAX_TRACK,
};
use crate::levels::BANDS;
use crate::number::constants::{
    EIGHT, EIGHTEEN, FOUR, HALF, MINUS_ONE, ONE, SIXTEEN, TWELVE, TWO,
};
use crate::number::laws::{
    apart, law_product_monotone, law_self_difference, law_short_numbers_are_exact,
    law_small_loss_is_lost, law_small_term_is_lost, law_sum_error,
    law_sum_monotone, law_zero_adds_nothing, lemma_times_one,
};
use crate::number::order::{
    law_order_is_that_of_values, lemma_nearest_error, lemma_nearest_exact, lemma_units_order,
    lemma_zero_units,
};
use crate::number::pack::lemma_pow2_le;
use crate::number::rounding::{
    lemma_nearest_scale, lemma_nearest_zero, lemma_pow2_24, nearest, EXPONENT_STEP, INFINITY_BITS,
};
use crate::number::single::{
    at_most, difference, larger, limited, negated, num, of_whole, product, quotient, signed, sum,
    units, Single, UNIT_SHIFT,
};
use crate::paint::Scene;
use crate::settings::{
    at_least_zero, law_placed_within_bounds, placed, Placement, MAX_HEIGHT, MAX_WIDTH, MIN_HEIGHT,
    MIN_WIDTH,
};
use vstd::arithmetic::power2::{lemma2_to64, lemma_pow2_adds, lemma_pow2_pos, pow2};
use vstd::prelude::*;

verus! {

/// 536870912, from which on numbers are 64 apart.
pub const FAR: u32 = 0x4e00_0000;

/// 536870976, the number after it.
pub const NEXT_FAR: u32 = 0x4e00_0001;

/// Units in one pixel.
pub open spec fn pixel() -> int {
    pow2(UNIT_SHIFT as nat) as int
}

/// A whole constant in units: its bits hold the significand `c * 2^s`.
pub proof fn lemma_whole_constant(bits: u32, c: nat, s: nat)
    requires
        EXPONENT_STEP <= bits < INFINITY_BITS,
        s <= UNIT_SHIFT,
        bits as nat % EXPONENT_STEP as nat + EXPONENT_STEP as nat == c * pow2(s),
        bits as nat / EXPONENT_STEP as nat - 1 + s == UNIT_SHIFT,
    ensures
        num(bits).value() == c * pixel(),
        num(bits).is_finite(),
{
    reveal(units);
    let e = (UNIT_SHIFT - s) as nat;
    lemma_pow2_adds(s, e);
    assert((c * pow2(s)) * pow2(e) == c * (pow2(s) * pow2(e))) by (nonlinear_arith);
}

/// The constants of the layout, in pixels.
pub proof fn lemma_constants()
    ensures
        num(TWO).value() == 2 * pixel(),
        num(SIXTEEN).value() == 16 * pixel(),
        num(EIGHTEEN).value() == 18 * pixel(),
        num(MIN_WIDTH).value() == 280 * pixel(),
        num(MAX_WIDTH).value() == 1600 * pixel(),
        pixel() > 0,
{
    lemma2_to64();
    lemma_pow2_pos(UNIT_SHIFT as nat);
    lemma_whole_constant(TWO, 2, 22);
    lemma_whole_constant(SIXTEEN, 16, 19);
    lemma_whole_constant(EIGHTEEN, 18, 19);
    lemma_whole_constant(MIN_WIDTH, 280, 15);
    lemma_whole_constant(MAX_WIDTH, 1600, 13);
}

/// By how much a sum is off: at most 32 pixels below 2^30 pixels, one below 2^25, half of
/// one below 2^24, a quarter of one below 2^23, and a sixteenth of one below 2^21.
pub proof fn lemma_pixel_sum(a: Single, b: Single)
    requires
        a.is_finite(),
        b.is_finite(),
        apart(a.value() + b.value(), 0) < 0x4000_0000 * pixel(),
    ensures
        ({
            let exact = a.value() + b.value();
            let error = apart(sum(a, b).value(), exact);
            &&& sum(a, b).is_finite()
            &&& error <= 32 * pixel()
            &&& apart(exact, 0) < 0x200_0000 * pixel() ==> error <= pixel()
            &&& apart(exact, 0) < 0x100_0000 * pixel() ==> 2 * error <= pixel()
            &&& apart(exact, 0) < 0x80_0000 * pixel() ==> 4 * error <= pixel()
            &&& apart(exact, 0) < 0x20_0000 * pixel() ==> 16 * error <= pixel()
        }),
{
    let exact = a.value() + b.value();
    lemma2_to64();
    lemma_pow2_adds(30, UNIT_SHIFT as nat);
    lemma_pow2_adds(6, UNIT_SHIFT as nat);
    law_sum_error(a, b, 155);
    if apart(exact, 0) < 0x200_0000 * pixel() {
        lemma_pow2_adds(25, UNIT_SHIFT as nat);
        lemma_pow2_adds(1, UNIT_SHIFT as nat);
        law_sum_error(a, b, 150);
    }
    if apart(exact, 0) < 0x100_0000 * pixel() {
        lemma_pow2_adds(24, UNIT_SHIFT as nat);
        law_sum_error(a, b, 149);
    }
    if apart(exact, 0) < 0x80_0000 * pixel() {
        lemma_pow2_adds(23, UNIT_SHIFT as nat);
        lemma_pow2_adds(1, 148);
        law_sum_error(a, b, 148);
    }
    if apart(exact, 0) < 0x20_0000 * pixel() {
        lemma_pow2_adds(21, UNIT_SHIFT as nat);
        lemma_pow2_adds(3, 146);
        law_sum_error(a, b, 146);
    }
}

/// There is room at a place up to 2^29 pixels away.
proof fn lemma_room_near(strip: Edges, width: Single, r: Single)
    requires
        strip.left.is_finite(),
        strip.right == sum(strip.left, width),
        width.is_finite(),
        r.is_finite(),
        0 <= strip.left.value() <= 0x2000_0000 * pixel(),
        280 * pixel() <= width.value() <= 1600 * pixel(),
        0 <= r.value() <= 16 * pixel(),
    ensures
        at_most(ball_range(strip, r).0, ball_range(strip, r).1),
{
    lemma_constants();
    lemma_pixel_sum(strip.left, width);
    lemma_pixel_sum(strip.left, r);
    let a = sum(strip.left, r);
    lemma_pixel_sum(a, num(TWO));
    lemma_pixel_sum(strip.right, negated(r));
    let b = difference(strip.right, r);
    lemma_pixel_sum(b, negated(num(TWO)));
    law_order_is_that_of_values(sum(a, num(TWO)), difference(b, num(TWO)));
}

/// So far away, numbers are so coarse that a ball's radius is lost in them.
proof fn lemma_far(v: Single, r: Single)
    requires
        v.is_finite(),
        r.is_finite(),
        0x2000_0000 * pixel() <= v.value(),
        0 <= r.value() <= 16 * pixel(),
    ensures
        sum(v, r) == v,
        0x2000_0000 * pixel() < v.value() ==> difference(v, r) == v,
{
    lemma_constants();
    lemma_zero_units();
    lemma_units_order(0, r.magnitude());
    if r.is_zero() {
        law_zero_adds_nothing(v, r);
        law_zero_adds_nothing(v, negated(r));
    } else {
        lemma_pow2_24();
        lemma2_to64();
        lemma_pow2_adds(23, 155);
        lemma_pow2_adds(29, UNIT_SHIFT as nat);
        lemma_pow2_adds(6, UNIT_SHIFT as nat);
        lemma_pow2_adds(7, UNIT_SHIFT as nat);
        assert(num(FAR).value() == 0x2000_0000 * pixel()) by {
            reveal(units);
        }
        lemma_units_order(FAR, v.magnitude());
        let e = (v.magnitude() as nat / EXPONENT_STEP as nat - 1) as nat;
        lemma_pow2_le(155, e);
        law_small_term_is_lost(v, r);
        if 0x2000_0000 * pixel() < v.value() {
            if v.magnitude() as nat % EXPONENT_STEP as nat == 0 {
                lemma_pow2_le(156, e);
            }
            law_small_loss_is_lost(v, r);
        }
    }
}

/// There is room further away too, where the ball's radius is lost.
proof fn lemma_room_far(strip: Edges, width: Single, r: Single)
    requires
        strip.left.is_finite(),
        strip.right == sum(strip.left, width),
        width.is_finite(),
        r.is_finite(),
        0x2000_0000 * pixel() <= strip.left.value(),
        280 * pixel() <= width.value() <= 1600 * pixel(),
        0 <= r.value() <= 16 * pixel(),
    ensures
        at_most(ball_range(strip, r).0, ball_range(strip, r).1),
{
    let x = strip.left;
    lemma_constants();
    lemma_zero_units();
    lemma_far(x, r);
    lemma_far(x, num(TWO));
    law_sum_monotone(x, num(0), x, width);
    law_zero_adds_nothing(x, num(0));
    if strip.right.is_finite() {
        law_order_is_that_of_values(x, strip.right);
        assert(0x2000_0000 * pixel() < strip.right.value()) by {
            lemma_next_far(x, width);
        }
        lemma_far(strip.right, r);
        lemma_far(strip.right, num(TWO));
    } else {
        assert(ball_range(strip, r).1 == strip.right) by {
            reveal(sum);
        }
    }
}

/// A strip that starts 2^29 pixels away or more ends further away.
proof fn lemma_next_far(x: Single, width: Single)
    requires
        x.is_finite(),
        width.is_finite(),
        0x2000_0000 * pixel() <= x.value(),
        280 * pixel() <= width.value(),
        sum(x, width).is_finite(),
    ensures
        0x2000_0000 * pixel() < sum(x, width).value(),
{
    lemma_constants();
    lemma_pow2_24();
    lemma2_to64();
    lemma_pow2_adds(23, 155);
    lemma_pow2_adds(29, UNIT_SHIFT as nat);
    lemma_pow2_adds(6, UNIT_SHIFT as nat);
    let next = num(NEXT_FAR);
    assert(next.value() == 0x80_0001 * pow2(155)) by {
        reveal(units);
    }
    lemma_zero_units();
    law_zero_adds_nothing(next, num(0));
    law_sum_monotone(next, num(0), x, width);
    law_order_is_that_of_values(next, sum(x, width));
}

/// A ball on a strip that is wide enough has room, wherever the strip is on the screen.
pub proof fn law_ball_has_room(x: Single, y: Single, width: Single, height: Single, r: Single)
    requires
        x.is_finite(),
        width.is_finite(),
        0 <= x.value(),
        280 * pixel() <= width.value() <= 1600 * pixel(),
        at_most(r, num(SIXTEEN)),
    ensures
        ({
            let range = ball_range(edges(x, y, width, height), r);
            at_most(range.0, range.1)
        }),
{
    let strip = edges(x, y, width, height);
    lemma_constants();
    lemma_zero_units();
    let least = if r.rank() < 0 {
        num(0)
    } else {
        r
    };
    law_order_is_that_of_values(num(0), least);
    law_order_is_that_of_values(least, num(SIXTEEN));
    if x.value() <= 0x2000_0000 * pixel() {
        lemma_room_near(strip, width, least);
    } else {
        lemma_room_far(strip, width, least);
    }
    if r.rank() < 0 {
        law_sum_monotone(num(0), num(0), x, width);
        law_zero_adds_nothing(num(0), num(0));
        law_order_is_that_of_values(num(0), sum(num(0), num(0)));
        lemma_room_for_less(strip, r);
    }
}

/// Where there is room for a ball of no size, there is for one of a negative size.
proof fn lemma_room_for_less(strip: Edges, r: Single)
    requires
        strip.left.is_finite(),
        0 <= strip.left.value(),
        !strip.right.is_nan(),
        0 <= strip.right.rank(),
        !r.is_nan(),
        r.rank() < 0,
        at_most(ball_range(strip, num(0)).0, ball_range(strip, num(0)).1),
    ensures
        at_most(ball_range(strip, r).0, ball_range(strip, r).1),
{
    let x = strip.left;
    let two = num(TWO);
    lemma_constants();
    lemma_zero_units();
    if !r.is_finite() {
        reveal(sum);
    } else {
        law_order_is_that_of_values(r, num(0));
        law_zero_adds_nothing(x, num(0));
        law_zero_adds_nothing(r, num(0));
        law_sum_monotone(r, num(0), x, r);
        law_sum_monotone(x, r, x, num(0));
        let a = sum(x, r);
        lemma_between(sum(r, num(0)), a, sum(x, num(0)));
        law_sum_monotone(a, two, sum(x, num(0)), two);
        if strip.right.is_finite() {
            let b = difference(strip.right, r);
            let c = difference(strip.right, num(0));
            law_zero_adds_nothing(strip.right, negated(num(0)));
            law_sum_monotone(strip.right, negated(num(0)), strip.right, negated(r));
            if b.is_finite() {
                law_order_is_that_of_values(c, b);
                law_sum_monotone(c, negated(two), b, negated(two));
            } else {
                reveal(sum);
            }
        } else {
            reveal(sum);
        }
    }
}

/// A ball stays on the strip: wherever the sound comes from, the disc is neither to
/// the left of the strip's left edge nor to the right of its right edge. This is of
/// places below 2^25 pixels, where numbers are no coarser than the margin of two pixels.
pub proof fn law_ball_stays_on_strip(strip: Edges, t: Tracks, direction: Single, r: Single)
    requires
        strip.left.is_finite(),
        strip.right.is_finite(),
        r.is_finite(),
        0 <= strip.left.value() < (0x200_0000 - 19) * pixel(),
        0 <= strip.right.value() < 0x200_0000 * pixel(),
        0 <= r.value() <= 16 * pixel(),
        at_most(ball_range(strip, r).0, ball_range(strip, r).1),
        !ball_x(strip, t, direction, r).is_nan(),
    ensures
        ball_x(strip, t, direction, r).is_finite(),
        strip.left.value() <= ball_x(strip, t, direction, r).value() - r.value(),
        ball_x(strip, t, direction, r).value() + r.value() <= strip.right.value(),
{
    lemma_constants();
    lemma_pixel_sum(strip.left, r);
    let a = sum(strip.left, r);
    lemma_pixel_sum(a, num(TWO));
    lemma_pixel_sum(strip.right, negated(r));
    let b = difference(strip.right, r);
    lemma_pixel_sum(b, negated(num(TWO)));
    let x = ball_x(strip, t, direction, r);
    let range = ball_range(strip, r);
    assert(range.0.rank() <= x.rank() <= range.1.rank());
    law_order_is_that_of_values(range.0, x);
    law_order_is_that_of_values(x, range.1);
}

/// A number between two finite ones is finite.
pub proof fn lemma_between(lo: Single, a: Single, hi: Single)
    requires
        lo.is_finite(),
        hi.is_finite(),
        at_most(lo, a),
        at_most(a, hi),
    ensures
        a.is_finite(),
        lo.value() <= a.value() <= hi.value(),
{
    law_order_is_that_of_values(lo, a);
    law_order_is_that_of_values(a, hi);
}

/// What a direction makes of the length of a track: a share from 0 to 1.
pub proof fn lemma_track_share(d: Single) -> (s: Single)
    requires
        !d.is_nan(),
    ensures
        s == sum(num(HALF), product(num(HALF), limited(d, num(MINUS_ONE), num(ONE)))),
        s.is_finite(),
        num(0).value() <= s.value() <= num(ONE).value(),
        at_most(
            product(num(HALF), num(MINUS_ONE)),
            product(num(HALF), limited(d, num(MINUS_ONE), num(ONE))),
        ),
        product(num(HALF), limited(d, num(MINUS_ONE), num(ONE))).is_finite(),
{
    let c = limited(d, num(MINUS_ONE), num(ONE));
    let p = product(num(HALF), c);
    let s = sum(num(HALF), p);
    lemma_between(num(MINUS_ONE), c, num(ONE));
    law_product_monotone(num(HALF), num(MINUS_ONE), c);
    law_product_monotone(num(HALF), c, num(ONE));
    lemma_times_one(num(HALF));
    lemma_between(negated(num(HALF)), p, num(HALF));
    law_sum_monotone(num(HALF), negated(num(HALF)), num(HALF), p);
    law_sum_monotone(num(HALF), p, num(HALF), num(HALF));
    law_self_difference(num(HALF));
    lemma_halves();
    lemma_between(num(0), s, num(ONE));
    s
}

/// Two halves make one.
pub proof fn lemma_halves()
    ensures
        sum(num(HALF), num(HALF)) == num(ONE),
        num(HALF).value() > 0,
{
    reveal(units);
    lemma_pow2_24();
    lemma_pow2_pos(125);
    lemma_pow2_adds(23, 125);
    vstd::arithmetic::power2::lemma_pow2_unfold(126);
    lemma_pow2_adds(23, 126);
    assert(units(HALF) == 0x80_0000 * pow2(125));
    assert(units(ONE) == 0x80_0000 * pow2(126));
    lemma_nearest_exact(ONE);
    reveal(sum);
}

/// The ball follows the sound: the further to the right it comes from, the further to
/// the right is the ball, as far as the strip reaches.
pub proof fn law_ball_follows_direction(
    strip: Edges,
    t: Tracks,
    d: Single,
    e: Single,
    r: Single,
)
    requires
        at_most(d, e),
        t.left.is_finite(),
        t.length.is_finite(),
        !t.length.negative(),
        at_most(ball_range(strip, r).0, ball_range(strip, r).1),
    ensures
        at_most(ball_x(strip, t, d, r), ball_x(strip, t, e, r)),
{
    let s = lemma_track_share(d);
    let u = lemma_track_share(e);
    let cd = limited(d, num(MINUS_ONE), num(ONE));
    let ce = limited(e, num(MINUS_ONE), num(ONE));
    lemma_between(num(MINUS_ONE), cd, num(ONE));
    lemma_between(num(MINUS_ONE), ce, num(ONE));
    law_order_is_that_of_values(cd, ce);
    law_product_monotone(num(HALF), cd, ce);
    let pd = product(num(HALF), cd);
    let pe = product(num(HALF), ce);
    law_order_is_that_of_values(pd, pe);
    law_sum_monotone(num(HALF), pd, num(HALF), pe);
    law_order_is_that_of_values(s, u);
    law_product_monotone(t.length, s, u);
    // both products lie between nothing and the length of the track
    law_product_monotone(t.length, num(0), s);
    law_product_monotone(t.length, u, num(ONE));
    lemma_times_one(t.length);
    lemma_times_nothing(t.length);
    let x = product(t.length, s);
    let y = product(t.length, u);
    assert(num(0).rank() <= x.rank() <= y.rank() <= t.length.rank());
    lemma_between(num(0), x, t.length);
    lemma_between(num(0), y, t.length);
    law_order_is_that_of_values(x, y);
    law_sum_monotone(t.left, x, t.left, y);
    assert(at_most(aim(t, d), aim(t, e)));
}

/// A number that is not negative times nothing is nothing.
proof fn lemma_times_nothing(a: Single)
    requires
        a.is_finite(),
        !a.negative(),
    ensures
        product(a, num(0)) == num(0),
{
    lemma_zero_units();
    lemma_pow2_pos(UNIT_SHIFT as nat);
    lemma_nearest_zero(pow2(UNIT_SHIFT as nat));
    assert(a.size() * 0 == 0) by (nonlinear_arith);
    reveal(product);
}

/// A ball is no larger than 16 pixels, whatever its size is set to.
proof fn lemma_ball_radius(p: Placement, shown: nat, part: Single, ball_size: Single)
    ensures
        at_most(
            ball_radius(part, ball_size, tracks(p, shown).max_radius),
            num(SIXTEEN),
        ),
{
    lemma_constants();
    lemma_zero_units();
    assert(difference(num(EIGHTEEN), num(TWO)) == num(SIXTEEN)) by {
        lemma_nearest_exact(SIXTEEN);
        reveal(sum);
    }
    let m = tracks(p, shown).max_radius;
    assert(at_most(num(TWO), m) && at_most(m, num(SIXTEEN)));
}

/// The constants of the tracks, in pixels.
pub proof fn lemma_track_constants()
    ensures
        num(FOUR).value() == 4 * pixel(),
        num(EIGHT).value() == 8 * pixel(),
        num(TWELVE).value() == 12 * pixel(),
        num(MAX_TRACK).value() == 36 * pixel(),
        num(MIN_HEIGHT).value() == 60 * pixel(),
        num(MAX_HEIGHT).value() == 240 * pixel(),
{
    lemma2_to64();
    lemma_whole_constant(FOUR, 4, 21);
    lemma_whole_constant(EIGHT, 8, 20);
    lemma_whole_constant(TWELVE, 12, 20);
    lemma_whole_constant(MAX_TRACK, 36, 18);
    lemma_whole_constant(MIN_HEIGHT, 60, 18);
    lemma_whole_constant(MAX_HEIGHT, 240, 16);
}

/// A small whole number of pixels is stated exactly.
pub proof fn lemma_whole_pixels(k: nat)
    requires
        k <= 0x100_0000,
    ensures
        of_whole(k).is_finite(),
        of_whole(k).value() == k * pixel(),
        !of_whole(k).negative(),
{
    law_short_numbers_are_exact(k, UNIT_SHIFT as nat);
    reveal(of_whole);
}

/// The gaps between tracks are stated exactly.
pub proof fn lemma_gaps(k: nat)
    requires
        k <= 3,
    ensures
        product(of_whole(k), num(FOUR)).is_finite(),
        product(of_whole(k), num(FOUR)).value() == 4 * k * pixel(),
{
    let one = pow2(UNIT_SHIFT as nat);
    lemma_pow2_pos(UNIT_SHIFT as nat);
    lemma_track_constants();
    lemma_whole_pixels(k);
    law_short_numbers_are_exact(4 * k, UNIT_SHIFT as nat);
    lemma_nearest_scale((4 * k) * one, 1, one);
    assert((k * one) * (4 * one) == ((4 * k) * one) * one && 1 * one == one) by (nonlinear_arith);
    assert(4 * k * one == (4 * k) * one) by (nonlinear_arith);
    reveal(product);
}

/// A length of less than 256 pixels a part, divided into parts, is off by no more than
/// a sixteenth of a pixel in all.
pub proof fn lemma_parts(a: Single, c: nat)
    requires
        a.is_finite(),
        !a.negative(),
        1 <= c <= 4,
        a.value() < 256 * pixel(),
    ensures
        quotient(a, of_whole(c)).is_finite(),
        !quotient(a, of_whole(c)).negative(),
        16 * apart(quotient(a, of_whole(c)).value() * c, a.value()) <= pixel(),
{
    let one = pow2(UNIT_SHIFT as nat);
    lemma_pow2_pos(UNIT_SHIFT as nat);
    lemma_whole_pixels(c);
    lemma_zero_units();
    assert(c * one > 0) by (nonlinear_arith)
        requires
            c >= 1,
            one > 0,
    ;
    let n = a.size();
    lemma_nearest_scale(n, c, one);
    lemma2_to64();
    lemma_pow2_adds(8, UNIT_SHIFT as nat);
    lemma_pow2_adds(16, 133);
    assert(n < c * pow2(157)) by (nonlinear_arith)
        requires
            n < pow2(157),
            c >= 1,
    ;
    lemma_nearest_error(n, c, 133);
    let q = nearest(n, c);
    assert(c * pow2(133) <= 4 * pow2(133)) by (nonlinear_arith)
        requires
            c <= 4,
    ;
    assert(quotient(a, of_whole(c)) == signed(false, q)) by {
        reveal(quotient);
    }
    assert(units(q) * c == signed(false, q).value() * c);
}

/// All tracks and the gaps between them together are at least 16 pixels lower than the
/// strip.
proof fn lemma_track_height(p: Placement, shown: nat)
    requires
        p.height.is_finite(),
        60 * pixel() <= p.height.value() <= 240 * pixel(),
        shown <= 4,
    ensures
        ({
            let h = tracks(p, shown).height;
            let c: int = if shown < 1 {
                1
            } else {
                shown as int
            };
            &&& h.is_finite()
            &&& 8 * pixel() <= h.value() <= 36 * pixel()
            &&& c * h.value() + 4 * (c - 1) * pixel() + 16 * pixel() <= p.height.value()
        }),
{
    let px = pixel();
    let c: nat = if shown < 1 {
        1
    } else {
        shown
    };
    lemma_constants();
    lemma_track_constants();
    lemma_zero_units();
    lemma_pixel_sum(p.height, negated(num(TWELVE)));
    let less_top = difference(p.height, num(TWELVE));
    lemma_pixel_sum(less_top, negated(num(TWELVE)));
    let both = difference(less_top, num(TWELVE));
    law_order_is_that_of_values(num(SIXTEEN), both);
    let inner = larger(both, num(SIXTEEN));
    assert(inner == both);
    let gaps = product(of_whole((c - 1) as nat), num(FOUR));
    lemma_gaps((c - 1) as nat);
    assert(0 <= 4 * (c - 1) * px <= 12 * px) by (nonlinear_arith)
        requires
            1 <= c <= 4,
            px > 0,
    ;
    lemma_pixel_sum(inner, negated(gaps));
    let rest = difference(inner, gaps);
    assert(rest.value() > 0);
    lemma_parts(rest, c);
    let part = quotient(rest, of_whole(c));
    let h = tracks(p, shown).height;
    assert(h == limited(part, num(EIGHT), num(MAX_TRACK)));
    law_order_is_that_of_values(num(EIGHT), part);
    law_order_is_that_of_values(part, num(MAX_TRACK));
    if part.value() < 8 * px {
        assert(c * (8 * px) + 4 * (c - 1) * px <= 44 * px) by (nonlinear_arith)
            requires
                1 <= c <= 4,
                px > 0,
        ;
    } else {
        assert(c * h.value() <= part.value() * c) by (nonlinear_arith)
            requires
                h.value() <= part.value(),
                c >= 1,
        ;
    }
}

/// Where the top of a track is, to about two pixels.
proof fn lemma_track_top(p: Placement, shown: nat, k: nat)
    requires
        p.y.is_finite(),
        0 <= p.y.value() <= (0x100_0000 - 256) * pixel(),
        p.height.is_finite(),
        60 * pixel() <= p.height.value() <= 240 * pixel(),
        shown <= 4,
        k <= 3,
    ensures
        ({
            let t = tracks(p, shown);
            &&& track_top(t, k).is_finite()
            &&& 16 * apart(
                track_top(t, k).value(),
                p.y.value() + 12 * pixel() + k * (t.height.value() + 4 * pixel()),
            ) <= (9 * k + 8) * pixel()
        }),
    decreases k,
{
    let t = tracks(p, shown);
    let px = pixel();
    lemma_constants();
    lemma_track_constants();
    lemma_track_height(p, shown);
    let exact = t.height.value() + 4 * px;
    if k == 0 {
        lemma_pixel_sum(p.y, num(TWELVE));
        assert(k * exact == 0 && (9 * k + 8) * px == 8 * px) by (nonlinear_arith)
            requires
                k == 0,
        ;
    } else {
        let prev = (k - 1) as nat;
        lemma_track_top(p, shown, prev);
        let step = sum(t.height, num(FOUR));
        lemma_pixel_sum(t.height, num(FOUR));
        assert(k * exact == prev * exact + exact && (9 * k + 8) * px == (9 * prev + 8) * px + 9
            * px) by (nonlinear_arith)
            requires
                k == prev + 1,
        ;
        assert(0 <= prev * exact <= 80 * px && (9 * prev + 8) * px <= 26 * px) by (nonlinear_arith)
            requires
                prev <= 2,
                0 <= exact <= 40 * px,
                px > 0,
        ;
        lemma_pixel_sum(track_top(t, prev), step);
    }
}

/// A ball stays on the strip in height too: on each of the tracks the disc is neither
/// above the strip's top edge nor below its bottom edge. This is of places below 2^24
/// pixels, where numbers are no coarser than one.
pub proof fn law_ball_stays_within_height(p: Placement, shown: nat, k: nat, r: Single)
    requires
        p.y.is_finite(),
        0 <= p.y.value() <= (0x100_0000 - 256) * pixel(),
        p.height.is_finite(),
        at_most(num(MIN_HEIGHT), p.height),
        at_most(p.height, num(MAX_HEIGHT)),
        shown <= BANDS,
        k == 0 || k < shown,
        r.is_finite(),
        at_most(r, tracks(p, shown).max_radius),
    ensures
        ({
            let line = track_line(tracks(p, shown), k);
            &&& line.is_finite()
            &&& p.y.value() <= line.value() - r.value()
            &&& line.value() + r.value() <= sum(p.y, p.height).value()
        }),
{
    let t = tracks(p, shown);
    let px = pixel();
    let c: int = if shown < 1 {
        1
    } else {
        shown as int
    };
    lemma_constants();
    lemma_track_constants();
    law_order_is_that_of_values(num(MIN_HEIGHT), p.height);
    law_order_is_that_of_values(p.height, num(MAX_HEIGHT));
    lemma_track_height(p, shown);
    lemma_track_top(p, shown, k);
    law_ball_within_track(p, shown);
    let h = t.height.value();
    let half = product(t.height, num(HALF));
    lemma_half_length(t.height);
    law_order_is_that_of_values(r, half);
    assert(0 <= k * (h + 4 * px) <= 120 * px && (9 * k + 8) * px <= 35 * px) by (nonlinear_arith)
        requires
            k <= 3,
            0 <= h <= 36 * px,
            px > 0,
    ;
    lemma_pixel_sum(track_top(t, k), half);
    lemma_pixel_sum(p.y, p.height);
    assert(k * (h + 4 * px) + h <= c * h + 4 * (c - 1) * px) by (nonlinear_arith)
        requires
            k + 1 <= c,
            h >= 0,
            px > 0,
    ;
}

/// Half a length is off by no more than a sixteenth of a pixel.
pub proof fn lemma_half_length(h: Single)
    requires
        h.is_finite(),
        !h.negative(),
        h.value() <= 4096 * pixel(),
    ensures
        product(h, num(HALF)).is_finite(),
        16 * apart(2 * product(h, num(HALF)).value(), h.value()) <= pixel(),
{
    let one = pow2(UNIT_SHIFT as nat);
    lemma2_to64();
    lemma_pow2_24();
    lemma_pow2_pos(148);
    lemma_pow2_adds(23, 125);
    lemma_pow2_adds(1, 148);
    assert(num(HALF).size() == pow2(148)) by {
        reveal(units);
    }
    let n = h.size();
    lemma_nearest_scale(n, 2, pow2(148));
    lemma_pow2_adds(12, UNIT_SHIFT as nat);
    lemma_pow2_adds(12, 137);
    lemma_nearest_error(n, 2, 137);
    let q = nearest(n, 2);
    assert(product(h, num(HALF)) == signed(false, q)) by {
        reveal(product);
    }
}

/// There is room for every ball of a strip that has been placed on a screen, whatever the
/// sound and the settings: drawing it never fails.
pub proof fn law_placed_balls_fit(
    scene: Scene,
    p: Placement,
    screen_w: Single,
    screen_h: Single,
    shown: nat,
)
    requires
        scene.strip == edges(
            placed(p, screen_w, screen_h).x,
            placed(p, screen_w, screen_h).y,
            placed(p, screen_w, screen_h).width,
            placed(p, screen_w, screen_h).height,
        ),
        scene.tracks == tracks(placed(p, screen_w, screen_h), shown),
        screen_w.is_finite(),
        !placed(p, screen_w, screen_h).x.is_nan(),
        !placed(p, screen_w, screen_h).width.is_nan(),
    ensures
        scene.fits(),
{
    let q = placed(p, screen_w, screen_h);
    lemma_constants();
    lemma_zero_units();
    law_placed_within_bounds(p, screen_w, screen_h);
    lemma_between(num(MIN_WIDTH), q.width, num(MAX_WIDTH));
    law_sum_monotone(screen_w, negated(q.width), screen_w, num(0));
    law_zero_adds_nothing(screen_w, num(0));
    let most = at_least_zero(difference(screen_w, q.width));
    let bound = if screen_w.value() < 0 {
        num(0)
    } else {
        screen_w
    };
    law_order_is_that_of_values(sum(screen_w, num(0)), bound);
    law_order_is_that_of_values(num(0), bound);
    assert(at_most(most, bound));
    assert(at_most(q.x, bound));
    lemma_between(num(0), q.x, bound);
    assert forall|b: nat| b < BANDS implies #[trigger] scene.ball_fits(b) by {
        if scene.show_band@[b as int] && scene.has_ball(b) {
            lemma_ball_radius(q, shown, scene.share(b), scene.ball_size);
            law_ball_has_room(q.x, q.y, q.width, q.height, scene.radius(b));
        }
    }
}

} // verus!
