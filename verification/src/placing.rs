//! Where the strip is put on the screen.
use crate::number::constants::{HALF, TWENTY_FOUR};
use crate::number::laws::{apart, law_sum_monotone, law_zero_adds_nothing};
use crate::number::near::{
    law_held_between, law_order_of_values, law_product_is_near, lemma_one_is_large,
    lemma_product_is_finite, one, size,
};
use crate::number::order::law_order_is_that_of_values;
use crate::number::rounding::lemma_pow2_24;
use crate::number::single::{difference, limited, negated, num, product, sum, units, Single};
use crate::picture::{held, is_modest, lemma_bounds, lemma_held_near, lemma_modest_sum};
use crate::room::{lemma_constants, lemma_track_constants};
use crate::settings::{
    at_least_zero, placed, Placement, MAX_HEIGHT, MAX_WIDTH, MIN_HEIGHT, MIN_WIDTH,
};
use vstd::arithmetic::power2::{lemma2_to64, lemma_pow2_adds, pow2};
use vstd::prelude::*;

verus! {

/// `v`, or 0 where that is negative.
pub open spec fn not_below_zero(v: int) -> int {
    if v < 0 {
        0
    } else {
        v
    }
}

/// 24, in units.
proof fn lemma_twenty_four()
    ensures
        num(TWENTY_FOUR).is_finite(),
        num(TWENTY_FOUR).value() == 24 * one(),
        num(MIN_WIDTH).is_finite() && num(MAX_WIDTH).is_finite(),
        num(MIN_WIDTH).value() == 280 * one(),
        num(MAX_WIDTH).value() == 1600 * one(),
        num(MIN_HEIGHT).is_finite() && num(MAX_HEIGHT).is_finite(),
        num(MIN_HEIGHT).value() == 60 * one(),
        num(MAX_HEIGHT).value() == 240 * one(),
{
    reveal(units);
    lemma_pow2_24();
    lemma2_to64();
    lemma_constants();
    lemma_track_constants();
    lemma_pow2_adds(19, 130);
    assert(num(TWENTY_FOUR).value() == 0xc0_0000 * pow2(130));
}

/// The sizes of a placed strip are those that the user chose, as far as the bounds reach.
pub proof fn law_placed_sizes(p: Placement, screen_w: Single, screen_h: Single)
    requires
        p.width.is_finite(),
        p.height.is_finite(),
    ensures
        ({
            let q = placed(p, screen_w, screen_h);
            &&& q.width.is_finite()
            &&& q.height.is_finite()
            &&& q.width.value() == held(p.width.value(), 280 * one(), 1600 * one())
            &&& q.height.value() == held(p.height.value(), 60 * one(), 240 * one())
        }),
{
    lemma_twenty_four();
    lemma_one_is_large();
    law_held_between(p.width, num(MIN_WIDTH), num(MAX_WIDTH));
    law_held_between(p.height, num(MIN_HEIGHT), num(MAX_HEIGHT));
}

/// Half of a number.
proof fn lemma_half_of(a: Single)
    requires
        a.is_finite(),
        size(a.value()) < pow2(224),
    ensures
        product(a, num(HALF)).is_finite(),
        0x100_0000 * apart(2 * product(a, num(HALF)).value(), a.value()) <= size(a.value())
            + 0x100_0000,
{
    let o = one();
    let hh = num(HALF).value();
    let h = a.value();
    lemma_one_is_large();
    assert(size(h * hh) == size(h) * hh && size(h) * hh < o * pow2(224)) by (nonlinear_arith)
        requires
            size(h) < pow2(224),
            2 * hh == o,
            o > 0,
    ;
    lemma_product_is_finite(a, num(HALF));
    law_product_is_near(a, num(HALF));
    let v = product(a, num(HALF)).value();
    assert(0x100_0000 * apart(2 * v, h) <= size(h) + 0x100_0000) by (nonlinear_arith)
        requires
            0x100_0000 * apart(v * o, h * hh) <= size(h) * hh + 0x80_0000 * o,
            2 * hh == o,
            o > 0,
    {
        let x = 2 * v - h;
        assert(v * o - h * hh == hh * x);
        assert(size(hh * x) == hh * size(x));
        assert(0x100_0000 * (hh * size(x)) <= hh * (size(h) + 0x100_0000));
    }
}

/// A placed strip is where the user put it, in the middle of the screen where the place is
/// negative, and no farther to the right than the screen has room for it. One that the
/// screen has room for is not moved.
pub proof fn law_placed_across(p: Placement, screen_w: Single, screen_h: Single)
    requires
        is_modest(p.x),
        is_modest(p.width),
        is_modest(screen_w),
    ensures
        ({
            let q = placed(p, screen_w, screen_h);
            let w = held(p.width.value(), 280 * one(), 1600 * one());
            let sw = screen_w.value();
            let chosen = if p.x.value() < 0 {
                sw - p.width.value()
            } else {
                2 * p.x.value()
            };
            &&& q.x.is_finite()
            &&& 0x40_0000 * apart(
                2 * q.x.value(),
                held(chosen, 0, not_below_zero(2 * (sw - w))),
            ) <= 4 * (size(sw) + size(p.width.value()) + w) + 0x100_0000
            &&& 0 <= p.x.value() && p.x.value() + w <= sw ==> q.x == p.x
        }),
{
    let q = placed(p, screen_w, screen_h);
    let o = one();
    lemma_one_is_large();
    lemma_bounds();
    lemma_twenty_four();
    lemma_placed_width(p);
    let width = limited(p.width, num(MIN_WIDTH), num(MAX_WIDTH));
    let w = width.value();
    let sw = screen_w.value();
    let zero = num(0);
    law_order_of_values(p.x, zero);
    lemma_modest_sum(screen_w, negated(p.width));
    lemma_half_of(difference(screen_w, p.width));
    lemma_modest_sum(screen_w, negated(width));
    let room = difference(screen_w, width);
    law_order_of_values(room, zero);
    let far = at_least_zero(room);
    let x = if p.x.value() < 0 {
        product(difference(screen_w, p.width), num(HALF))
    } else {
        p.x
    };
    law_held_between(x, zero, far);
    let chosen = if p.x.value() < 0 {
        sw - p.width.value()
    } else {
        2 * p.x.value()
    };
    lemma_held_near(
        2 * x.value(),
        0,
        2 * far.value(),
        chosen,
        0,
        not_below_zero(2 * (sw - w)),
        0x40_0000,
        4 * (size(sw) + size(p.width.value()) + w) + 0x100_0000,
    );
    if 0 <= p.x.value() && p.x.value() + w <= sw {
        law_zero_adds_nothing(p.x, zero);
        law_sum_monotone(p.x, zero, screen_w, negated(width));
        law_order_is_that_of_values(sum(p.x, zero), room);
    }
}

proof fn lemma_placed_width(p: Placement)
    requires
        p.width.is_finite(),
    ensures
        limited(p.width, num(MIN_WIDTH), num(MAX_WIDTH)).is_finite(),
        limited(p.width, num(MIN_WIDTH), num(MAX_WIDTH)).value() == held(
            p.width.value(),
            280 * one(),
            1600 * one(),
        ),
{
    lemma_twenty_four();
    lemma_one_is_large();
    law_held_between(p.width, num(MIN_WIDTH), num(MAX_WIDTH));
}

/// A placed strip is as low as the user put it, but neither above the screen nor nearer than
/// 24 pixels to its lower edge, where the screen has room for it.
pub proof fn law_placed_down(p: Placement, screen_w: Single, screen_h: Single)
    requires
        is_modest(p.y),
        is_modest(p.height),
        is_modest(screen_h),
    ensures
        ({
            let q = placed(p, screen_w, screen_h);
            let h = held(p.height.value(), 60 * one(), 240 * one());
            let sh = screen_h.value();
            &&& q.y.is_finite()
            &&& 0x40_0000 * apart(
                q.y.value(),
                held(p.y.value(), 0, not_below_zero(sh - h - 24 * one())),
            ) <= size(sh) + h + 24 * one() + 0x100_0000
        }),
{
    let o = one();
    lemma_one_is_large();
    lemma_bounds();
    lemma_twenty_four();
    let zero = num(0);
    law_held_between(p.height, num(MIN_HEIGHT), num(MAX_HEIGHT));
    let height = limited(p.height, num(MIN_HEIGHT), num(MAX_HEIGHT));
    let h = height.value();
    let sh = screen_h.value();
    lemma_modest_sum(screen_h, negated(height));
    let below = difference(screen_h, height);
    lemma_modest_sum(below, negated(num(TWENTY_FOUR)));
    let room = difference(below, num(TWENTY_FOUR));
    law_order_of_values(room, zero);
    let far = at_least_zero(room);
    law_held_between(p.y, zero, far);
    lemma_held_near(
        p.y.value(),
        0,
        far.value(),
        p.y.value(),
        0,
        not_below_zero(sh - h - 24 * o),
        0x40_0000,
        size(sh) + h + 24 * o + 0x100_0000,
    );
}

} // verus!
