//! How the tracks fill the strip.
use crate::layout::{
    track_line, track_top, tracks, Tracks, BALL_SHARE, MAX_TRACK, MIN_TRACK_LENGTH,
};
use crate::levels::BANDS;
use crate::middle::{lemma_both_ends, BOTH_ENDS};
use crate::number::constants::{EIGHT, EIGHTEEN, FOUR, HALF, SIXTEEN, TWELVE, TWO};
use crate::number::laws::{apart, law_quotient_monotone, law_sum_monotone, law_zero_adds_nothing};
use crate::number::near::{
    is_nearest_to, law_held_between, law_order_of_values, law_product_is_near,
    law_sum_is_the_nearest, law_whole_numbers, lemma_divided, lemma_one_is_large,
    lemma_product_is_finite, lemma_quotient_is_finite, lemma_size_times, one, size,
};
use crate::number::order::{law_order_is_that_of_values, lemma_zero_units};
use crate::number::rounding::lemma_pow2_24;
use crate::number::single::{
    difference, larger, limited, negated, num, of_whole, product, quotient, smaller, sum, units,
    Single,
};
use crate::picture::{held, is_modest, lemma_bounds, lemma_held_near, lemma_modest_sum};
use crate::room::{
    lemma_constants, lemma_gaps, lemma_parts, lemma_pixel_sum, lemma_track_constants, pixel,
};
use crate::settings::{lemma_exact_sum, Placement};
use vstd::arithmetic::power2::{lemma2_to64, lemma_pow2_adds, lemma_pow2_pos, pow2};
use vstd::prelude::*;

verus! {

/// The tracks share the height of the strip: what is left of it above, below and between them
/// is divided by their number, as far as a track is not lower than 8 pixels nor higher than
/// 36. This is to a quarter of a pixel in all.
pub proof fn law_tracks_share_the_height(p: Placement, shown: nat)
    requires
        p.height.is_finite(),
        60 * pixel() <= p.height.value() <= 240 * pixel(),
        shown <= BANDS,
    ensures
        ({
            let h = tracks(p, shown).height;
            let c: int = if shown < 1 {
                1
            } else {
                shown as int
            };
            let room = p.height.value() - 24 * pixel() - 4 * ((c - 1) * pixel());
            &&& h.is_finite()
            &&& 4 * apart(c * h.value(), held(room, c * (8 * pixel()), c * (36 * pixel())))
                <= pixel()
        }),
{
    let px = pixel() as int;
    let c: nat = if shown < 1 {
        1
    } else {
        shown
    };
    lemma_constants();
    lemma_track_constants();
    lemma_zero_units();
    lemma_pixel_sum(p.height, negated(num(TWELVE)));
    let less_top = difference(p.height, num(TWELVE));
    lemma_pixel_sum(less_top, negated(num(TWELVE)));
    let both = difference(less_top, num(TWELVE));
    law_order_is_that_of_values(num(SIXTEEN), both);
    let inner = larger(both, num(SIXTEEN));
    assert(inner == both);
    let gaps = product(of_whole((c - 1) as nat), num(FOUR));
    lemma_gaps((c - 1) as nat);
    let gap = (c - 1) * px;
    assert(0 <= 4 * gap <= 12 * px && 4 * (c - 1) * px == 4 * gap) by (nonlinear_arith)
        requires
            1 <= c <= 4,
            px > 0,
            gap == (c - 1) * px,
    ;
    lemma_pixel_sum(inner, negated(gaps));
    let rest = difference(inner, gaps);
    assert(rest.value() > 0);
    lemma_parts(rest, c);
    let part = quotient(rest, of_whole(c));
    let h = tracks(p, shown).height;
    assert(h == limited(part, num(EIGHT), num(MAX_TRACK)));
    law_held_between(part, num(EIGHT), num(MAX_TRACK));
    let pv = part.value();
    assert((pv < 8 * px ==> c * pv < c * (8 * px)) && (36 * px < pv ==> c * (36 * px) < c * pv) && (
    8 * px <= pv <= 36 * px ==> c * (8 * px) <= c * pv <= c * (36 * px)) && pv * c == c * pv && c
        * (8 * px) <= c * (36 * px)) by (nonlinear_arith)
        requires
            c >= 1,
            px > 0,
    ;
    let room = p.height.value() - 24 * px - 4 * gap;
    lemma_held_near(
        c * pv,
        c * (8 * px),
        c * (36 * px),
        room,
        c * (8 * px),
        c * (36 * px),
        16,
        4 * px,
    );
}

/// The tracks begin 18 pixels from the left edge of the strip and 12 from its top, and end 18
/// pixels from its right edge, unless they would be shorter than 80 pixels.
pub proof fn law_tracks_fill_the_strip(p: Placement, shown: nat)
    requires
        is_modest(p.x),
        is_modest(p.y),
        is_modest(p.width),
    ensures
        ({
            let t = tracks(p, shown);
            let long = p.width.value() - 36 * one();
            &&& is_nearest_to(t.left, p.x.value() + 18 * one())
            &&& is_nearest_to(t.top, p.y.value() + 12 * one())
            &&& 80 * one() <= long ==> is_nearest_to(t.length, long)
            &&& long <= 80 * one() ==> t.length.value() == 80 * one()
        }),
{
    let o = one();
    lemma_constants();
    lemma_track_constants();
    lemma_bounds();
    lemma_one_is_large();
    lemma_both_ends();
    law_sum_is_the_nearest(p.x, num(EIGHTEEN));
    law_sum_is_the_nearest(p.y, num(TWELVE));
    law_sum_is_the_nearest(p.width, negated(num(BOTH_ENDS)));
    let rest = difference(p.width, num(BOTH_ENDS));
    let least = num(MIN_TRACK_LENGTH);
    law_order_of_values(rest, least);
    law_zero_adds_nothing(least, num(0));
    law_order_is_that_of_values(rest, sum(least, num(0)));
    law_order_is_that_of_values(sum(least, num(0)), rest);
    if p.width.value() - 36 * o <= 80 * o {
        law_sum_monotone(p.width, negated(num(BOTH_ENDS)), least, num(0));
    }
    if 80 * o <= p.width.value() - 36 * o {
        law_sum_monotone(least, num(0), p.width, negated(num(BOTH_ENDS)));
    }
}

/// The largest radius of a ball is 0.45 of the height of its track, from 2 to 16 pixels.
pub proof fn law_largest_ball(p: Placement, shown: nat)
    requires
        tracks(p, shown).height.is_finite(),
    ensures
        ({
            let t = tracks(p, shown);
            &&& t.max_radius.is_finite()
            &&& 0x4000 * apart(
                20 * t.max_radius.value(),
                held(9 * t.height.value(), 40 * one(), 320 * one()),
            ) <= one()
        }),
{
    let o = one();
    let t = tracks(p, shown);
    let h = t.height;
    lemma_constants();
    lemma_track_constants();
    lemma_bounds();
    lemma_one_is_large();
    law_order_of_values(num(EIGHT), h);
    law_order_of_values(h, num(MAX_TRACK));
    let hv = h.value();
    assert(8 * o <= hv <= 36 * o);
    let b = num(BALL_SHARE);
    lemma_ball_share();
    let p1 = product(h, b);
    lemma_size_times(hv, b.value(), 36 * o, o);
    assert((36 * o) * o < o * pow2(224)) by (nonlinear_arith)
        requires
            0x10_0000_0000_0000 * o <= pow2(224),
            o > 0,
    ;
    lemma_product_is_finite(h, b);
    law_product_is_near(h, b);
    let hb = hv * b.value();
    let ho = hv * o;
    assert(0x40_0000 * apart(20 * hb, 9 * ho) <= ho && 0 <= hb && 8 * (o * o) <= ho && ho <= 36
        * (o * o) && 0x1_0000_0000 * o <= o * o) by (nonlinear_arith)
        requires
            hb == hv * b.value(),
            ho == hv * o,
            0x40_0000 * apart(20 * b.value(), 9 * o) <= o,
            0 <= b.value(),
            8 * o <= hv <= 36 * o,
            0x1_0000_0000 <= o,
    {
        let x = 20 * b.value() - 9 * o;
        assert(20 * hb - 9 * ho == hv * x);
        assert(size(hv * x) == hv * size(x));
        assert(0x40_0000 * (hv * size(x)) <= hv * o);
    }
    let oo = o * o;
    assert((20 * p1.value()) * o == 20 * (p1.value() * o) && (9 * hv) * o == 9 * ho)
        by (nonlinear_arith)
        requires
            ho == hv * o,
    ;
    assert(0x4000 * apart((20 * p1.value()) * o, (9 * hv) * o) <= oo);
    lemma_divided(20 * p1.value(), 9 * hv, o, 0x4000, o);
    let most = difference(num(EIGHTEEN), num(TWO));
    lemma_exact_sum(num(EIGHTEEN), negated(num(TWO)), num(SIXTEEN));
    law_order_of_values(p1, most);
    law_order_of_values(smaller(p1, most), num(TWO));
}

/// 0.45, in units.
proof fn lemma_ball_share()
    ensures
        num(BALL_SHARE).is_finite(),
        0 <= num(BALL_SHARE).value() <= one(),
        0x40_0000 * apart(20 * num(BALL_SHARE).value(), 9 * one()) <= one(),
{
    reveal(units);
    lemma_pow2_24();
    lemma2_to64();
    lemma_pow2_pos(124);
    lemma_pow2_adds(25, 124);
    assert(num(BALL_SHARE).value() == 0xe6_6666 * pow2(124));
    assert(one() == 0x200_0000 * pow2(124));
}

/// Where the tracks are: the first at the top, each next one a height and 4 pixels lower.
proof fn lemma_track_tops(t: Tracks, k: nat)
    requires
        is_modest(t.top),
        is_modest(t.height),
        k <= 3,
    ensures
        ({
            let h = t.height.value();
            let exact = t.top.value() + k * (h + 4 * one());
            &&& track_top(t, k).is_finite()
            &&& 0x40_0000 * apart(track_top(t, k).value(), exact) <= k * (size(t.top.value()) + 8
                * (size(h) + 4 * one()) + 0x100_0000)
            &&& size(exact) <= size(t.top.value()) + 3 * (size(h) + 4 * one())
        }),
    decreases k,
{
    let o = one();
    let h = t.height.value();
    let y = t.top.value();
    let step = h + 4 * o;
    let slack = size(y) + 8 * (size(h) + 4 * o) + 0x100_0000;
    lemma_one_is_large();
    lemma_bounds();
    lemma_constants();
    lemma_track_constants();
    if k == 0 {
        assert(0 * step == 0 && 0 * slack == 0);
    } else {
        let j = (k - 1) as nat;
        lemma_track_tops(t, j);
        lemma_modest_sum(t.height, num(FOUR));
        let s = sum(t.height, num(FOUR));
        let top = track_top(t, j);
        assert(k * step == j * step + step && k * slack == j * slack + slack && 0 <= j * slack
            <= 2 * slack) by (nonlinear_arith)
            requires
                k == j + 1,
                k <= 3,
                slack >= 0,
        ;
        lemma_modest_sum(top, s);
        let js = j * step;
        assert(size(js) <= 2 * size(step)) by (nonlinear_arith)
            requires
                js == j * step,
                0 <= j <= 2,
        ;
    }
}

/// Each band is on a track of its own: the line of track `k` is in the middle of the track,
/// which is `k` heights and gaps of 4 pixels below the first.
pub proof fn law_tracks_are_below_each_other(t: Tracks, k: nat)
    requires
        is_modest(t.top),
        is_modest(t.height),
        0 <= t.height.value(),
        k <= 3,
    ensures
        ({
            let h = t.height.value();
            let line = track_line(t, k);
            &&& line.is_finite()
            &&& 0x10_0000 * apart(
                2 * line.value(),
                2 * t.top.value() + 2 * (k * (h + 4 * one())) + h,
            ) <= 4 * (size(t.top.value()) + 8 * (h + 4 * one()) + 0x100_0000)
        }),
{
    let o = one();
    let h = t.height.value();
    let half = product(t.height, num(HALF));
    let hh = num(HALF).value();
    lemma_one_is_large();
    lemma_bounds();
    lemma_track_tops(t, k);
    lemma_size_times(h, hh, h, hh);
    assert(h * hh < o * pow2(224) && h * hh >= 0) by (nonlinear_arith)
        requires
            0 <= h < pow2(200),
            2 * hh == o,
            pow2(224) == 0x100_0000 * pow2(200),
            o > 0,
    ;
    lemma_product_is_finite(t.height, num(HALF));
    law_product_is_near(t.height, num(HALF));
    let v = half.value();
    assert(0x100_0000 * apart(2 * v, h) <= h + 0x100_0000) by (nonlinear_arith)
        requires
            0x100_0000 * apart(v * o, h * hh) <= size(h * hh) + 0x80_0000 * o,
            h * hh >= 0,
            2 * hh == o,
            o > 0,
    {
        let x = 2 * v - h;
        assert(v * o - h * hh == hh * x);
        assert(size(hh * x) == hh * size(x));
        assert(0x100_0000 * (hh * size(x)) <= hh * (h + 0x100_0000));
    }
    let slack = size(t.top.value()) + 8 * (size(h) + 4 * o) + 0x100_0000;
    assert(0 <= k * slack <= 3 * slack) by (nonlinear_arith)
        requires
            k <= 3,
            slack >= 0,
    ;
    lemma_modest_sum(track_top(t, k), half);
}

/// A taller strip never has lower tracks.
pub proof fn law_taller_strip_has_taller_tracks(low: Placement, tall: Placement, shown: nat)
    requires
        is_modest(low.height),
        is_modest(tall.height),
        low.height.value() <= tall.height.value(),
        shown <= BANDS,
    ensures
        tracks(low, shown).height.is_finite(),
        tracks(tall, shown).height.is_finite(),
        tracks(low, shown).height.value() <= tracks(tall, shown).height.value(),
{
    let c: nat = if shown < 1 {
        1
    } else {
        shown
    };
    lemma_rest(low.height, c);
    lemma_rest(tall.height, c);
    let a = inner_height(low.height);
    let b = inner_height(tall.height);
    let gaps = product(of_whole((c - 1) as nat), num(FOUR));
    let count = of_whole(c);
    lemma_one_is_large();
    lemma_bounds();
    lemma_constants();
    lemma_track_constants();
    lemma_gaps((c - 1) as nat);
    law_whole_numbers(c);
    assert(c * one() > 0) by (nonlinear_arith)
        requires
            c >= 1,
            one() > 0,
    ;
    assert(a.value() <= b.value()) by {
        let m = difference(low.height, num(TWELVE));
        let n = difference(tall.height, num(TWELVE));
        lemma_modest_sum(low.height, negated(num(TWELVE)));
        lemma_modest_sum(tall.height, negated(num(TWELVE)));
        law_sum_monotone(low.height, negated(num(TWELVE)), tall.height, negated(num(TWELVE)));
        law_order_of_values(m, n);
        lemma_modest_sum(m, negated(num(TWELVE)));
        lemma_modest_sum(n, negated(num(TWELVE)));
        law_sum_monotone(m, negated(num(TWELVE)), n, negated(num(TWELVE)));
        law_order_of_values(difference(m, num(TWELVE)), difference(n, num(TWELVE)));
        law_order_of_values(difference(m, num(TWELVE)), num(SIXTEEN));
        law_order_of_values(difference(n, num(TWELVE)), num(SIXTEEN));
    }
    let x = difference(a, gaps);
    let y = difference(b, gaps);
    law_sum_monotone(a, negated(gaps), b, negated(gaps));
    law_order_of_values(x, y);
    law_quotient_monotone(x, count, y, count);
    let p = quotient(x, count);
    let q = quotient(y, count);
    law_order_of_values(p, q);
    law_held_between(p, num(EIGHT), num(MAX_TRACK));
    law_held_between(q, num(EIGHT), num(MAX_TRACK));
}

/// What of a height is inside the strip.
pub open spec fn inner_height(height: Single) -> Single {
    larger(difference(difference(height, num(TWELVE)), num(TWELVE)), num(SIXTEEN))
}

/// What is left of a height for the tracks.
proof fn lemma_rest(height: Single, c: nat)
    requires
        is_modest(height),
        1 <= c <= 4,
    ensures
        ({
            let gaps = product(of_whole((c - 1) as nat), num(FOUR));
            let rest = difference(inner_height(height), gaps);
            &&& inner_height(height).is_finite()
            &&& rest.is_finite()
            &&& 0 < rest.value()
            &&& !rest.negative()
            &&& quotient(rest, of_whole(c)).is_finite()
        }),
{
    let o = one();
    let gaps = product(of_whole((c - 1) as nat), num(FOUR));
    lemma_one_is_large();
    lemma_bounds();
    lemma_constants();
    lemma_track_constants();
    lemma_zero_units();
    lemma_gaps((c - 1) as nat);
    law_whole_numbers(c);
    let m = difference(height, num(TWELVE));
    lemma_modest_sum(height, negated(num(TWELVE)));
    lemma_modest_sum(m, negated(num(TWELVE)));
    law_order_of_values(difference(m, num(TWELVE)), num(SIXTEEN));
    let inner = inner_height(height);
    let gap = (c - 1) * o;
    assert(0 <= 4 * gap <= 12 * o && 4 * (c - 1) * o == 4 * gap && c * o >= o) by (nonlinear_arith)
        requires
            1 <= c <= 4,
            o > 0,
            gap == (c - 1) * o,
    ;
    lemma_modest_sum(inner, negated(gaps));
    let rest = difference(inner, gaps);
    let w = of_whole(c).value();
    assert(size(rest.value()) * o < size(w) * pow2(224)) by (nonlinear_arith)
        requires
            size(rest.value()) < pow2(224),
            w >= o,
            o > 0,
    ;
    lemma_quotient_is_finite(rest, of_whole(c));
}

} // verus!
