//! What the picture says: how large a ball is, how clear, and where, by the sound.
use crate::layout::{
    aim, ball_alpha, ball_radius, ball_range, ball_x, share, Edges, Tracks, ALPHA_GROWTH,
    BALL_GROWTH, FAINT, FAINTEST_BALL, FULL_ALPHA, MIN_SCALE, SMALLEST_BALL,
};
use crate::number::constants::{HALF, MINUS_ONE, ONE, TWO};
use crate::number::laws::{apart, law_sum_error};
use crate::number::near::{
    law_held_between, law_order_of_values, law_product_is_near, law_quotient_is_near,
    law_root_is_near, law_sum_is_near, law_truncated_is_the_whole_part, lemma_divided,
    lemma_one_is_large, lemma_product_is_finite, lemma_quotient_is_finite, lemma_size_times,
    lemma_times, one, size,
};
use crate::number::pack::lemma_pow2_le;
use crate::number::rounding::lemma_pow2_24;
use crate::number::single::{
    at_most, larger, less, limited, negated, num, product, quotient, root, sum, truncated, units,
    Single, UNIT_SHIFT,
};
use crate::room::lemma_track_share;
use vstd::arithmetic::power2::{lemma_pow2_adds, lemma_pow2_pos, pow2};
use vstd::prelude::*;

verus! {

/// A finite number below 2^51 to either side.
pub open spec fn is_modest(a: Single) -> bool {
    a.is_finite() && size(a.value()) < pow2(200)
}

/// `v`, held between `lo` and `hi`.
pub open spec fn held(v: int, lo: int, hi: int) -> int {
    if v < lo {
        lo
    } else if hi < v {
        hi
    } else {
        v
    }
}

/// The powers that the bounds are made of.
pub proof fn lemma_bounds()
    ensures
        pow2(224) == 0x100_0000 * pow2(200),
        0x10_0000_0000_0000 * one() <= pow2(224),
        0x4_0000_0000_0000 * one() <= pow2(200),
        pow2(200) > 0,
{
    lemma_pow2_24();
    vstd::arithmetic::power2::lemma2_to64();
    vstd::arithmetic::power2::lemma2_to64_rest();
    lemma_pow2_pos(UNIT_SHIFT as nat);
    lemma_pow2_adds(24, 200);
    lemma_pow2_adds(50, UNIT_SHIFT as nat);
    lemma_pow2_le(199, 200);
    lemma_pow2_pos(200);
}

/// The least scale, in units.
proof fn lemma_min_scale()
    ensures
        num(MIN_SCALE).is_finite(),
        0x400 * num(MIN_SCALE).value() >= one(),
        num(MIN_SCALE).value() < one(),
{
    reveal(units);
    lemma_pow2_24();
    vstd::arithmetic::power2::lemma2_to64();
    vstd::arithmetic::power2::lemma2_to64_rest();
    lemma_pow2_pos(116);
    lemma_pow2_adds(23, 116);
    lemma_pow2_adds(33, 116);
    assert(num(MIN_SCALE).value() == 0x83_126f * pow2(116));
    assert(one() == 0x2_0000_0000 * pow2(116));
}

/// The share of an energy is the part that it is of the scale, from none to all; a scale
/// below 0.001 counts as 0.001.
pub proof fn law_share_is_the_part(energy: Single, scale: Single)
    requires
        is_modest(energy),
        is_modest(scale),
    ensures
        ({
            let s = share(energy, scale);
            let all = if scale.value() < num(MIN_SCALE).value() {
                num(MIN_SCALE).value()
            } else {
                scale.value()
            };
            &&& s.is_finite()
            &&& 0 <= s.value() <= one()
            &&& 0x100_0000 * apart(s.value() * all, held(energy.value(), 0, all) * one()) <= 2 * (
            all * one()) + 0x100_0000 * all
        }),
{
    let o = one();
    let all = larger(scale, num(MIN_SCALE));
    let d = all.value();
    let e = energy.value();
    lemma_one_is_large();
    lemma_bounds();
    lemma_min_scale();
    law_order_of_values(scale, num(MIN_SCALE));
    assert(size(e) * o < size(d) * pow2(224)) by (nonlinear_arith)
        requires
            size(e) < pow2(200),
            0x400 * d >= o,
            o > 0,
            pow2(224) == 0x100_0000 * pow2(200),
            pow2(200) > 0,
    {
        assert(size(e) * o < pow2(200) * o);
        assert(pow2(200) * o <= pow2(200) * (0x400 * d));
    }
    lemma_quotient_is_finite(energy, all);
    law_quotient_is_near(energy, all);
    let q = quotient(energy, all);
    law_held_between(q, num(0), num(ONE));
    let s = share(energy, scale).value();
    let qd = q.value() * d;
    let eo = e * o;
    let od = d * o;
    let sd = s * d;
    assert(d > 0);
    assert(q.value() < 0 ==> qd < 0 && sd == 0) by (nonlinear_arith)
        requires
            qd == q.value() * d,
            sd == s * d,
            d > 0,
            q.value() < 0 ==> s == 0,
    ;
    assert(o < q.value() ==> od < qd && sd == od) by (nonlinear_arith)
        requires
            qd == q.value() * d,
            sd == s * d,
            od == d * o,
            d > 0,
            o < q.value() ==> s == o,
    ;
    assert(0 <= q.value() <= o ==> 0 <= qd <= od && sd == qd) by (nonlinear_arith)
        requires
            qd == q.value() * d,
            sd == s * d,
            od == d * o,
            d > 0,
            0 <= q.value() <= o ==> s == q.value(),
    ;
    assert((e < 0 ==> eo < 0) && (e > d ==> eo > od) && (0 <= e <= d ==> 0 <= eo <= od))
        by (nonlinear_arith)
        requires
            eo == e * o,
            od == d * o,
            o > 0,
    ;
    assert(0 * o == 0);
}

/// A ball is drawn where the energy is more than about a fiftieth of the scale.
pub proof fn law_faint_energy_has_no_ball(energy: Single, scale: Single)
    requires
        is_modest(energy),
        is_modest(scale),
        num(MIN_SCALE).value() <= scale.value(),
    ensures
        49 * energy.value() >= scale.value() ==> less(num(FAINT), share(energy, scale)),
        51 * energy.value() <= scale.value() ==> !less(num(FAINT), share(energy, scale)),
{
    let o = one();
    let s = share(energy, scale);
    let d = scale.value();
    lemma_one_is_large();
    lemma_min_scale();
    law_share_is_the_part(energy, scale);
    lemma_faint();
    law_order_of_values(num(FAINT), s);
    let f = num(FAINT).value();
    let e = energy.value();
    let sd = s.value() * d;
    let od = d * o;
    let fd = f * d;
    let eo = e * o;
    let ho = held(e, 0, d) * o;
    assert(0x1_0000_0000 * d <= od && 50 * fd <= od && 1000 * od <= 50001 * fd)
        by (nonlinear_arith)
        requires
            od == d * o,
            fd == f * d,
            50 * f <= o,
            1000 * o <= 50001 * f,
            0x1_0000_0000 <= o,
            d > 0,
    ;
    assert((49 * e >= d ==> 49 * ho >= od) && (51 * e <= d ==> 51 * ho <= od)) by (nonlinear_arith)
        requires
            ho == held(e, 0, d) * o,
            od == d * o,
            d > 0,
            o > 0,
    ;
    assert((f < s.value()) == (fd < sd)) by (nonlinear_arith)
        requires
            fd == f * d,
            sd == s.value() * d,
            d > 0,
    ;
}

/// 0.02, in units.
proof fn lemma_faint()
    ensures
        num(FAINT).is_finite(),
        50 * num(FAINT).value() <= one(),
        1000 * one() <= 50001 * num(FAINT).value(),
{
    reveal(units);
    lemma_pow2_24();
    vstd::arithmetic::power2::lemma2_to64();
    lemma_pow2_pos(120);
    lemma_pow2_adds(29, 120);
    assert(num(FAINT).value() == 10737418 * pow2(120));
}

/// A finite sum of modest numbers, and how near it is.
pub proof fn lemma_modest_sum(a: Single, b: Single)
    requires
        a.is_finite(),
        b.is_finite(),
        size(a.value() + b.value()) < pow2(224),
    ensures
        sum(a, b).is_finite(),
        0x100_0000 * apart(sum(a, b).value(), a.value() + b.value()) <= size(a.value() + b.value())
            + 0x80_0000,
{
    law_sum_error(a, b, 200);
    law_sum_is_near(a, b);
}

/// What a direction makes of the length of a track: half of it and, by the direction, up to
/// half of it more or less.
proof fn lemma_track_part(d: Single)
    requires
        d.is_finite(),
    ensures
        ({
            let c = limited(d, num(MINUS_ONE), num(ONE));
            let s = sum(num(HALF), product(num(HALF), c));
            &&& s.is_finite()
            &&& 0 <= s.value() <= one()
            &&& 0x40_0000 * apart(2 * s.value(), one() + held(d.value(), -one(), one())) <= one()
        }),
{
    let o = one();
    let h = num(HALF).value();
    let c = limited(d, num(MINUS_ONE), num(ONE));
    let p = product(num(HALF), c);
    lemma_one_is_large();
    lemma_bounds();
    law_held_between(d, num(MINUS_ONE), num(ONE));
    let cv = c.value();
    assert(cv == held(d.value(), -o, o));
    lemma_size_times(h, cv, h, o);
    assert(h * o < o * pow2(224)) by (nonlinear_arith)
        requires
            2 * h == o,
            o < pow2(224),
            o > 0,
    ;
    lemma_product_is_finite(num(HALF), c);
    law_product_is_near(num(HALF), c);
    let pv = p.value();
    // the product is half of the direction
    assert(0x100_0000 * apart(2 * pv, cv) <= o + 0x100_0000) by (nonlinear_arith)
        requires
            0x100_0000 * apart(pv * o, h * cv) <= size(h * cv) + 0x80_0000 * o,
            2 * h == o,
            size(h * cv) <= h * o,
            o > 0,
    {
        let x = 2 * pv - cv;
        assert(pv * o - h * cv == h * x);
        assert(size(h * x) == h * size(x));
        assert(0x100_0000 * (h * size(x)) <= h * (o + 0x100_0000));
    }
    lemma_modest_sum(num(HALF), p);
    let s = lemma_track_share(d);
}

/// Where a ball aims: at the middle of its track for sound from neither side, at an end of
/// it for sound from one side alone, and between them in proportion to the direction.
pub proof fn law_ball_aims_by_direction(t: Tracks, d: Single)
    requires
        is_modest(t.left),
        is_modest(t.length),
        d.is_finite(),
    ensures
        ({
            let x = aim(t, d);
            let far = t.length.value() * (one() + held(d.value(), -one(), one()));
            &&& x.is_finite()
            &&& 0x10_0000 * apart(2 * (one() * x.value()), 2 * (one() * t.left.value()) + far)
                <= one() * (size(t.left.value()) + size(t.length.value())) + 0x100_0000 * one()
        }),
{
    let o = one();
    let c = limited(d, num(MINUS_ONE), num(ONE));
    let s = sum(num(HALF), product(num(HALF), c));
    let p = product(t.length, s);
    lemma_one_is_large();
    lemma_bounds();
    lemma_track_part(d);
    let l = t.length.value();
    let a = t.left.value();
    let sv = s.value();
    let cv = held(d.value(), -o, o);
    lemma_size_times(l, sv, size(l), o);
    assert(size(l) * o < o * pow2(224)) by (nonlinear_arith)
        requires
            size(l) < pow2(224),
            o > 0,
    ;
    lemma_product_is_finite(t.length, s);
    law_product_is_near(t.length, s);
    let pv = p.value();
    let lo = size(l) * o;
    let ls = l * sv;
    lemma_times(pv * o, ls, 1, 0x100_0000, lo + 0x80_0000 * o, 1);
    assert(0x100_0000 * size(pv) <= 0x100_0001 * size(l) + 0x80_0000) by (nonlinear_arith)
        requires
            0x100_0000 * apart(pv * o, ls) <= lo + 0x80_0000 * o,
            size(ls) <= lo,
            lo == size(l) * o,
            o > 0,
    {
        assert(size(pv * o) == size(pv) * o);
        assert(0x100_0000 * (size(pv) * o) <= 0x100_0001 * lo + 0x80_0000 * o);
        assert((0x100_0000 * size(pv)) * o <= (0x100_0001 * size(l) + 0x80_0000) * o);
    }
    lemma_modest_sum(t.left, p);
    let x = aim(t, d).value();
    lemma_times(x, a + pv, o, 0x100_0000, size(a + pv) + 0x80_0000, o);
    lemma_times(2 * sv, o + cv, l, 0x40_0000, o, size(l));
    let ol = o * size(l);
    let oa = o * size(a);
    assert(ol == lo) by (nonlinear_arith)
        requires
            ol == o * size(l),
            lo == size(l) * o,
    ;
    assert((size(a + pv) + 0x80_0000) * o <= oa + 2 * ol + 0x100_0000 * o) by (nonlinear_arith)
        requires
            size(a + pv) <= size(a) + 2 * size(l) + 1,
            ol == o * size(l),
            oa == o * size(a),
            o > 0,
    ;
    assert(o * (a + pv) == o * a + pv * o && l * (2 * sv) == 2 * ls && o * (size(a) + size(l))
        == oa + ol) by (nonlinear_arith)
        requires
            ls == l * sv,
            oa == o * size(a),
            ol == o * size(l),
    ;
}

/// Holding numbers that are near between bounds that are near gives numbers that are near.
pub proof fn lemma_held_near(v: int, lo: int, hi: int, w: int, lo2: int, hi2: int, k: int, e: int)
    requires
        k >= 0,
        lo <= hi,
        lo2 <= hi2,
        k * apart(v, w) <= e,
        k * apart(lo, lo2) <= e,
        k * apart(hi, hi2) <= e,
    ensures
        k * apart(held(v, lo, hi), held(w, lo2, hi2)) <= e,
{
    let h = held(v, lo, hi);
    let g = held(w, lo2, hi2);
    assert(apart(h, g) <= apart(v, w) || apart(h, g) <= apart(lo, lo2) || apart(h, g) <= apart(
        hi,
        hi2,
    ));
    assert(k * apart(h, g) <= e) by (nonlinear_arith)
        requires
            k >= 0,
            k * apart(v, w) <= e,
            k * apart(lo, lo2) <= e,
            k * apart(hi, hi2) <= e,
            apart(h, g) <= apart(v, w) || apart(h, g) <= apart(lo, lo2) || apart(h, g) <= apart(
                hi,
                hi2,
            ),
    ;
}

/// Two sums in turn, and how near they are.
proof fn lemma_two_sums(a: Single, b: Single, c: Single)
    requires
        is_modest(a),
        is_modest(b),
        is_modest(c),
    ensures
        sum(sum(a, b), c).is_finite(),
        0x40_0000 * apart(sum(sum(a, b), c).value(), a.value() + b.value() + c.value()) <= size(
            a.value(),
        ) + size(b.value()) + size(c.value()) + 0x80_0000,
{
    lemma_bounds();
    lemma_modest_sum(a, b);
    lemma_modest_sum(sum(a, b), c);
}

/// Where the middle of a ball is: where it aims by the direction, as far as the strip has
/// room for it, two pixels from either edge.
pub proof fn law_ball_is_where_it_aims(strip: Edges, t: Tracks, d: Single, r: Single)
    requires
        is_modest(strip.left),
        is_modest(strip.right),
        is_modest(t.left),
        is_modest(t.length),
        is_modest(r),
        d.is_finite(),
        at_most(ball_range(strip, r).0, ball_range(strip, r).1),
        strip.left.value() + r.value() + 2 * one() <= strip.right.value() - r.value() - 2 * one(),
    ensures
        ({
            let o = one();
            let x = ball_x(strip, t, d, r);
            let aimed = 2 * (o * t.left.value()) + t.length.value() * (o + held(
                d.value(),
                -o,
                o,
            ));
            let least = 2 * (o * (strip.left.value() + r.value() + 2 * o));
            let most = 2 * (o * (strip.right.value() - r.value() - 2 * o));
            let all = size(strip.left.value()) + size(strip.right.value()) + size(t.left.value())
                + size(t.length.value()) + size(r.value());
            &&& x.is_finite()
            &&& 0x10_0000 * apart(2 * (o * x.value()), held(aimed, least, most)) <= o * all
                + 0x1000_0000 * o + 4 * (o * o)
        }),
{
    let o = one();
    let x = ball_x(strip, t, d, r);
    let two = num(TWO);
    let l = strip.left;
    let rt = strip.right;
    lemma_one_is_large();
    lemma_bounds();
    lemma_two_sums(l, r, two);
    lemma_two_sums(rt, negated(r), negated(two));
    law_ball_aims_by_direction(t, d);
    let lo = ball_range(strip, r).0;
    let hi = ball_range(strip, r).1;
    let a = aim(t, d);
    law_order_of_values(lo, hi);
    law_held_between(a, lo, hi);
    let all = size(l.value()) + size(rt.value()) + size(t.left.value()) + size(t.length.value())
        + size(r.value());
    let e = o * all + 0x1000_0000 * o + 4 * (o * o);
    let le = l.value() + r.value() + 2 * o;
    let he = rt.value() - r.value() - 2 * o;
    let aimed = 2 * (o * t.left.value()) + t.length.value() * (o + held(d.value(), -o, o));
    lemma_times(
        lo.value(),
        le,
        o,
        0x40_0000,
        size(l.value()) + size(r.value()) + 2 * o + 0x80_0000,
        o,
    );
    lemma_times(
        hi.value(),
        he,
        o,
        0x40_0000,
        size(rt.value()) + size(r.value()) + 2 * o + 0x80_0000,
        o,
    );
    let oo = o * o;
    let oall = o * all;
    assert((size(l.value()) + size(r.value()) + 2 * o + 0x80_0000) * o <= oall + 2 * oo
        + 0x80_0000 * o && (size(rt.value()) + size(r.value()) + 2 * o + 0x80_0000) * o <= oall
        + 2 * oo + 0x80_0000 * o && o * (size(t.left.value()) + size(t.length.value())) <= oall)
        by (nonlinear_arith)
        requires
            oall == o * all,
            oo == o * o,
            all == size(l.value()) + size(rt.value()) + size(t.left.value()) + size(
                t.length.value(),
            ) + size(r.value()),
            o > 0,
    ;
    assert(2 * (o * lo.value()) <= 2 * (o * hi.value()) && 2 * (o * le) <= 2 * (o * he))
        by (nonlinear_arith)
        requires
            lo.value() <= hi.value(),
            le <= he,
            o > 0,
    ;
    lemma_held_near(
        2 * (o * a.value()),
        2 * (o * lo.value()),
        2 * (o * hi.value()),
        aimed,
        2 * (o * le),
        2 * (o * he),
        0x10_0000,
        e,
    );
    assert(2 * (o * x.value()) == held(
        2 * (o * a.value()),
        2 * (o * lo.value()),
        2 * (o * hi.value()),
    )) by {
        let av = a.value();
        let lv = lo.value();
        let hv = hi.value();
        assert((av < lv) == (2 * (o * av) < 2 * (o * lv)) && (hv < av) == (2 * (o * hv) < 2 * (o
            * av))) by (nonlinear_arith)
            requires
                o > 0,
        ;
    }
}

/// The constants of a ball, in units.
proof fn lemma_ball_constants()
    ensures
        num(SMALLEST_BALL).is_finite(),
        2 * num(SMALLEST_BALL).value() == 7 * one(),
        num(BALL_GROWTH).is_finite(),
        num(BALL_GROWTH).value() == 6 * one(),
        num(FAINTEST_BALL).is_finite(),
        num(FAINTEST_BALL).value() == 180 * one(),
        num(ALPHA_GROWTH).is_finite(),
        num(ALPHA_GROWTH).value() == 75 * one(),
        num(FULL_ALPHA).is_finite(),
        num(FULL_ALPHA).value() == 255 * one(),
{
    reveal(units);
    lemma_pow2_24();
    vstd::arithmetic::power2::lemma2_to64();
    lemma_pow2_adds(21, 127);
    lemma_pow2_adds(21, 128);
    lemma_pow2_adds(1, 148);
    lemma_pow2_adds(18, 131);
    lemma_pow2_adds(17, 132);
    lemma_pow2_adds(16, 133);
    assert(num(SMALLEST_BALL).value() == 0xe0_0000 * pow2(127));
    assert(num(BALL_GROWTH).value() == 0xc0_0000 * pow2(128));
    assert(num(FAINTEST_BALL).value() == 0xb4_0000 * pow2(133));
    assert(num(ALPHA_GROWTH).value() == 0x96_0000 * pow2(132));
    assert(num(FULL_ALPHA).value() == 0xff_0000 * pow2(133));
}

/// `m` whole times a number between 0 and about 1, added to `base`, then multiplied by `z`.
proof fn lemma_grown_times(base: Single, growth: Single, m: int, s: Single, z: Single)
    requires
        base.is_finite(),
        growth.is_finite(),
        s.is_finite(),
        is_modest(z),
        1 <= m <= 255,
        growth.value() == m * one(),
        one() <= base.value() <= 255 * one(),
        0 <= s.value() <= 2 * one(),
    ensures
        ({
            let c = product(sum(base, product(growth, s)), z);
            let exact = base.value() + m * s.value();
            &&& c.is_finite()
            &&& 0x20_0000 * apart(c.value() * one(), exact * z.value()) <= size(
                exact * z.value(),
            ) + 0x80_0000 * one()
        }),
{
    let o = one();
    let a = product(growth, s);
    let b = sum(base, a);
    let c = product(b, z);
    let sv = s.value();
    let ms = m * sv;
    let exact = base.value() + ms;
    lemma_one_is_large();
    lemma_bounds();
    assert(0 <= m * o <= 255 * o && 0 <= ms <= 510 * o && (m * o) * sv == ms * o && ms * o >= 0)
        by (nonlinear_arith)
        requires
            1 <= m <= 255,
            0 <= sv <= 2 * o,
            ms == m * sv,
            o > 0,
    ;
    lemma_size_times(growth.value(), sv, 255 * o, 2 * o);
    assert((255 * o) * (2 * o) < o * pow2(224)) by (nonlinear_arith)
        requires
            0x10_0000_0000_0000 * o <= pow2(224),
            o > 0,
    ;
    lemma_product_is_finite(growth, s);
    law_product_is_near(growth, s);
    assert(0x100_0000 * apart(a.value() * o, ms * o) <= (ms + 0x80_0000) * o) by (nonlinear_arith)
        requires
            0x100_0000 * apart(a.value() * o, ms * o) <= size(ms * o) + 0x80_0000 * o,
            ms * o >= 0,
    ;
    lemma_divided(a.value(), ms, o, 0x100_0000, ms + 0x80_0000);
    lemma_modest_sum(base, a);
    let bv = b.value();
    assert(0x40_0000 * apart(bv, exact) <= exact);
    let zv = z.value();
    lemma_size_times(bv, zv, 1024 * o, pow2(200) as int);
    assert((1024 * o) * pow2(200) < o * pow2(224)) by (nonlinear_arith)
        requires
            pow2(224) == 0x100_0000 * pow2(200),
            pow2(200) > 0,
            o > 0,
    ;
    lemma_product_is_finite(b, z);
    law_product_is_near(b, z);
    let cv = c.value();
    lemma_times(bv, exact, zv, 0x40_0000, exact, size(zv));
    let ez = exact * zv;
    let bz = bv * zv;
    assert(exact * size(zv) == size(ez)) by (nonlinear_arith)
        requires
            ez == exact * zv,
            exact >= 0,
    ;
}

/// The radius of a ball grows with the root of the share, from 3.5 by up to 6, times the
/// size that the user chose; no ball is larger than `max_radius`.
pub proof fn law_radius_grows_with_the_root(part: Single, ball_size: Single, max_radius: Single)
    requires
        part.is_finite(),
        0 <= part.value() <= one(),
        is_modest(ball_size),
        max_radius.is_finite(),
    ensures
        ({
            let r = ball_radius(part, ball_size, max_radius);
            let exact = (7 * one() + 12 * root(part).value()) * ball_size.value();
            let slack = size(exact) + 0x100_0000 * one();
            &&& r.is_finite()
            &&& r.value() <= max_radius.value()
            &&& r.value() < max_radius.value() ==> 0x20_0000 * apart(
                2 * (r.value() * one()),
                exact,
            ) <= slack
            &&& r.value() == max_radius.value() ==> 0x20_0000 * (2 * (r.value() * one()) - exact)
                <= slack
        }),
{
    let o = one();
    let s = root(part);
    lemma_one_is_large();
    lemma_ball_constants();
    law_root_is_near(part);
    let sv = s.value();
    let pv = part.value();
    assert(sv <= 2 * o) by (nonlinear_arith)
        requires
            0x20_0000 * apart(sv * sv, pv * o) <= pv * o,
            0 <= pv <= o,
            0 <= sv,
            o > 0,
    {
        assert(pv * o <= o * o);
        assert(sv * sv <= 2 * (o * o));
        if sv > 2 * o {
            assert(sv * sv > (2 * o) * (2 * o));
        }
    }
    lemma_grown_times(num(SMALLEST_BALL), num(BALL_GROWTH), 6, s, ball_size);
    let c = product(sum(num(SMALLEST_BALL), product(num(BALL_GROWTH), s)), ball_size);
    law_order_of_values(c, max_radius);
    let z = ball_size.value();
    let half = (num(SMALLEST_BALL).value() + 6 * sv) * z;
    assert((7 * o + 12 * sv) * z == 2 * half) by (nonlinear_arith)
        requires
            2 * num(SMALLEST_BALL).value() == 7 * o,
            half == (num(SMALLEST_BALL).value() + 6 * sv) * z,
    ;
    let m = max_radius.value();
    assert(m < c.value() ==> m * o <= c.value() * o) by (nonlinear_arith)
        requires
            o > 0,
    ;
}

/// The alpha of a ball is the whole part of 180, and up to 75 more with the share, times the
/// opacity, from 0 to 255; a value within a 4096th of a whole number may be rounded to it.
pub proof fn law_alpha_grows_with_the_share(part: Single, opacity: Single)
    requires
        part.is_finite(),
        0 <= part.value() <= one(),
        is_modest(opacity),
    ensures
        ({
            let a = ball_alpha(part, opacity) as int;
            let whole = one() * one();
            let exact = held(
                (180 * one() + 75 * part.value()) * opacity.value(),
                0,
                255 * whole,
            );
            &&& 0x1000 * (a * whole - exact) <= whole
            &&& 0x1000 * (exact - (a + 1) * whole) <= whole
        }),
{
    let o = one();
    lemma_one_is_large();
    lemma_ball_constants();
    lemma_grown_times(num(FAINTEST_BALL), num(ALPHA_GROWTH), 75, part, opacity);
    let c = product(sum(num(FAINTEST_BALL), product(num(ALPHA_GROWTH), part)), opacity);
    law_held_between(c, num(0), num(FULL_ALPHA));
    let d = limited(c, num(0), num(FULL_ALPHA));
    assert(0 <= d.value() <= 255 * o);
    assert((255nat + 1) * one() == 256 * o);
    law_truncated_is_the_whole_part(d, 255);
    let t = truncated(d, 255) as int;
    let a = ball_alpha(part, opacity) as int;
    assert(a == t);
    let whole = o * o;
    let e = (180 * o + 75 * part.value()) * opacity.value();
    let dv = d.value();
    let co = c.value() * o;
    let dw = dv * o;
    assert((c.value() < 0 ==> co < 0 && dw == 0) && (255 * o < c.value() ==> 255 * whole < co && dw
        == 255 * whole) && (0 <= c.value() <= 255 * o ==> 0 <= co <= 255 * whole && dw == co))
        by (nonlinear_arith)
        requires
            co == c.value() * o,
            dw == dv * o,
            whole == o * o,
            dv == held(c.value(), 0, 255 * o),
            o > 0,
    ;
    assert(a * whole <= dw && dw < (a + 1) * whole && 0x1_0000_0000 * o <= whole)
        by (nonlinear_arith)
        requires
            a * o <= dv < (a + 1) * o,
            dw == dv * o,
            whole == o * o,
            0x1_0000_0000 <= o,
    ;
}

} // verus!
