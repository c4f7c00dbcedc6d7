//! The shape of the icon: which pixels are in its ring, in its dot and in neither.
use crate::number::constants::{EIGHT, FOUR};
use crate::number::laws::apart;
use crate::number::near::{
    law_order_of_values, law_product_is_near, law_root_is_near, law_sum_is_near, law_whole_numbers,
    lemma_divided, lemma_one_is_large, lemma_product_is_finite, one, size,
};
use crate::number::rounding::lemma_pow2_24;
use crate::number::single::{
    difference, larger, negated, num, of_whole, product, sum, units, Single,
};
use crate::picture::{lemma_bounds, lemma_modest_sum};
use crate::room::lemma_whole_constant;
use crate::tray::{
    distance, file_radii, lemma_offset, offset, pixel, ring_radii, tray_radii, Radii, DOT_SHARE,
    MAX_SIDE, OUTER_SHARE, RING_SHARE,
};
use vstd::arithmetic::power2::{lemma2_to64, lemma_pow2_adds, lemma_pow2_pos, pow2};
use vstd::prelude::*;

verus! {

/// The square of how far the middle of a pixel is from the centre of the icon, exactly.
pub open spec fn exact_square(size: nat, x: nat, y: nat) -> int {
    let a = 2 * x + 1 - size;
    let b = 2 * y + 1 - size;
    (a * a + b * b) * (pow2(148) * pow2(148))
}

/// The square of an offset.
proof fn lemma_squared(side: nat, i: nat)
    requires
        i < side <= MAX_SIDE,
    ensures
        ({
            let a = 2 * i + 1 - side;
            let h = pow2(148) as int;
            let exact = (a * a) * (h * h);
            let p = product(offset(side, i), offset(side, i));
            &&& p.is_finite()
            &&& 0 <= exact <= 0x4000_0000 * (h * h)
            &&& 0x80_0000 * apart(p.value() * one(), exact) <= exact
            &&& 0 <= p.value() <= 0x4000_0000 * h
        }),
{
    let a = 2 * i + 1 - side;
    let h = pow2(148) as int;
    let o = one();
    let hh = h * h;
    let exact = (a * a) * hh;
    let f = offset(side, i);
    lemma_offset(side, i);
    lemma_one_is_large();
    lemma_bounds();
    lemma_pow2_pos(148);
    lemma_pow2_adds(1, 148);
    lemma2_to64();
    assert(f.value() * f.value() == exact && 0 <= a * a <= 0x3fff_ffff) by (nonlinear_arith)
        requires
            f.value() == a * h,
            exact == (a * a) * hh,
            hh == h * h,
            -0x7fff <= a <= 0x7fff,
    ;
    assert(0 <= exact <= 0x3fff_ffff * hh && (a != 0 ==> hh <= exact) && (a == 0 ==> exact == 0)
        && 0x100_0000 * o <= hh && 0x3fff_ffff * hh < o * pow2(224)) by (nonlinear_arith)
        requires
            0 <= a * a <= 0x3fff_ffff,
            exact == (a * a) * hh,
            hh == h * h,
            o == 2 * h,
            0x1_0000_0000_0000 <= o,
            0x10_0000_0000_0000 * o <= pow2(224),
    {
        assert(a != 0 ==> a * a >= 1);
        assert(hh >= 0x1000_0000 * h);
        assert(0x3fff_ffff * hh < (0x10_0000_0000_0000 * o) * o);
    }
    lemma_product_is_finite(f, f);
    law_product_is_near(f, f);
    let p = product(f, f).value();
    assert(a == 0 ==> p == 0) by (nonlinear_arith)
        requires
            a == 0 ==> 0x100_0000 * apart(p * o, 0) <= 0x80_0000 * o,
            o > 0,
    {
        if a == 0 && p > 0 {
            assert(p * o >= o);
        }
        if a == 0 && p < 0 {
            assert(p * o <= -o);
        }
    }
    assert(0x80_0000 * apart(p * o, exact) <= exact) by {
        if a == 0 {
            assert(0 * o == 0);
        }
    }
    assert(0 <= p <= 0x4000_0000 * h) by (nonlinear_arith)
        requires
            0x80_0000 * apart(p * o, exact) <= exact,
            0 <= exact <= 0x3fff_ffff * hh,
            hh == h * h,
            o == 2 * h,
            h > 0,
    {
        if p < 0 {
            assert(p * o < 0);
        }
        if p > 0x4000_0000 * h {
            assert(p * o > (0x4000_0000 * h) * (2 * h));
        }
    }
}

/// The distance of a pixel is that of its middle from the centre of the icon: its square is
/// the sum of the squares of both offsets.
pub proof fn law_distance_is_to_the_centre(side: nat, x: nat, y: nat)
    requires
        x < side <= MAX_SIDE,
        y < side,
    ensures
        ({
            let d = distance(side, x, y);
            let exact = exact_square(side, x, y);
            &&& d.is_finite()
            &&& 0 <= d.value()
            &&& 0x10_0000 * apart(d.value() * d.value(), exact) <= exact
        }),
{
    let o = one();
    let h = pow2(148) as int;
    let hh = h * h;
    let a = 2 * x + 1 - side;
    let b = 2 * y + 1 - side;
    let px = product(offset(side, x), offset(side, x));
    let py = product(offset(side, y), offset(side, y));
    lemma_squared(side, x);
    lemma_squared(side, y);
    lemma_one_is_large();
    lemma_bounds();
    lemma_pow2_pos(148);
    lemma_pow2_adds(1, 148);
    lemma2_to64();
    lemma_modest_sum(px, py);
    law_sum_is_near(px, py);
    let s = sum(px, py);
    let v = px.value() + py.value();
    let exact = (a * a) * hh + (b * b) * hh;
    assert(exact_square(side, x, y) == exact) by (nonlinear_arith)
        requires
            exact == (a * a) * hh + (b * b) * hh,
            exact_square(side, x, y) == (a * a + b * b) * hh,
    ;
    let vo = v * o;
    let so = s.value() * o;
    assert(vo == px.value() * o + py.value() * o) by (nonlinear_arith)
        requires
            vo == v * o,
            v == px.value() + py.value(),
    ;
    assert(0x80_0000 * apart(vo, exact) <= exact);
    assert(v == 0 ==> s.value() == 0);
    assert(s.value() >= 0);
    assert(0x80_0000 * apart(so, vo) <= vo) by (nonlinear_arith)
        requires
            0x80_0000 * apart(s.value(), v) <= v,
            so == s.value() * o,
            vo == v * o,
            o > 0,
    {
        let e = s.value() - v;
        assert(so - vo == e * o);
        assert(size(e * o) == size(e) * o);
        assert((0x80_0000 * size(e)) * o <= v * o);
    }
    law_root_is_near(s);
}

/// A number and another, by their squares.
proof fn lemma_squares(a: int, b: int)
    requires
        0 <= a,
        0 <= b,
    ensures
        (a <= b) == (a * a <= b * b),
{
    assert((a <= b) == (a * a <= b * b)) by (nonlinear_arith)
        requires
            0 <= a,
            0 <= b,
    ;
}

/// What a pixel is, by its distance from the centre: clear outside the outer circle, dark
/// between the inner circle and the dot, white in the dot, and in the ring blue on the upper
/// left, orange on the upper right, green on the lower left and yellow on the lower right. A
/// pixel within one part in 2^20 of a circle may be on either side of it.
pub proof fn law_pixel_by_its_place(r: Radii, side: nat, x: nat, y: nat)
    requires
        x < side <= MAX_SIDE,
        y < side,
        r.outer.is_finite(),
        r.inner.is_finite(),
        r.dot.is_finite(),
        0 <= r.outer.value(),
        0 <= r.inner.value(),
        0 <= r.dot.value(),
    ensures
        ({
            let at = exact_square(side, x, y);
            let outer = r.outer.value() * r.outer.value();
            let inner = r.inner.value() * r.inner.value();
            let dot = r.dot.value() * r.dot.value();
            let outside = 0xf_ffff * at > 0x10_0000 * outer;
            let inside = 0x10_0001 * at <= 0x10_0000 * outer;
            let ring = 0xf_ffff * at >= 0x10_0000 * inner;
            let core = 0x10_0001 * at < 0x10_0000 * inner;
            let left = 2 * x + 1 < side;
            let upper = 2 * y + 1 < side;
            let p = pixel(r, side, x, y);
            &&& outside ==> p == seq![0u8, 0, 0, 0]
            &&& inside && ring && left && upper ==> p == seq![80u8, 170, 255, 255]
            &&& inside && ring && !left && upper ==> p == seq![255u8, 110, 50, 255]
            &&& inside && ring && left && !upper ==> p == seq![80u8, 240, 130, 255]
            &&& inside && ring && !left && !upper ==> p == seq![255u8, 230, 90, 255]
            &&& inside && core && 0x10_0001 * at <= 0x10_0000 * dot ==> p == seq![
                255u8,
                255,
                255,
                255,
            ]
            &&& inside && core && 0xf_ffff * at > 0x10_0000 * dot ==> p == seq![18u8, 18, 22, 255]
        }),
{
    let d = distance(side, x, y);
    law_distance_is_to_the_centre(side, x, y);
    lemma_squares(d.value(), r.outer.value());
    lemma_squares(r.inner.value(), d.value());
    lemma_squares(d.value(), r.dot.value());
    law_order_of_values(d, r.outer);
    law_order_of_values(r.inner, d);
    law_order_of_values(d, r.dot);
    lemma_offset(side, x);
    lemma_offset(side, y);
    lemma_pow2_pos(148);
    lemma_one_is_large();
    law_order_of_values(offset(side, x), num(0));
    law_order_of_values(offset(side, y), num(0));
    lemma_sign(2 * x + 1 - side, pow2(148) as int);
    lemma_sign(2 * y + 1 - side, pow2(148) as int);
    reveal(pixel);
}

proof fn lemma_sign(a: int, h: int)
    requires
        h > 0,
    ensures
        (a * h < 0) == (a < 0),
{
    assert((a * h < 0) == (a < 0)) by (nonlinear_arith)
        requires
            h > 0,
    ;
}

/// The shares of the radii, in units.
proof fn lemma_radii_shares()
    ensures
        num(OUTER_SHARE).is_finite(),
        num(RING_SHARE).is_finite(),
        num(DOT_SHARE).is_finite(),
        0 < num(OUTER_SHARE).value() <= one(),
        0 < num(RING_SHARE).value() <= one(),
        0 < num(DOT_SHARE).value() <= one(),
        0x10_0000 * apart(100 * num(OUTER_SHARE).value(), 46 * one()) <= 8 * one(),
        0x10_0000 * apart(100 * num(RING_SHARE).value(), 18 * one()) <= 8 * one(),
        0x10_0000 * apart(100 * num(DOT_SHARE).value(), 55 * one()) <= 8 * one(),
{
    reveal(units);
    lemma_pow2_24();
    lemma2_to64();
    lemma_pow2_pos(123);
    lemma_pow2_adds(26, 123);
    lemma_pow2_adds(1, 123);
    lemma_pow2_adds(2, 123);
    assert(num(OUTER_SHARE).value() == 0xeb_851f * pow2(124));
    assert(num(RING_SHARE).value() == 0xb8_51ec * pow2(123));
    assert(num(DOT_SHARE).value() == 0x8c_cccd * pow2(125));
    assert(one() == 0x400_0000 * pow2(123));
}

/// A share of a side.
proof fn lemma_share_of_side(side: nat, share: Single, c: int)
    requires
        side <= MAX_SIDE,
        share.is_finite(),
        0 < share.value() <= one(),
        0 <= c <= 100,
        0x10_0000 * apart(100 * share.value(), c * one()) <= 8 * one(),
    ensures
        ({
            let p = product(of_whole(side), share);
            &&& p.is_finite()
            &&& 0 <= p.value() <= (side + 1) * one()
            &&& 0x1_0000 * apart(100 * p.value(), (c * side) * one()) <= side * one() + one()
        }),
{
    let o = one();
    let v = share.value();
    let w = of_whole(side);
    let so = side * o;
    lemma_one_is_large();
    lemma_bounds();
    law_whole_numbers(side);
    let sv = side * v;
    assert((side * o) * v == sv * o && 0 <= sv <= so && size((side * o) * v) == sv * o && sv * o
        < o * pow2(224) && so <= 0x7fff * o) by (nonlinear_arith)
        requires
            sv == side * v,
            so == side * o,
            0 <= side <= 0x7fff,
            0 < v <= o,
            0x10_0000_0000_0000 * o <= pow2(224),
    {
        assert(sv * o <= (0x7fff * o) * o);
        assert((0x7fff * o) * o < pow2(224) * o);
    }
    lemma_product_is_finite(w, share);
    law_product_is_near(w, share);
    let p = product(w, share).value();
    assert(sv * o + 0x80_0000 * o == (sv + 0x80_0000) * o) by (nonlinear_arith);
    lemma_divided(p, sv, o, 0x100_0000, sv + 0x80_0000);
    let co = (c * side) * o;
    assert(0x10_0000 * apart(100 * sv, co) <= 8 * so) by (nonlinear_arith)
        requires
            sv == side * v,
            so == side * o,
            co == (c * side) * o,
            0 <= side,
            0x10_0000 * apart(100 * v, c * o) <= 8 * o,
    {
        let e = 100 * v - c * o;
        assert(100 * sv - co == e * side);
        assert(size(e * side) == size(e) * side);
        assert((0x10_0000 * size(e)) * side <= (8 * o) * side);
    }
    assert((side + 1) * o == so + o) by (nonlinear_arith)
        requires
            so == side * o,
    ;
}

/// The inner circle is inside the outer one by the thickness of the ring, and the radius of
/// the dot is 0.55 of that of the inner circle.
pub proof fn law_radii_of_a_ring(outer: Single, ring: Single)
    requires
        outer.is_finite(),
        ring.is_finite(),
        0 <= ring.value() <= outer.value(),
        outer.value() <= 0x1_0000 * one(),
    ensures
        ({
            let r = ring_radii(outer, ring);
            let between = outer.value() - ring.value();
            &&& r.outer == outer
            &&& r.inner.is_finite()
            &&& 0 <= r.inner.value()
            &&& 0x80_0000 * apart(r.inner.value(), between) <= outer.value()
            &&& r.dot.is_finite()
            &&& 0 <= r.dot.value()
            &&& 0x1_0000 * apart(100 * r.dot.value(), 55 * between) <= outer.value() + one()
        }),
{
    let o = one();
    lemma_one_is_large();
    lemma_bounds();
    lemma_radii_shares();
    lemma_modest_sum(outer, negated(ring));
    law_sum_is_near(outer, negated(ring));
    let inner = difference(outer, ring);
    let i = inner.value();
    let v = num(DOT_SHARE).value();
    let between = outer.value() - ring.value();
    assert(0x80_0000 * apart(i, between) <= between);
    let iv = i * v;
    assert(0 <= iv && iv < o * pow2(224)) by (nonlinear_arith)
        requires
            iv == i * v,
            0 <= i <= 0x2_0000 * o,
            0 < v <= o,
            0x10_0000_0000_0000 * o <= pow2(224),
    {
        assert(iv <= (0x2_0000 * o) * o);
        assert((0x2_0000 * o) * o < pow2(224) * o);
    }
    lemma_product_is_finite(inner, num(DOT_SHARE));
    law_product_is_near(inner, num(DOT_SHARE));
    let p = product(inner, num(DOT_SHARE)).value();
    let io = i * o;
    assert(0x10_0000 * apart(100 * iv, 55 * io) <= 8 * io && iv <= io) by (nonlinear_arith)
        requires
            iv == i * v,
            io == i * o,
            0 <= i,
            v <= o,
            0x10_0000 * apart(100 * v, 55 * o) <= 8 * o,
    {
        let e = 100 * v - 55 * o;
        assert(100 * iv - 55 * io == e * i);
        assert(size(e * i) == size(e) * i);
        assert((0x10_0000 * size(e)) * i <= (8 * o) * i);
    }
    let po = p * o;
    assert(0x4_0000 * apart(100 * po, 55 * io) <= 3 * io + 0x100_0000 * o);
    assert((100 * p) * o == 100 * po && (55 * i) * o == 55 * io && (3 * i + 0x100_0000) * o == 3
        * io + 0x100_0000 * o) by (nonlinear_arith)
        requires
            po == p * o,
            io == i * o,
    ;
    lemma_divided(100 * p, 55 * i, o, 0x4_0000, 3 * i + 0x100_0000);
    assert(p >= 0) by (nonlinear_arith)
        requires
            0x100_0000 * apart(p * o, iv) <= iv + 0x80_0000 * o,
            0 <= iv,
            o > 0,
    {
        if p < 0 {
            assert(p * o <= -o);
        }
    }
}

/// In the tray the ring reaches out to 0.46 of the side and in to 0.28 of it, and the dot to
/// 0.154.
pub proof fn law_radii_in_the_tray(side: nat)
    requires
        side <= MAX_SIDE,
    ensures
        ({
            let r = tray_radii(side);
            let all = side * one();
            &&& r.outer.is_finite() && r.inner.is_finite() && r.dot.is_finite()
            &&& 0x1000 * apart(100 * r.outer.value(), 46 * all) <= all + one()
            &&& 0x1000 * apart(100 * r.inner.value(), 28 * all) <= all + one()
            &&& 0x400 * apart(1000 * r.dot.value(), 154 * all) <= all + one()
            &&& 0 <= r.dot.value()
            &&& 0 <= r.inner.value()
            &&& 0 <= r.outer.value()
        }),
{
    let o = one();
    let all = side * o;
    lemma_one_is_large();
    lemma_radii_shares();
    lemma_share_of_side(side, num(OUTER_SHARE), 46);
    lemma_share_of_side(side, num(RING_SHARE), 18);
    let outer = product(of_whole(side), num(OUTER_SHARE));
    let ring = product(of_whole(side), num(RING_SHARE));
    assert((46 * side) * o == 46 * all && (18 * side) * o == 18 * all && (side + 1) * o == all + o
        && 0 <= all <= 0x7fff * o && (side == 0 ==> all == 0) && (side > 0 ==> all >= o))
        by (nonlinear_arith)
        requires
            all == side * o,
            0 <= side <= 0x7fff,
            o > 0,
    ;
    if side == 0 {
        law_whole_numbers(0);
        lemma_nothing(num(OUTER_SHARE));
        lemma_nothing(num(RING_SHARE));
    }
    law_radii_of_a_ring(outer, ring);
}

/// No share of nothing.
proof fn lemma_nothing(share: Single)
    requires
        share.is_finite(),
        0 < share.value() <= one(),
    ensures
        product(of_whole(0), share).value() == 0,
{
    let o = one();
    lemma_one_is_large();
    lemma_bounds();
    law_whole_numbers(0);
    let w = of_whole(0);
    assert(w.value() == 0) by {
        assert(0 * o == 0);
    }
    assert(0 * share.value() == 0);
    assert(0 < o * pow2(224)) by (nonlinear_arith)
        requires
            o > 0,
            0x10_0000_0000_0000 * o <= pow2(224),
    ;
    lemma_product_is_finite(w, share);
    law_product_is_near(w, share);
    let p = product(w, share).value();
    assert(p == 0) by (nonlinear_arith)
        requires
            0x100_0000 * apart(p * o, 0) <= 0x80_0000 * o,
            o > 0,
    {
        if p > 0 {
            assert(p * o >= o);
        }
        if p < 0 {
            assert(p * o <= -o);
        }
    }
}

/// The icon of the program's file has the same ring, but at least 8 pixels out from the
/// centre and at least 4 pixels thick.
pub proof fn law_radii_in_the_file(side: nat)
    requires
        side <= MAX_SIDE,
    ensures
        ({
            let r = file_radii(side);
            let o = one();
            let all = side * o;
            let outer = if 46 * all < 800 * o {
                800 * o
            } else {
                46 * all
            };
            let ring = if 18 * all < 400 * o {
                400 * o
            } else {
                18 * all
            };
            &&& r.outer.is_finite() && r.inner.is_finite() && r.dot.is_finite()
            &&& 0x1000 * apart(100 * r.outer.value(), outer) <= all + o
            &&& 0x1000 * apart(100 * r.inner.value(), outer - ring) <= all + 16 * o
            &&& 0x400 * apart(10000 * r.dot.value(), 55 * (outer - ring)) <= 8 * (all + 16 * o)
            &&& 0 <= r.dot.value()
            &&& 0 <= r.inner.value()
            &&& 0 <= r.outer.value()
        }),
{
    let o = one();
    let all = side * o;
    lemma_one_is_large();
    lemma_radii_shares();
    lemma2_to64();
    lemma_whole_constant(EIGHT, 8, 20);
    lemma_whole_constant(FOUR, 4, 21);
    lemma_share_of_side(side, num(OUTER_SHARE), 46);
    lemma_share_of_side(side, num(RING_SHARE), 18);
    let a = product(of_whole(side), num(OUTER_SHARE));
    let b = product(of_whole(side), num(RING_SHARE));
    law_order_of_values(a, num(EIGHT));
    law_order_of_values(b, num(FOUR));
    let outer = larger(a, num(EIGHT));
    let ring = larger(b, num(FOUR));
    assert((46 * side) * o == 46 * all && (18 * side) * o == 18 * all && (side + 1) * o == all + o
        && 0 <= all <= 0x7fff * o) by (nonlinear_arith)
        requires
            all == side * o,
            0 <= side <= 0x7fff,
            o > 0,
    ;
    law_radii_of_a_ring(outer, ring);
}

} // verus!
