//! The frame of the picture: the edges of the strip, its ground, its middle and its corners,
//! and the window that it is in.
use crate::display::{points_of, Display};
use crate::layout::{edges, Edges};
use crate::number::constants::{EIGHT, FOUR, FOURTEEN, ONE, SIXTEEN, TWO};
use crate::number::laws::{apart, law_short_numbers_are_exact};
use crate::number::near::{
    is_nearest_to, law_held_between, law_order_of_values, law_product_is_near,
    law_quotient_is_near, law_sum_is_the_nearest, law_truncated_is_the_whole_part,
    lemma_one_is_large, lemma_product_is_finite, lemma_quotient_is_finite, lemma_size_times, one,
    size,
};
use crate::number::rounding::lemma_pow2_24;
use crate::number::single::{
    difference, less, limited, negated, num, of_whole, product, quotient, sum, truncated, units,
    Single, UNIT_SHIFT,
};
use crate::paint::{
    center_x, corner, glass_strip, ground_alpha, handle, handle_line, strip_shapes, Scene, Shape,
    GROUND_ALPHA, MIN_OPACITY,
};
use crate::picture::{held, is_modest, lemma_bounds, lemma_modest_sum};
use crate::room::{lemma_constants, lemma_whole_constant};
use vstd::arithmetic::power2::{lemma2_to64, lemma_pow2_adds, lemma_pow2_pos, pow2};
use vstd::prelude::*;

verus! {

/// The edges of a rectangle are its size apart.
pub proof fn law_edges_are_a_size_apart(x: Single, y: Single, width: Single, height: Single)
    requires
        is_modest(x),
        is_modest(y),
        is_modest(width),
        is_modest(height),
    ensures
        ({
            let e = edges(x, y, width, height);
            &&& e.left == x
            &&& e.top == y
            &&& is_nearest_to(e.right, x.value() + width.value())
            &&& is_nearest_to(e.bottom, y.value() + height.value())
        }),
{
    lemma_bounds();
    law_sum_is_the_nearest(x, width);
    law_sum_is_the_nearest(y, height);
}

/// The middle line is halfway between the edges.
pub proof fn law_center_is_halfway(strip: Edges)
    requires
        is_modest(strip.left),
        is_modest(strip.right),
    ensures
        ({
            let l = strip.left.value();
            let r = strip.right.value();
            &&& center_x(strip).is_finite()
            &&& 0x40_0000 * apart(2 * center_x(strip).value(), l + r) <= size(l) + size(r)
                + 0x100_0000
        }),
{
    let o = one();
    let s = sum(strip.left, strip.right);
    lemma_one_is_large();
    lemma_bounds();
    lemma_modest_sum(strip.left, strip.right);
    let v = s.value();
    assert(size(v) * o < (2 * o) * pow2(224)) by (nonlinear_arith)
        requires
            size(v) < pow2(224),
            o > 0,
    ;
    lemma_quotient_is_finite(s, num(TWO));
    law_quotient_is_near(s, num(TWO));
    let q = center_x(strip).value();
    assert(0x100_0000 * apart(2 * q, v) <= size(v) + 0x100_0000) by (nonlinear_arith)
        requires
            0x100_0000 * apart(q * (2 * o), v * o) <= size(v * o) + 0x80_0000 * (2 * o),
            o > 0,
    {
        let x = 2 * q - v;
        assert(q * (2 * o) - v * o == x * o);
        assert(size(x * o) == size(x) * o);
        assert(size(v * o) == size(v) * o);
        assert((0x100_0000 * size(x)) * o <= (size(v) + 0x100_0000) * o);
    }
}

/// The corner by which the strip is resized is a square of 16 pixels, 2 pixels from the right
/// and the bottom edge of the strip.
pub proof fn law_handle_is_in_the_corner(strip: Edges)
    requires
        is_modest(strip.right),
        is_modest(strip.bottom),
    ensures
        ({
            let h = handle(strip);
            let r = strip.right.value();
            let b = strip.bottom.value();
            let o = one();
            &&& 0x10_0000 * apart(h.left.value(), r - 18 * o) <= size(r) + 32 * o
            &&& 0x10_0000 * apart(h.right.value(), r - 2 * o) <= size(r) + 32 * o
            &&& 0x10_0000 * apart(h.top.value(), b - 18 * o) <= size(b) + 32 * o
            &&& 0x10_0000 * apart(h.bottom.value(), b - 2 * o) <= size(b) + 32 * o
        }),
{
    lemma_one_is_large();
    lemma_bounds();
    lemma_constants();
    let six = num(SIXTEEN);
    let two = num(TWO);
    lemma_modest_sum(strip.right, negated(six));
    lemma_modest_sum(difference(strip.right, six), negated(two));
    lemma_modest_sum(difference(difference(strip.right, six), two), six);
    lemma_modest_sum(strip.bottom, negated(six));
    lemma_modest_sum(difference(strip.bottom, six), negated(two));
    lemma_modest_sum(difference(difference(strip.bottom, six), two), six);
}

/// The ground is as clear as the user chose, from a fifth of 170 to 170, rounded down.
pub proof fn law_ground_by_opacity(opacity: Single)
    requires
        opacity.is_finite(),
    ensures
        ({
            let a = ground_alpha(opacity) as int;
            let exact = 170 * held(opacity.value(), num(MIN_OPACITY).value(), one());
            &&& 0x1000 * (a * one() - exact) <= one()
            &&& 0x1000 * (exact - (a + 1) * one()) <= one()
        }),
        apart(5 * num(MIN_OPACITY).value(), one()) * 0x10_0000 <= one(),
{
    let o = one();
    lemma_one_is_large();
    lemma_bounds();
    lemma_opacity();
    law_held_between(opacity, num(MIN_OPACITY), num(ONE));
    let z = limited(opacity, num(MIN_OPACITY), num(ONE));
    let g = num(GROUND_ALPHA);
    let zv = z.value();
    lemma_size_times(170 * o, zv, 170 * o, o);
    assert((170 * o) * o < o * pow2(224)) by (nonlinear_arith)
        requires
            0x10_0000_0000_0000 * o <= pow2(224),
            o > 0,
    ;
    lemma_product_is_finite(g, z);
    law_product_is_near(g, z);
    let p = product(g, z);
    let pv = p.value();
    let e = 170 * zv;
    assert(0x100_0000 * apart(pv, e) <= e + 0x80_0000) by (nonlinear_arith)
        requires
            0x100_0000 * apart(pv * o, (170 * o) * zv) <= size((170 * o) * zv) + 0x80_0000 * o,
            e == 170 * zv,
            0 <= zv,
            o > 0,
    {
        let x = pv - e;
        assert(pv * o - (170 * o) * zv == x * o);
        assert(size(x * o) == size(x) * o);
        assert(size((170 * o) * zv) == e * o);
        assert((0x100_0000 * size(x)) * o <= (e + 0x80_0000) * o);
    }
    assert((255nat + 1) * one() == 256 * o);
    law_truncated_is_the_whole_part(p, 255);
    let a = truncated(p, 255) as int;
    assert((a + 1) * o == a * o + o) by (nonlinear_arith);
}

/// 170 and 0.2, in units.
proof fn lemma_opacity()
    ensures
        num(GROUND_ALPHA).is_finite(),
        num(GROUND_ALPHA).value() == 170 * one(),
        num(MIN_OPACITY).is_finite(),
        0 < num(MIN_OPACITY).value() <= one(),
        apart(5 * num(MIN_OPACITY).value(), one()) * 0x10_0000 <= one(),
{
    reveal(units);
    lemma_pow2_24();
    lemma2_to64();
    lemma_pow2_pos(123);
    lemma_pow2_adds(26, 123);
    lemma_whole_constant(GROUND_ALPHA, 170, 16);
    assert(num(MIN_OPACITY).value() == 0xcc_cccd * pow2(123));
    assert(one() == 0x400_0000 * pow2(123));
}

/// While the strip is edited, each of its corners is marked by two lines of 14 pixels that
/// begin in the corner and run along the edges, inwards.
pub proof fn law_corners_are_marked(strip: Edges, opacity: Single)
    ensures
        ({
            let s = glass_strip(strip, opacity, true);
            let len = num(FOURTEEN);
            let back = negated(len);
            &&& s.len() == 9
            &&& s.subrange(1, 3) == corner(strip.left, strip.top, len, len)
            &&& s.subrange(3, 5) == corner(strip.right, strip.top, back, len)
            &&& s.subrange(5, 7) == corner(strip.left, strip.bottom, len, back)
            &&& s.subrange(7, 9) == corner(strip.right, strip.bottom, back, back)
            &&& glass_strip(strip, opacity, false).len() == 1
        }),
{
    let s = glass_strip(strip, opacity, true);
    let len = num(FOURTEEN);
    let back = negated(len);
    assert(s.subrange(1, 3) =~= corner(strip.left, strip.top, len, len));
    assert(s.subrange(3, 5) =~= corner(strip.right, strip.top, back, len));
    assert(s.subrange(5, 7) =~= corner(strip.left, strip.bottom, len, back));
    assert(s.subrange(7, 9) =~= corner(strip.right, strip.bottom, back, back));
}

/// The window is as large as the display, in points: as many pixels to a point as the scale
/// factor says, or one where it is not positive.
pub proof fn law_window_is_the_display(d: Display)
    requires
        d.width <= 0x100_0000,
        d.height <= 0x100_0000,
        d.scale_factor.is_finite(),
        one() <= 0x1000 * d.scale_factor.value() || d.scale_factor.value() <= 0,
    ensures
        ({
            let (w, h) = points_of(d);
            let o = one();
            let scale = if d.scale_factor.value() <= 0 {
                o
            } else {
                d.scale_factor.value()
            };
            &&& w.is_finite()
            &&& h.is_finite()
            &&& 0x10_0000 * apart(w.value() * scale, d.width * (o * o)) <= d.width * (o * o)
                + 0x10_0000 * scale
            &&& 0x10_0000 * apart(h.value() * scale, d.height * (o * o)) <= d.height * (o * o)
                + 0x10_0000 * scale
        }),
{
    let scale = if less(num(0), d.scale_factor) {
        d.scale_factor
    } else {
        num(ONE)
    };
    lemma_one_is_large();
    law_order_of_values(num(0), d.scale_factor);
    lemma_points(d.width, scale);
    lemma_points(d.height, scale);
}

proof fn lemma_points(n: u32, scale: Single)
    requires
        n <= 0x100_0000,
        scale.is_finite(),
        one() <= 0x1000 * scale.value(),
    ensures
        ({
            let q = quotient(of_whole(n as nat), scale);
            let o = one();
            &&& q.is_finite()
            &&& 0x10_0000 * apart(q.value() * scale.value(), n * (o * o)) <= n * (o * o)
                + 0x10_0000 * scale.value()
        }),
{
    let o = one();
    let w = of_whole(n as nat);
    lemma_one_is_large();
    lemma_bounds();
    lemma_pow2_24();
    law_short_numbers_are_exact(n as nat, UNIT_SHIFT as nat);
    assert(w.is_finite() && w.value() == n * o) by {
        reveal(of_whole);
    }
    let s = scale.value();
    assert(0 <= n * o && size(n * o) * o < size(s) * pow2(224) && (n * o) * o == n * (o * o) && n
        * (o * o) >= 0) by (nonlinear_arith)
        requires
            0 <= n <= 0x100_0000,
            o <= 0x1000 * s,
            0x10_0000_0000_0000 * o <= pow2(224),
            o > 0,
    {
        assert(n * o <= 0x100_0000 * o);
        assert((n * o) * o <= (0x100_0000 * o) * (0x1000 * s));
        assert((0x100_0000 * o) * (0x1000 * s) == (0x10_0000_0000 * o) * s);
        assert((0x10_0000_0000 * o) * s < pow2(224) * s);
    }
    lemma_quotient_is_finite(w, scale);
    law_quotient_is_near(w, scale);
}

/// A line from one place to another, both nearest to the exact ones.
pub open spec fn is_line(s: Shape, x0: int, y0: int, x1: int, y1: int) -> bool {
    match s {
        Shape::Line { x0: a, y0: b, x1: c, y1: d, .. } => {
            &&& is_nearest_to(a, x0)
            &&& is_nearest_to(b, y0)
            &&& is_nearest_to(c, x1)
            &&& is_nearest_to(d, y1)
        },
        _ => false,
    }
}

/// The two lines of a corner marker begin in the corner and run along its edges.
pub proof fn law_corner_runs_along_its_edges(x: Single, y: Single, along: Single, down: Single)
    requires
        is_modest(x),
        is_modest(y),
        is_modest(along),
        is_modest(down),
    ensures
        ({
            let lines = corner(x, y, along, down);
            let xv = x.value();
            let yv = y.value();
            &&& lines.len() == 2
            &&& is_line(lines[0], xv, yv, xv + along.value(), yv)
            &&& is_line(lines[1], xv, yv, xv, yv + down.value())
        }),
{
    lemma_bounds();
    lemma_one_is_large();
    law_sum_is_the_nearest(x, along);
    law_sum_is_the_nearest(y, num(0));
    law_sum_is_the_nearest(x, num(0));
    law_sum_is_the_nearest(y, down);
}

/// While the strip is edited, three lines mark the corner by which it is resized, each from
/// the lower edge of that corner up to its right edge, one pixel inside it; the second is 4
/// pixels long on either side and the third 8.
pub proof fn law_handle_is_marked(scene: Scene)
    requires
        is_modest(handle(scene.strip).right),
        is_modest(handle(scene.strip).bottom),
    ensures
        ({
            let s = strip_shapes(scene, true);
            let r = handle(scene.strip).right.value();
            let b = handle(scene.strip).bottom.value();
            &&& is_slanted(s[s.len() - 3], r, b, 0)
            &&& is_slanted(s[s.len() - 2], r, b, 4)
            &&& is_slanted(s[s.len() - 1], r, b, 8)
        }),
{
    let h = handle(scene.strip);
    lemma_one_is_large();
    lemma2_to64();
    lemma_whole_constant(FOUR, 4, 21);
    lemma_whole_constant(EIGHT, 8, 20);
    lemma_slanted(h, num(0), 0);
    lemma_slanted(h, num(FOUR), 4);
    lemma_slanted(h, num(EIGHT), 8);
}

/// A line from the lower edge of a corner to its right edge, `n` pixels from where they meet,
/// but one pixel inside it.
pub open spec fn is_slanted(s: Shape, r: int, b: int, n: int) -> bool {
    let o = one();
    let from = n * o;
    match s {
        Shape::Line { x0, y0, x1, y1, .. } => {
            &&& 0x10_0000 * apart(x0.value(), r - from - o) <= size(r) + 16 * o
            &&& 0x10_0000 * apart(y0.value(), b - o) <= size(b) + 16 * o
            &&& 0x10_0000 * apart(x1.value(), r - o) <= size(r) + 16 * o
            &&& 0x10_0000 * apart(y1.value(), b - from - o) <= size(b) + 16 * o
        },
        _ => false,
    }
}

proof fn lemma_slanted(h: Edges, off: Single, n: int)
    requires
        is_modest(h.right),
        is_modest(h.bottom),
        off.is_finite(),
        0 <= n <= 8,
        off.value() == n * one(),
    ensures
        is_slanted(handle_line(h, off), h.right.value(), h.bottom.value(), n),
{
    let o = one();
    lemma_one_is_large();
    lemma_bounds();
    assert(0 <= n * o <= 8 * o) by (nonlinear_arith)
        requires
            0 <= n <= 8,
            o > 0,
    ;
    lemma_modest_sum(h.right, negated(off));
    lemma_modest_sum(difference(h.right, off), negated(num(ONE)));
    lemma_modest_sum(h.bottom, negated(num(ONE)));
    lemma_modest_sum(h.right, negated(num(ONE)));
    lemma_modest_sum(h.bottom, negated(off));
    lemma_modest_sum(difference(h.bottom, off), negated(num(ONE)));
}

} // verus!
