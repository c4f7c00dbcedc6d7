//! The smooth step: where it begins, where it ends, and its curve between.
use crate::layout::{smooth_step, step_part, THREE};
use crate::number::constants::{ONE, TWO};
use crate::number::laws::apart;
use crate::number::near::{
    law_held_between, law_product_is_near, law_quotient_is_near, law_sum_is_near, lemma_divided,
    lemma_one_is_large, lemma_product_is_finite, lemma_quotient_is_finite, lemma_size_times,
    lemma_times, one, size,
};
use crate::number::single::{difference, negated, num, product, quotient, Single};
use crate::picture::{held, is_modest, lemma_bounds, lemma_modest_sum};
use crate::room::lemma_whole_constant;
use vstd::arithmetic::power2::{lemma2_to64, pow2};
use vstd::prelude::*;

verus! {

/// 3, in units.
proof fn lemma_three()
    ensures
        num(THREE).is_finite(),
        num(THREE).value() == 3 * one(),
{
    lemma2_to64();
    lemma_whole_constant(THREE, 3, 22);
}

/// The step follows the curve `t * t * (3 - 2 * t)` over the part `t` of the way: it is 0 at
/// its beginning, 1 at its end, and a half in the middle.
pub proof fn law_step_follows_its_curve(e0: Single, e1: Single, x: Single)
    requires
        step_part(e0, e1, x).is_finite(),
    ensures
        ({
            let o = one();
            let t = step_part(e0, e1, x).value();
            let r = smooth_step(e0, e1, x);
            &&& 0 <= t <= o
            &&& r.is_finite()
            &&& 0x4_0000 * apart(r.value() * (o * o), (t * t) * (3 * o - 2 * t)) <= (o * o) * o
        }),
{
    let o = one();
    let part = step_part(e0, e1, x);
    let t = part.value();
    lemma_one_is_large();
    lemma_bounds();
    lemma_three();
    let way = quotient(difference(x, e0), difference(e1, e0));
    assert(0 <= t <= o) by {
        if way.is_finite() {
            law_held_between(way, num(0), num(ONE));
        }
    }
    lemma_size_times(t, t, o, o);
    assert(o * o < o * pow2(224)) by (nonlinear_arith)
        requires
            0x10_0000_0000_0000 * o <= pow2(224),
            o > 0,
    ;
    lemma_product_is_finite(part, part);
    law_product_is_near(part, part);
    let square = product(part, part);
    let p = square.value();
    lemma_size_times(2 * o, t, 2 * o, o);
    assert((2 * o) * o < o * pow2(224)) by (nonlinear_arith)
        requires
            0x10_0000_0000_0000 * o <= pow2(224),
            o > 0,
    ;
    lemma_product_is_finite(num(TWO), part);
    law_product_is_near(num(TWO), part);
    let twice = product(num(TWO), part);
    let q = twice.value();
    assert(0x100_0000 * apart(q, 2 * t) <= 2 * t + 0x80_0000) by {
        assert((2 * o) * t == (2 * t) * o && size((2 * o) * t) == (2 * t) * o) by (nonlinear_arith)
            requires
                0 <= t,
                o > 0,
        ;
        assert((2 * t) * o + 0x80_0000 * o == (2 * t + 0x80_0000) * o) by (nonlinear_arith);
        lemma_divided(q, 2 * t, o, 0x100_0000, 2 * t + 0x80_0000);
    }
    lemma_modest_sum(num(THREE), negated(twice));
    law_sum_is_near(num(THREE), negated(twice));
    let rest = difference(num(THREE), twice);
    let d = rest.value();
    let exact = 3 * o - 2 * t;
    assert(0x20_0000 * apart(d, exact) <= o && 0 <= d <= 4 * o);
    let oo = o * o;
    let ooo = oo * o;
    let tt = t * t;
    assert(0 <= tt <= oo && o * 0x1_0000_0000_0000 <= oo && 0 <= tt) by (nonlinear_arith)
        requires
            tt == t * t,
            oo == o * o,
            0 <= t <= o,
            0x1_0000_0000_0000 <= o,
    ;
    assert(0x80_0000 * apart(p * o, tt) <= oo);
    assert(-o <= p <= 2 * o) by (nonlinear_arith)
        requires
            0x80_0000 * apart(p * o, tt) <= oo,
            0 <= tt <= oo,
            oo == o * o,
            0 < o,
    {
        if p < -o {
            assert(p * o < -oo);
        }
        if p > 2 * o {
            assert(p * o > 2 * oo);
        }
    }
    lemma_size_times(p, d, 2 * o, 4 * o);
    assert((2 * o) * (4 * o) < o * pow2(224)) by (nonlinear_arith)
        requires
            0x10_0000_0000_0000 * o <= pow2(224),
            o > 0,
    ;
    lemma_product_is_finite(square, rest);
    law_product_is_near(square, rest);
    let r = smooth_step(e0, e1, x).value();
    let pd = p * d;
    assert((2 * o) * (4 * o) == 8 * oo) by (nonlinear_arith)
        requires
            oo == o * o,
    ;
    assert(0x100_0000 * apart(r * o, pd) <= 9 * oo);
    lemma_times(r * o, pd, o, 0x100_0000, 9 * oo, o);
    lemma_times(p * o, tt, d, 0x80_0000, oo, 4 * o);
    lemma_times(d, exact, tt, 0x20_0000, o, oo);
    assert((r * o) * o == r * oo && pd * o == (p * o) * d && (9 * oo) * o == 9 * ooo && oo * (4
        * o) == 4 * ooo && o * oo == ooo) by (nonlinear_arith)
        requires
            oo == o * o,
            ooo == oo * o,
            pd == p * d,
    ;
}

/// The part of the way is how far `x` is from `e0`, in distances from `e0` to `e1`, and it
/// ends at both.
pub proof fn law_step_part_is_the_way(e0: Single, e1: Single, x: Single)
    requires
        is_modest(e0),
        is_modest(e1),
        is_modest(x),
        one() <= 0x1_0000 * (e1.value() - e0.value()),
    ensures
        ({
            let o = one();
            let all = e1.value() - e0.value();
            let way = x.value() - e0.value();
            let t = step_part(e0, e1, x);
            &&& t.is_finite()
            &&& way <= 0 ==> t.value() == 0
            &&& 0x10_0000 * apart(t.value() * all, held(way, 0, all) * o) <= all * o
        }),
{
    let o = one();
    let all = e1.value() - e0.value();
    let way = x.value() - e0.value();
    lemma_one_is_large();
    lemma_bounds();
    lemma_modest_sum(x, negated(e0));
    lemma_modest_sum(e1, negated(e0));
    law_sum_is_near(x, negated(e0));
    law_sum_is_near(e1, negated(e0));
    let up = difference(x, e0);
    let down = difference(e1, e0);
    let n = up.value();
    let d = down.value();
    assert(0x80_0000 * apart(d, all) <= all && d > 0);
    assert(0x100_0000 * apart(n, way) <= size(way) + 0x80_0000);
    assert(size(n) * o < size(d) * pow2(224)) by (nonlinear_arith)
        requires
            size(n) < 4 * pow2(200),
            0x2_0000 * d >= o,
            o > 0,
            pow2(224) == 0x100_0000 * pow2(200),
            pow2(200) > 0,
    {
        assert(size(n) * o < (4 * pow2(200)) * o);
        assert((4 * pow2(200)) * o <= (4 * pow2(200)) * (0x2_0000 * d));
    }
    lemma_quotient_is_finite(up, down);
    law_quotient_is_near(up, down);
    let q = quotient(up, down);
    law_held_between(q, num(0), num(ONE));
    lemma_part(q.value(), step_part(e0, e1, x).value(), n, d, way, all, o);
}

/// The part that a quotient gives, from what its terms are near to.
proof fn lemma_part(q: int, t: int, n: int, d: int, way: int, all: int, o: int)
    requires
        0x1_0000_0000_0000 <= o,
        o <= 0x1_0000 * all,
        0x80_0000 * apart(d, all) <= all,
        0x100_0000 * apart(n, way) <= size(way) + 0x80_0000,
        way <= 0 ==> n <= 0,
        0x100_0000 * apart(q * d, n * o) <= size(n * o) + 0x80_0000 * size(d),
        t == held(q, 0, o),
    ensures
        way <= 0 ==> t == 0,
        0x10_0000 * apart(t * all, held(way, 0, all) * o) <= all * o,
{
    let qd = q * d;
    let no = n * o;
    let td = t * d;
    let od = o * d;
    assert(size(no) == size(n) * o && (n <= 0 ==> no <= 0) && (n > 0 ==> no > 0))
        by (nonlinear_arith)
        requires
            no == n * o,
            o > 0,
    ;
    assert((q > 0 ==> qd >= d) && (q < 0 ==> qd <= -d) && (q <= 0 ==> td == 0) && (q >= o ==> td
        == od && qd >= od) && (0 <= q <= o ==> td == qd) && (q <= o ==> qd <= od))
        by (nonlinear_arith)
        requires
            qd == q * d,
            td == t * d,
            od == o * d,
            d > 0,
            o > 0,
            t == held(q, 0, o),
    ;
    let h = held(n, 0, d);
    let ho = h * o;
    assert((n <= 0 ==> ho == 0) && (n >= d ==> ho == od && no >= od) && (0 <= n <= d ==> ho == no
        && no <= od)) by (nonlinear_arith)
        requires
            h == held(n, 0, d),
            ho == h * o,
            no == n * o,
            od == o * d,
            d > 0,
            o > 0,
    ;
    assert(0x1_0000_0000_0000 * d <= od) by (nonlinear_arith)
        requires
            0x1_0000_0000_0000 <= o,
            od == o * d,
            d > 0,
    ;
    assert(n <= 0 ==> q <= 0) by {
        if n <= 0 && q > 0 {
            assert(qd >= d);
            assert(apart(qd, no) >= d + size(no));
        }
    }
    assert(0x40_0000 * apart(td, ho) <= od);
    let w = held(way, 0, all);
    assert(0x20_0000 * apart(h, w) <= all);
    let all_o = all * o;
    lemma_times(h, w, o, 0x20_0000, all, o);
    lemma_times(d, all, t, 0x80_0000, all, o);
    assert(t * d == td && o * d == od && 2 * all_o >= od) by (nonlinear_arith)
        requires
            td == t * d,
            od == o * d,
            d <= 2 * all,
            all_o == all * o,
            o > 0,
    ;
}

} // verus!
