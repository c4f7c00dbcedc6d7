//! The direction of a band: the mean of where its bins point, each weighing as much as its
//! gains.
use crate::bands::{direction_of, energy_of, totals, TINY};
use crate::channel::NUM_BINS;
use crate::mean::{is_mean_energy, law_energy_is_the_mean, lemma_bin_energy, lemma_term_below_sum};
use crate::number::constants::{HALF, MINUS_ONE, ONE};
use crate::number::laws::{
    apart, law_difference_symmetric, law_sum_commutes, law_sum_error, lemma_one,
};
use crate::number::near::{
    law_product_is_near, law_quotient_is_near, law_sum_is_near, one, size,
};
use crate::number::order::{
    law_order_is_that_of_values, lemma_nearest_exact, lemma_nearest_monotone, lemma_units_order,
    lemma_zero_units,
};
use crate::number::rounding::lemma_pow2_24;
use crate::number::single::{
    at_most, difference, less, negated, num, product, quotient, sum, units, Single,
};
use crate::range::{
    amounts, amounts_in_bin, bounded_gains, is_amount, law_energy_stays_finite,
    lemma_direction_size, lemma_fewer_gains, lemma_totals_side, lemma_weighted_size, LARGE_GAIN,
};
use crate::sides::{bin_energy, lemma_apart_below_sum, lemma_bin_side};
use vstd::arithmetic::power2::{lemma2_to64, lemma_pow2_adds, lemma_pow2_pos, pow2};
use vstd::prelude::*;

verus! {

/// Whether a bin is loud enough to point anywhere.
pub open spec fn is_heard(l: Single, r: Single) -> bool {
    less(num(TINY), sum(l, r))
}

/// Where a bin points, in units: what it is louder on the right, as a part of all of it.
pub open spec fn side_of(l: Single, r: Single) -> int {
    (r.value() - l.value()) * one() / (l.value() + r.value())
}

/// 1e-9 is more than 2^-30.
proof fn lemma_tiny()
    ensures
        num(TINY).is_finite(),
        pow2(119) <= num(TINY).value(),
        0x100_0000_0000 <= pow2(119),
        one() == 0x4000_0000 * pow2(119),
        one() == 0x40_0000 * pow2(127),
        pow2(127) == 0x100 * pow2(119),
        pow2(119) > 0,
{
    reveal(units);
    lemma_pow2_24();
    lemma2_to64();
    vstd::arithmetic::power2::lemma2_to64_rest();
    lemma_pow2_pos(119);
    lemma_pow2_pos(96);
    lemma_pow2_adds(23, 96);
    lemma_pow2_adds(30, 119);
    lemma_pow2_adds(22, 127);
    lemma_pow2_adds(8, 119);
    lemma_pow2_adds(40, 79);
    lemma_pow2_pos(79);
    assert(0x100_0000_0000 * pow2(79) >= 0x100_0000_0000);
    assert(num(TINY).value() == 0x89_705f * pow2(96));
    assert(pow2(119) == 0x80_0000 * pow2(96));
}

/// The rounded direction of a bin is where it points.
pub proof fn lemma_bin_side_near(l: Single, r: Single)
    requires
        is_amount(l),
        is_amount(r),
        is_heard(l, r),
        l.value() + r.value() < pow2(224),
    ensures
        ({
            let q = quotient(difference(r, l), sum(l, r));
            &&& q.is_finite()
            &&& q.magnitude() <= ONE
            &&& apart(q.value(), side_of(l, r)) <= pow2(127)
            &&& size(side_of(l, r)) <= one()
        }),
{
    let o = one();
    let d = difference(r, l);
    let m = sum(l, r);
    let q = quotient(d, m);
    lemma_tiny();
    lemma_zero_units();
    lemma_bin_side(l, r);
    law_sum_error(l, r, 200);
    law_sum_commutes(l, r);
    law_order_is_that_of_values(num(TINY), m);
    if l.value() <= r.value() {
        lemma_apart_below_sum(r, l);
    } else {
        lemma_apart_below_sum(l, r);
        law_difference_symmetric(l, r);
    }
    law_difference_symmetric(l, r);
    assert(d.is_finite() && d.magnitude() <= m.magnitude());
    lemma_units_order(d.magnitude(), m.magnitude());
    law_sum_is_near(l, r);
    law_sum_is_near(r, negated(l));
    law_quotient_is_near(d, m);
    let x = r.value() - l.value();
    let s = l.value() + r.value();
    let g = side_of(l, r);
    let dv = d.value();
    let mv = m.value();
    let qv = q.value();
    assert(s > 0);
    vstd::arithmetic::div_mod::lemma_fundamental_div_mod(x * o, s);
    let rem = (x * o) % s;
    assert(-o <= g <= o) by (nonlinear_arith)
        requires
            x * o == s * g + rem,
            0 <= rem < s,
            -s <= x <= s,
            o > 0,
    ;
    // everything as multiples of one
    let s1 = s * o;
    let m1 = mv * o;
    assert(0x100_0000 * apart(dv * o, x * o) <= s1 + 0x80_0000 * o) by (nonlinear_arith)
        requires
            0x100_0000 * apart(dv, x) <= size(x) + 0x80_0000,
            size(x) <= s,
            s1 == s * o,
            o > 0,
    {
        if dv >= x {
            assert(dv * o - x * o == (dv - x) * o);
            assert(0x100_0000 * (dv - x) * o <= (s + 0x80_0000) * o);
        } else {
            assert(x * o - dv * o == (x - dv) * o);
            assert(0x100_0000 * (x - dv) * o <= (s + 0x80_0000) * o);
        }
    }
    assert(0x100_0000 * apart(g * mv, g * s) <= s1 + 0x80_0000 * o) by (nonlinear_arith)
        requires
            0x100_0000 * apart(mv, s) <= s + 0x80_0000,
            -o <= g <= o,
            s1 == s * o,
            o > 0,
    {
        let k = mv - s;
        assert(g * mv - g * s == g * k);
        assert(-(o * size(k)) <= g * k <= o * size(k));
        assert(0x100_0000 * size(k) * o <= (s + 0x80_0000) * o);
    }
    assert(0x100_0000 * apart(m1, s1) <= s1 + 0x80_0000 * o) by (nonlinear_arith)
        requires
            0x100_0000 * apart(mv, s) <= s + 0x80_0000,
            s1 == s * o,
            m1 == mv * o,
            o > 0,
    {
        let k = mv - s;
        assert(m1 - s1 == k * o);
        assert(0x100_0000 * size(k) * o <= (s + 0x80_0000) * o);
        assert(size(k) * o == size(k * o));
    }
    assert(size(dv * o) <= m1) by (nonlinear_arith)
        requires
            size(dv) <= mv,
            m1 == mv * o,
            o > 0,
    ;
    assert(0x100_0000_0000 * mv <= m1 && 0x100_0000_0000 * o <= m1 && s <= s1)
        by (nonlinear_arith)
        requires
            0x100_0000_0000 <= mv,
            0x100_0000_0000 <= o,
            m1 == mv * o,
            s1 == s * o,
            s > 0,
    ;
    let a = qv * mv;
    let gs = g * s;
    assert(gs == s * g) by (nonlinear_arith)
        requires
            gs == g * s,
    ;
    let b = g * mv;
    let u = pow2(127) as int;
    let um = u * mv;
    assert(0x40_0000 * um == m1) by (nonlinear_arith)
        requires
            um == u * mv,
            m1 == mv * o,
            o == 0x40_0000 * u,
    ;
    assert(apart(a, b) <= um);
    assert(apart(qv, g) <= u) by (nonlinear_arith)
        requires
            a == qv * mv,
            b == g * mv,
            um == u * mv,
            apart(a, b) <= um,
            mv > 0,
    ;
}

/// The gains of the heard ones of the first `n` bins of a band, together.
pub open spec fn heard_gains(
    l_mags: Seq<Single>,
    r_mags: Seq<Single>,
    l_gains: Seq<Single>,
    r_gains: Seq<Single>,
    lo: int,
    n: nat,
) -> int
    decreases n,
{
    if n == 0 {
        0
    } else {
        heard_gains(l_mags, r_mags, l_gains, r_gains, lo, (n - 1) as nat) + if is_heard(
            l_mags[lo + n - 1],
            r_mags[lo + n - 1],
        ) {
            l_gains[n - 1].value() + r_gains[n - 1].value()
        } else {
            0
        }
    }
}

/// Where the heard ones of the first `n` bins of a band point, each multiplied by its gains.
pub open spec fn weighted_sides(
    l_mags: Seq<Single>,
    r_mags: Seq<Single>,
    l_gains: Seq<Single>,
    r_gains: Seq<Single>,
    lo: int,
    n: nat,
) -> int
    decreases n,
{
    if n == 0 {
        0
    } else {
        weighted_sides(l_mags, r_mags, l_gains, r_gains, lo, (n - 1) as nat) + if is_heard(
            l_mags[lo + n - 1],
            r_mags[lo + n - 1],
        ) {
            (l_gains[n - 1].value() + r_gains[n - 1].value()) * side_of(
                l_mags[lo + n - 1],
                r_mags[lo + n - 1],
            )
        } else {
            0
        }
    }
}

/// Magnitudes that are together below 2^75 in each of the first `n` bins of a band.
pub open spec fn bounded_mags(
    l_mags: Seq<Single>,
    r_mags: Seq<Single>,
    lo: int,
    n: nat,
) -> bool {
    forall|i: int|
        lo <= i < lo + n ==> (#[trigger] l_mags[i]).value() + r_mags[i].value() < pow2(224)
}

/// A band of `n` bins from `lo` on whose magnitudes and gains are finite, not negative and
/// not too large.
pub open spec fn sound_band(
    l_mags: Seq<Single>,
    r_mags: Seq<Single>,
    l_gains: Seq<Single>,
    r_gains: Seq<Single>,
    lo: int,
    n: nat,
) -> bool {
    &&& n <= NUM_BINS
    &&& amounts(l_mags, r_mags, l_gains, r_gains, lo, n)
    &&& bounded_gains(l_gains, r_gains, n)
    &&& bounded_mags(l_mags, r_mags, lo, n)
}

/// Bin `i` of a band is heard, and its gains are together at least four times 1e-9.
pub open spec fn loud_bin(
    l_mags: Seq<Single>,
    r_mags: Seq<Single>,
    l_gains: Seq<Single>,
    r_gains: Seq<Single>,
    lo: int,
    i: int,
) -> bool {
    &&& is_heard(l_mags[lo + i], r_mags[lo + i])
    &&& 4 * num(TINY).value() <= l_gains[i].value() + r_gains[i].value()
}

/// No bin lowers the weight.
proof fn lemma_weight_grows(
    l_mags: Seq<Single>,
    r_mags: Seq<Single>,
    l_gains: Seq<Single>,
    r_gains: Seq<Single>,
    lo: int,
    i: nat,
    n: nat,
)
    requires
        sound_band(l_mags, r_mags, l_gains, r_gains, lo, n),
        i <= n,
    ensures
        ({
            let t = totals(l_mags, r_mags, l_gains, r_gains, lo, i).weight;
            let whole = totals(l_mags, r_mags, l_gains, r_gains, lo, n).weight;
            &&& t.is_finite() && whole.is_finite()
            &&& !t.negative()
            &&& 0 <= t.value() <= whole.value()
        }),
    decreases n - i,
{
    let t = totals(l_mags, r_mags, l_gains, r_gains, lo, i).weight;
    lemma_zero_units();
    lemma_fewer_gains(l_gains, r_gains, i, n);
    law_energy_stays_finite(l_mags, r_mags, l_gains, r_gains, lo, i);
    lemma_totals_side(l_mags, r_mags, l_gains, r_gains, lo, i);
    assert(t.is_finite());
    if i < n {
        let j = i as int;
        let e = bin_energy(l_gains, r_gains, j);
        lemma_weight_grows(l_mags, r_mags, l_gains, r_gains, lo, i + 1, n);
        assert(amounts_in_bin(l_mags, r_mags, l_gains, r_gains, lo, j));
        assert(at_most(l_gains[j], num(LARGE_GAIN)));
        lemma_bin_energy(l_gains[j], r_gains[j]);
        if is_heard(l_mags[lo + j], r_mags[lo + j]) {
            lemma_term_below_sum(t, e);
        }
    }
}

/// A loud bin gives the band a weight.
proof fn lemma_loud_weight(
    l_mags: Seq<Single>,
    r_mags: Seq<Single>,
    l_gains: Seq<Single>,
    r_gains: Seq<Single>,
    lo: int,
    n: nat,
    i: int,
)
    requires
        sound_band(l_mags, r_mags, l_gains, r_gains, lo, n),
        0 <= i < n,
        loud_bin(l_mags, r_mags, l_gains, r_gains, lo, i),
    ensures
        less(num(TINY), totals(l_mags, r_mags, l_gains, r_gains, lo, n).weight),
{
    let j = i as nat;
    let prev = totals(l_mags, r_mags, l_gains, r_gains, lo, j).weight;
    let e = bin_energy(l_gains, r_gains, i);
    lemma_tiny();
    lemma_weight_grows(l_mags, r_mags, l_gains, r_gains, lo, j, n);
    lemma_weight_grows(l_mags, r_mags, l_gains, r_gains, lo, j + 1, n);
    assert(amounts_in_bin(l_mags, r_mags, l_gains, r_gains, lo, i));
    assert(at_most(l_gains[i], num(LARGE_GAIN)));
    lemma_bin_energy(l_gains[i], r_gains[i]);
    lemma_term_below_sum(prev, e);
    law_order_is_that_of_values(
        num(TINY),
        totals(l_mags, r_mags, l_gains, r_gains, lo, n).weight,
    );
}

/// One more heard bin: how the weight and the directions grow, for a band of the weight
/// `whole`.
proof fn lemma_one_more_bin(
    prev_w: Single,
    prev_d: Single,
    l: Single,
    r: Single,
    lg: Single,
    rg: Single,
    whole: int,
)
    requires
        is_amount(l),
        is_amount(r),
        is_heard(l, r),
        l.value() + r.value() < pow2(224),
        is_amount(lg),
        is_amount(rg),
        at_most(lg, num(LARGE_GAIN)),
        at_most(rg, num(LARGE_GAIN)),
        prev_w.is_finite(),
        !prev_w.negative(),
        prev_d.is_finite(),
        size(prev_d.value()) <= prev_w.value(),
        ({
            let e = product(sum(lg, rg), num(HALF));
            let pr = product(quotient(difference(r, l), sum(l, r)), e);
            &&& sum(prev_w, e).is_finite()
            &&& sum(prev_d, pr).is_finite()
            &&& sum(prev_w, e).value() <= whole
        }),
        0x100_0000_0000 <= whole,
    ensures
        ({
            let e = product(sum(lg, rg), num(HALF));
            let pr = product(quotient(difference(r, l), sum(l, r)), e);
            let w = lg.value() + rg.value();
            let o = one();
            &&& 0x10_0000 * apart(2 * sum(prev_w, e).value() - 2 * prev_w.value(), w) <= whole
            &&& 0x10_0000 * apart(
                2 * (o * sum(prev_d, pr).value()) - 2 * (o * prev_d.value()),
                w * side_of(l, r),
            ) <= 2 * (o * whole)
        }),
{
    let o = one();
    let e = product(sum(lg, rg), num(HALF));
    let q = quotient(difference(r, l), sum(l, r));
    let pr = product(q, e);
    lemma_tiny();
    lemma_zero_units();
    lemma_one();
    lemma_bin_energy(lg, rg);
    lemma_bin_side_near(l, r);
    lemma_weighted_size(q, e);
    lemma_units_order(pr.magnitude(), e.magnitude());
    lemma_units_order(q.magnitude(), ONE);
    lemma_term_below_sum(prev_w, e);
    law_sum_is_near(prev_w, e);
    law_sum_is_near(prev_d, pr);
    law_product_is_near(q, e);
    let w = lg.value() + rg.value();
    let g = side_of(l, r);
    let ev = e.value();
    let qv = q.value();
    let pv = pr.value();
    let u = pow2(127) as int;
    let step = sum(prev_d, pr).value() - prev_d.value();
    let oe = o * ev;
    let ow = o * w;
    let o_whole = o * whole;
    assert(w <= 3 * whole);
    assert(oe <= o_whole && ow <= 3 * o_whole && 0x100_0000_0000 * o <= o_whole && 0 <= oe)
        by (nonlinear_arith)
        requires
            oe == o * ev,
            ow == o * w,
            o_whole == o * whole,
            0 <= ev <= whole,
            w <= 3 * whole,
            0x100_0000_0000 <= whole,
            o > 0,
    ;
    assert(size(qv * ev) <= oe) by (nonlinear_arith)
        requires
            -o <= qv <= o,
            ev >= 0,
            oe == o * ev,
    ;
    let qe = qv * ev;
    let ge = g * ev;
    let gw = w * g;
    assert(0x40_0000 * apart(qe, ge) <= oe) by (nonlinear_arith)
        requires
            qe == qv * ev,
            ge == g * ev,
            apart(qv, g) <= u,
            o == 0x40_0000 * u,
            oe == o * ev,
            ev >= 0,
    {
        let k = qv - g;
        assert(qe - ge == k * ev);
        assert(-u * ev <= k * ev <= u * ev);
        assert(0x40_0000 * (u * ev) == oe);
    }
    assert(0x100_0000 * apart(2 * ge, gw) <= 3 * ow + 0x400_0000 * o) by (nonlinear_arith)
        requires
            0x100_0000 * apart(2 * ev, w) <= 3 * w + 0x400_0000,
            ge == g * ev,
            gw == w * g,
            ow == o * w,
            -o <= g <= o,
            o > 0,
    {
        let k = 2 * ev - w;
        assert(2 * ge - gw == g * k);
        assert(-(o * size(k)) <= g * k <= o * size(k));
        assert(0x100_0000 * (size(k) * o) <= (3 * w + 0x400_0000) * o);
    }
    let os = o * step;
    let op = o * pv;
    assert(pv * o == op && 2 * (o * sum(prev_d, pr).value()) - 2 * (o * prev_d.value()) == 2 * os)
        by (nonlinear_arith)
        requires
            op == o * pv,
            os == o * step,
            step == sum(prev_d, pr).value() - prev_d.value(),
    ;
    assert(0x100_0000 * apart(step, pv) <= 2 * whole + 0x80_0000);
    assert(0x100_0000 * apart(os, op) <= 2 * o_whole + 0x80_0000 * o) by (nonlinear_arith)
        requires
            0x100_0000 * apart(step, pv) <= 2 * whole + 0x80_0000,
            os == o * step,
            op == o * pv,
            o_whole == o * whole,
            o > 0,
    {
        let k = step - pv;
        assert(os - op == o * k);
        assert(size(o * k) == o * size(k));
        assert(0x100_0000 * (size(k) * o) <= (2 * whole + 0x80_0000) * o);
    }
}

/// What the first `i` bins of a band gather, against the exact sums.
proof fn lemma_gathered(
    l_mags: Seq<Single>,
    r_mags: Seq<Single>,
    l_gains: Seq<Single>,
    r_gains: Seq<Single>,
    lo: int,
    i: nat,
    n: nat,
)
    requires
        sound_band(l_mags, r_mags, l_gains, r_gains, lo, n),
        i <= n,
        less(num(TINY), totals(l_mags, r_mags, l_gains, r_gains, lo, n).weight),
    ensures
        ({
            let t = totals(l_mags, r_mags, l_gains, r_gains, lo, i);
            let whole = totals(l_mags, r_mags, l_gains, r_gains, lo, n).weight.value();
            let gains = heard_gains(l_mags, r_mags, l_gains, r_gains, lo, i);
            let sides = weighted_sides(l_mags, r_mags, l_gains, r_gains, lo, i);
            &&& 0x10_0000 * apart(2 * t.weight.value(), gains) <= i * whole
            &&& 0x10_0000 * apart(2 * (one() * t.direction.value()), sides) <= i * (2 * (one()
                * whole))
        }),
    decreases i,
{
    let last = totals(l_mags, r_mags, l_gains, r_gains, lo, n).weight;
    let whole = last.value();
    let o = one();
    let more = 2 * (o * whole);
    lemma_zero_units();
    lemma_tiny();
    lemma_weight_grows(l_mags, r_mags, l_gains, r_gains, lo, i, n);
    law_order_is_that_of_values(num(TINY), last);
    assert(more >= 0) by (nonlinear_arith)
        requires
            more == 2 * (o * whole),
            o > 0,
            whole >= 0,
    ;
    if i > 0 {
        let j = (i - 1) as nat;
        let k = j as int;
        let prev = totals(l_mags, r_mags, l_gains, r_gains, lo, j);
        let l = l_mags[lo + k];
        let r = r_mags[lo + k];
        lemma_gathered(l_mags, r_mags, l_gains, r_gains, lo, j, n);
        lemma_weight_grows(l_mags, r_mags, l_gains, r_gains, lo, j, n);
        lemma_direction_size(l_mags, r_mags, l_gains, r_gains, lo, j);
        lemma_direction_size(l_mags, r_mags, l_gains, r_gains, lo, i);
        assert(amounts_in_bin(l_mags, r_mags, l_gains, r_gains, lo, k));
        assert(at_most(l_gains[k], num(LARGE_GAIN)));
        assert(l_mags[lo + k].value() + r_mags[lo + k].value() < pow2(224));
        if is_heard(l, r) {
            lemma_one_more_bin(
                prev.weight,
                prev.direction,
                l,
                r,
                l_gains[k],
                r_gains[k],
                whole,
            );
        }
        assert(i * whole == j * whole + whole && i * more == j * more + more)
            by (nonlinear_arith)
            requires
                i == j + 1,
        ;
    } else {
        assert(0 * whole == 0 && 0 * more == 0);
        assert(o * 0 == 0);
    }
}

/// The direction of a band is the mean of where its heard bins point, each weighing as much
/// as its gains: the direction times the gains is what the bins' directions, each times its
/// gains, come to, within two parts in 2^20 for each bin and one more.
pub proof fn law_direction_is_the_mean(
    l_mags: Seq<Single>,
    r_mags: Seq<Single>,
    l_gains: Seq<Single>,
    r_gains: Seq<Single>,
    lo: int,
    n: nat,
    i: int,
)
    requires
        sound_band(l_mags, r_mags, l_gains, r_gains, lo, n),
        0 <= i < n,
        loud_bin(l_mags, r_mags, l_gains, r_gains, lo, i),
    ensures
        ({
            let direction = direction_of(totals(l_mags, r_mags, l_gains, r_gains, lo, n));
            let gains = heard_gains(l_mags, r_mags, l_gains, r_gains, lo, n);
            let sides = weighted_sides(l_mags, r_mags, l_gains, r_gains, lo, n);
            &&& direction.is_finite()
            &&& 0 < gains
            &&& 0x10_0000 * apart(direction.value() * gains, sides) <= (2 * n + 1) * (one()
                * gains)
        }),
{
    let t = totals(l_mags, r_mags, l_gains, r_gains, lo, n);
    let direction = direction_of(t);
    let q = quotient(t.direction, t.weight);
    let gains = heard_gains(l_mags, r_mags, l_gains, r_gains, lo, n);
    let sides = weighted_sides(l_mags, r_mags, l_gains, r_gains, lo, n);
    let o = one();
    lemma_tiny();
    lemma_zero_units();
    lemma_one();
    lemma_loud_weight(l_mags, r_mags, l_gains, r_gains, lo, n, i);
    lemma_weight_grows(l_mags, r_mags, l_gains, r_gains, lo, n, n);
    lemma_direction_size(l_mags, r_mags, l_gains, r_gains, lo, n);
    lemma_gathered(l_mags, r_mags, l_gains, r_gains, lo, n, n);
    law_order_is_that_of_values(num(TINY), t.weight);
    let w = t.weight.value();
    let d = t.direction.value();
    lemma_mean_is_small(t.direction, t.weight);
    law_quotient_is_near(t.direction, t.weight);
    let c = direction.value();
    law_order_is_that_of_values(q, num(MINUS_ONE));
    law_order_is_that_of_values(num(ONE), q);
    assert(num(MINUS_ONE).value() == -o && num(ONE).value() == o);
    assert(-o <= c <= o);
    let od = o * d;
    let ow = o * w;
    let cw = c * w;
    let qw = q.value() * w;
    assert(d * o == od && size(od) <= ow && 0x100_0000_0000 * w <= ow) by (nonlinear_arith)
        requires
            od == o * d,
            ow == o * w,
            -w <= d <= w,
            0x100_0000_0000 <= o,
            w > 0,
    ;
    // holding the quotient between -1 and 1 brings it no farther away
    assert(apart(cw, od) <= apart(qw, od)) by (nonlinear_arith)
        requires
            cw == c * w,
            qw == q.value() * w,
            ow == o * w,
            -ow <= od <= ow,
            w > 0,
            c == (if q.value() < -o {
                -o
            } else if o < q.value() {
                o
            } else {
                q.value()
            }),
    ;
    assert(0x100_0000 * apart(cw, od) <= ow + 0x80_0000 * w);
    let nw = n * w;
    let now = n * ow;
    assert(n * (2 * ow) == 2 * now && n * w == nw && 0 <= now && 0 <= nw <= 513 * w)
        by (nonlinear_arith)
        requires
            nw == n * w,
            now == n * ow,
            n <= 513,
            w > 0,
            ow >= 0,
    ;
    assert(0 < gains);
    let cg = c * gains;
    assert(0x10_0000 * apart(2 * cw, cg) <= now) by (nonlinear_arith)
        requires
            0x10_0000 * apart(2 * w, gains) <= nw,
            nw == n * w,
            now == n * ow,
            ow == o * w,
            cw == c * w,
            cg == c * gains,
            -o <= c <= o,
            o > 0,
    {
        let k = 2 * w - gains;
        assert(2 * cw - cg == c * k);
        assert(-(o * size(k)) <= c * k <= o * size(k));
        assert(0x10_0000 * (size(k) * o) <= nw * o);
        assert(nw * o == now);
    }
    assert(0x10_0000 * apart(cg, sides) <= 3 * now + ow);
    // the weight is about half of the gains
    let og = o * gains;
    assert(20 * now + 10 * ow <= 11 * (n * og) + 6 * og) by (nonlinear_arith)
        requires
            0x10_0000 * (2 * w - gains) <= 513 * w,
            ow == o * w,
            og == o * gains,
            now == n * ow,
            o > 0,
            w > 0,
            gains > 0,
            n >= 0,
    {
        assert(20 * w <= 11 * gains);
        assert(20 * ow <= 11 * og);
        assert(n * (20 * ow) <= n * (11 * og));
        assert(20 * (n * ow) == n * (20 * ow) && 11 * (n * og) == n * (11 * og));
    }
    assert((2 * n + 1) * og == 2 * (n * og) + og && n * og >= 0) by (nonlinear_arith)
        requires
            og >= 0,
    ;
}

/// `direction` is the mean of where the heard ones of the `n` bins of a band from `lo` on
/// point, within rounding, where these are sound and one of them is loud.
pub open spec fn is_mean_direction(
    l_mags: Seq<Single>,
    r_mags: Seq<Single>,
    l_gains: Seq<Single>,
    r_gains: Seq<Single>,
    lo: int,
    n: nat,
    direction: Single,
) -> bool {
    let gains = heard_gains(l_mags, r_mags, l_gains, r_gains, lo, n);
    let sides = weighted_sides(l_mags, r_mags, l_gains, r_gains, lo, n);
    forall|i: int|
        sound_band(l_mags, r_mags, l_gains, r_gains, lo, n) && 0 <= i < n && #[trigger] loud_bin(
            l_mags,
            r_mags,
            l_gains,
            r_gains,
            lo,
            i,
        ) ==> {
            &&& direction.is_finite()
            &&& 0 < gains
            &&& 0x10_0000 * apart(direction.value() * gains, sides) <= (2 * n + 1) * (one()
                * gains)
        }
}

/// What a band's bins gather gives the mean energy and the mean direction.
pub proof fn law_level_is_the_mean(
    l_mags: Seq<Single>,
    r_mags: Seq<Single>,
    l_gains: Seq<Single>,
    r_gains: Seq<Single>,
    lo: int,
    n: nat,
)
    ensures
        ({
            let t = totals(l_mags, r_mags, l_gains, r_gains, lo, n);
            &&& is_mean_energy(l_mags, r_mags, l_gains, r_gains, lo, n, energy_of(t, n))
            &&& is_mean_direction(l_mags, r_mags, l_gains, r_gains, lo, n, direction_of(t))
        }),
{
    if amounts(l_mags, r_mags, l_gains, r_gains, lo, n) && bounded_gains(l_gains, r_gains, n) && 1
        <= n <= NUM_BINS {
        law_energy_is_the_mean(l_mags, r_mags, l_gains, r_gains, lo, n);
    }
    let direction = direction_of(totals(l_mags, r_mags, l_gains, r_gains, lo, n));
    let gains = heard_gains(l_mags, r_mags, l_gains, r_gains, lo, n);
    let sides = weighted_sides(l_mags, r_mags, l_gains, r_gains, lo, n);
    assert forall|i: int|
        sound_band(l_mags, r_mags, l_gains, r_gains, lo, n) && 0 <= i < n && #[trigger] loud_bin(
            l_mags,
            r_mags,
            l_gains,
            r_gains,
            lo,
            i,
        ) implies {
        &&& direction.is_finite()
        &&& 0 < gains
        &&& 0x10_0000 * apart(direction.value() * gains, sides) <= (2 * n + 1) * (one() * gains)
    } by {
        law_direction_is_the_mean(l_mags, r_mags, l_gains, r_gains, lo, n, i);
    }
}

/// A mean direction of finite numbers is finite.
proof fn lemma_mean_is_small(d: Single, w: Single)
    requires
        d.is_finite(),
        w.is_finite(),
        less(num(TINY), w),
        size(d.value()) <= w.value(),
    ensures
        quotient(d, w).is_finite(),
{
    let o = one();
    lemma_tiny();
    lemma_zero_units();
    lemma_one();
    law_order_is_that_of_values(num(TINY), w);
    lemma_nearest_exact(ONE);
    let n = d.size() * o as nat;
    assert(n * 1 <= o as nat * w.size()) by (nonlinear_arith)
        requires
            n == d.size() * o as nat,
            d.size() <= w.size(),
            o > 0,
    ;
    lemma_nearest_monotone(n, w.size(), o as nat, 1);
    reveal(quotient);
}

/// The sides of bins that all point between `least` and `most`.
proof fn lemma_sides_between(
    l_mags: Seq<Single>,
    r_mags: Seq<Single>,
    l_gains: Seq<Single>,
    r_gains: Seq<Single>,
    lo: int,
    n: nat,
    least: int,
    most: int,
)
    requires
        sound_band(l_mags, r_mags, l_gains, r_gains, lo, n),
        forall|i: int|
            lo <= i < lo + n && is_heard(#[trigger] l_mags[i], r_mags[i]) ==> least <= side_of(
                l_mags[i],
                r_mags[i],
            ) <= most,
    ensures
        ({
            let gains = heard_gains(l_mags, r_mags, l_gains, r_gains, lo, n);
            let sides = weighted_sides(l_mags, r_mags, l_gains, r_gains, lo, n);
            least * gains <= sides <= most * gains
        }),
    decreases n,
{
    if n > 0 {
        let m = (n - 1) as nat;
        let k = lo + n - 1;
        lemma_sides_between(l_mags, r_mags, l_gains, r_gains, lo, m, least, most);
        assert(amounts_in_bin(l_mags, r_mags, l_gains, r_gains, lo, n - 1));
        if is_heard(l_mags[k], r_mags[k]) {
            let g = side_of(l_mags[k], r_mags[k]);
            let w = l_gains[n - 1].value() + r_gains[n - 1].value();
            let before = heard_gains(l_mags, r_mags, l_gains, r_gains, lo, m);
            assert(least * w <= w * g <= most * w && least * (before + w) == least * before
                + least * w && most * (before + w) == most * before + most * w)
                by (nonlinear_arith)
                requires
                    least <= g <= most,
                    w >= 0,
            ;
        }
    } else {
        assert(least * 0 == 0 && most * 0 == 0);
    }
}

/// The direction of a band lies between the directions of its heard bins: where each bin is
/// louder on the right than on the left by at least the part `least` of all of it and by at
/// most the part `most`, the band points between `least` and `most`, within rounding. A part
/// of -1 is all the way to the left, one of 1 all the way to the right, in units. So a band
/// whose bins all point to one place points there too.
pub proof fn law_direction_lies_between(
    l_mags: Seq<Single>,
    r_mags: Seq<Single>,
    l_gains: Seq<Single>,
    r_gains: Seq<Single>,
    lo: int,
    n: nat,
    i: int,
    least: int,
    most: int,
)
    requires
        sound_band(l_mags, r_mags, l_gains, r_gains, lo, n),
        0 <= i < n,
        loud_bin(l_mags, r_mags, l_gains, r_gains, lo, i),
        forall|k: int|
            lo <= k < lo + n && is_heard(#[trigger] l_mags[k], r_mags[k]) ==> {
                let louder = (r_mags[k].value() - l_mags[k].value()) * one();
                let all = l_mags[k].value() + r_mags[k].value();
                least * all <= louder <= most * all
            },
    ensures
        ({
            let direction = direction_of(totals(l_mags, r_mags, l_gains, r_gains, lo, n)).value();
            &&& 0x10_0000 * (least - direction) <= (2 * n + 1) * one()
            &&& 0x10_0000 * (direction - most) <= (2 * n + 1) * one()
        }),
{
    let c = direction_of(totals(l_mags, r_mags, l_gains, r_gains, lo, n)).value();
    let gains = heard_gains(l_mags, r_mags, l_gains, r_gains, lo, n);
    let sides = weighted_sides(l_mags, r_mags, l_gains, r_gains, lo, n);
    let o = one();
    assert forall|k: int|
        lo <= k < lo + n && is_heard(#[trigger] l_mags[k], r_mags[k]) implies least <= side_of(
        l_mags[k],
        r_mags[k],
    ) <= most by {
        assert(amounts_in_bin(l_mags, r_mags, l_gains, r_gains, lo, k - lo));
        lemma_side_between(l_mags[k], r_mags[k], least, most);
    }
    lemma_sides_between(l_mags, r_mags, l_gains, r_gains, lo, n, least, most);
    law_direction_is_the_mean(l_mags, r_mags, l_gains, r_gains, lo, n, i);
    let s = (2 * n + 1) * o;
    assert(0x10_0000 * (least - c) <= s && 0x10_0000 * (c - most) <= s) by (nonlinear_arith)
        requires
            0x10_0000 * apart(c * gains, sides) <= (2 * n + 1) * (o * gains),
            least * gains <= sides <= most * gains,
            gains > 0,
            s == (2 * n + 1) * o,
    {
        assert((2 * n + 1) * (o * gains) == s * gains);
        assert((0x10_0000 * (least - c)) * gains == 0x10_0000 * (least * gains - c * gains));
        assert((0x10_0000 * (c - most)) * gains == 0x10_0000 * (c * gains - most * gains));
        assert((0x10_0000 * (least - c)) * gains <= s * gains);
        assert((0x10_0000 * (c - most)) * gains <= s * gains);
    }
}

/// Where a bin points, by how much louder it is on the right.
proof fn lemma_side_between(l: Single, r: Single, least: int, most: int)
    requires
        is_amount(l),
        is_amount(r),
        is_heard(l, r),
        least * (l.value() + r.value()) <= (r.value() - l.value()) * one() <= most * (l.value()
            + r.value()),
    ensures
        least <= side_of(l, r) <= most,
{
    let all = l.value() + r.value();
    let louder = (r.value() - l.value()) * one();
    lemma_zero_units();
    lemma_tiny();
    assert(all > 0) by {
        if all <= 0 {
            lemma_zero_units();
            law_order_is_that_of_values(num(0), num(TINY));
            reveal(sum);
        }
    }
    vstd::arithmetic::div_mod::lemma_fundamental_div_mod(louder, all);
    let g = louder / all;
    assert(least <= g <= most) by (nonlinear_arith)
        requires
            louder == all * g + louder % all,
            0 <= louder % all < all,
            least * all <= louder <= most * all,
            all > 0,
    ;
}

/// A band in which nothing is heard points to neither side.
pub proof fn law_unheard_band_points_nowhere(
    l_mags: Seq<Single>,
    r_mags: Seq<Single>,
    l_gains: Seq<Single>,
    r_gains: Seq<Single>,
    lo: int,
    n: nat,
)
    requires
        forall|i: int| lo <= i < lo + n ==> !is_heard(#[trigger] l_mags[i], r_mags[i]),
    ensures
        direction_of(totals(l_mags, r_mags, l_gains, r_gains, lo, n)) == num(0),
{
    lemma_unheard(l_mags, r_mags, l_gains, r_gains, lo, n);
}

proof fn lemma_unheard(
    l_mags: Seq<Single>,
    r_mags: Seq<Single>,
    l_gains: Seq<Single>,
    r_gains: Seq<Single>,
    lo: int,
    n: nat,
)
    requires
        forall|i: int| lo <= i < lo + n ==> !is_heard(#[trigger] l_mags[i], r_mags[i]),
    ensures
        totals(l_mags, r_mags, l_gains, r_gains, lo, n).weight == num(0),
    decreases n,
{
    if n > 0 {
        lemma_unheard(l_mags, r_mags, l_gains, r_gains, lo, (n - 1) as nat);
        assert(!is_heard(l_mags[lo + n - 1], r_mags[lo + n - 1]));
    }
}

} // verus!
