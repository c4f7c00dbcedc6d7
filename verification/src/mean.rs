//! The energy of a band is the mean energy of its bins, and its direction the mean of their
//! directions, each bin weighing as much as its energy.
use crate::bands::{energy_of, totals};
use crate::channel::NUM_BINS;
use crate::number::constants::HALF;
use crate::number::laws::{
    apart, law_product_commutes, law_product_monotone, law_quotient_monotone,
    law_short_numbers_are_exact, law_sum_commutes, law_sum_monotone,
};
use crate::number::near::{
    law_product_is_near, law_quotient_is_near, law_sum_is_near, one, size,
};
use crate::number::order::{law_order_is_that_of_values, lemma_zero_units};
use crate::number::rounding::lemma_pow2_24;
use crate::number::single::{at_most, num, of_whole, product, sum, units, Single, UNIT_SHIFT};
use crate::range::{
    amounts, amounts_in_bin, bounded_gains, is_amount, law_energy_stays_finite,
    lemma_bin_energy_side, lemma_bounded_energy, lemma_fewer_gains, lemma_mean_energy,
    lemma_nonnegative_sum, lemma_totals_side, LARGE_GAIN,
};
use crate::sides::bin_energy;
use vstd::arithmetic::power2::{lemma_pow2_adds, lemma_pow2_pos};
use vstd::prelude::*;

verus! {

/// The gains of both sides in the first `n` bins of a band, together.
pub open spec fn gains_together(l_gains: Seq<Single>, r_gains: Seq<Single>, n: nat) -> int
    decreases n,
{
    if n == 0 {
        0
    } else {
        gains_together(l_gains, r_gains, (n - 1) as nat) + l_gains[n - 1].value() + r_gains[n
            - 1].value()
    }
}

/// A half, in units.
proof fn lemma_half()
    ensures
        num(HALF).is_finite(),
        one() == 2 * num(HALF).value(),
        num(HALF).value() > 0,
{
    reveal(units);
    lemma_pow2_24();
    lemma_pow2_pos(148);
    lemma_pow2_adds(23, 125);
    vstd::arithmetic::power2::lemma_pow2_unfold(UNIT_SHIFT as nat);
}

/// Twice the energy of a bin is what its gains are together.
pub proof fn lemma_bin_energy(lg: Single, rg: Single)
    requires
        is_amount(lg),
        is_amount(rg),
        at_most(lg, num(LARGE_GAIN)),
        at_most(rg, num(LARGE_GAIN)),
    ensures
        ({
            let e = product(sum(lg, rg), num(HALF));
            let w = lg.value() + rg.value();
            &&& e.is_finite()
            &&& !e.negative()
            &&& 0x100_0000 * apart(2 * e.value(), w) <= 3 * w + 0x400_0000
        }),
{
    let s = sum(lg, rg);
    let e = product(s, num(HALF));
    let h = num(HALF).value();
    lemma_half();
    lemma_bounded_energy(lg, rg);
    lemma_bin_energy_side(lg, rg);
    lemma_nonnegative_sum(lg, rg);
    assert(s.is_finite()) by {
        reveal(product);
    }
    law_sum_is_near(lg, rg);
    law_product_is_near(s, num(HALF));
    let x = s.value();
    let y = e.value();
    assert(0x100_0000 * apart(2 * y, x) <= x + 0x100_0000) by (nonlinear_arith)
        requires
            0x100_0000 * apart(y * (2 * h), x * h) <= x * h + 0x80_0000 * (2 * h),
            x * h >= 0,
            h > 0,
    {
        assert(y * (2 * h) - x * h == (2 * y - x) * h);
        assert(x * h - y * (2 * h) == (x - 2 * y) * h);
        if 2 * y >= x {
            assert(0x100_0000 * ((2 * y - x) * h) <= (x + 0x100_0000) * h);
        } else {
            assert(0x100_0000 * ((x - 2 * y) * h) <= (x + 0x100_0000) * h);
        }
    }
}

/// Energies add up: none of the first `i` bins lowers the energy.
proof fn lemma_energy_grows(
    l_mags: Seq<Single>,
    r_mags: Seq<Single>,
    l_gains: Seq<Single>,
    r_gains: Seq<Single>,
    lo: int,
    i: nat,
    n: nat,
)
    requires
        amounts(l_mags, r_mags, l_gains, r_gains, lo, n),
        bounded_gains(l_gains, r_gains, n),
        i <= n <= NUM_BINS,
    ensures
        ({
            let t = totals(l_mags, r_mags, l_gains, r_gains, lo, i).energy;
            let whole = totals(l_mags, r_mags, l_gains, r_gains, lo, n).energy;
            t.is_finite() && whole.is_finite() && 0 <= t.value() <= whole.value()
        }),
    decreases n - i,
{
    let t = totals(l_mags, r_mags, l_gains, r_gains, lo, i).energy;
    lemma_zero_units();
    lemma_fewer_gains(l_gains, r_gains, i, n);
    law_energy_stays_finite(l_mags, r_mags, l_gains, r_gains, lo, i);
    lemma_totals_side(l_mags, r_mags, l_gains, r_gains, lo, i);
    if i < n {
        let e = bin_energy(l_gains, r_gains, i as int);
        lemma_energy_grows(l_mags, r_mags, l_gains, r_gains, lo, i + 1, n);
        assert(amounts_in_bin(l_mags, r_mags, l_gains, r_gains, lo, i as int));
        lemma_bin_energy_side(l_gains[i as int], r_gains[i as int]);
        lemma_nonnegative_sum(t, e);
        law_order_is_that_of_values(t, sum(t, e));
    }
}

/// A term is no larger than a sum of terms that are not negative.
pub proof fn lemma_term_below_sum(a: Single, b: Single)
    requires
        a.is_finite(),
        b.is_finite(),
        !a.negative(),
        !b.negative(),
        sum(a, b).is_finite(),
    ensures
        a.value() <= sum(a, b).value(),
        b.value() <= sum(a, b).value(),
{
    lemma_nonnegative_sum(a, b);
    lemma_nonnegative_sum(b, a);
    law_sum_commutes(a, b);
    law_order_is_that_of_values(a, sum(a, b));
    law_order_is_that_of_values(b, sum(a, b));
}

/// Twice the energy of the first `i` bins is what their gains are together.
proof fn lemma_energy_together(
    l_mags: Seq<Single>,
    r_mags: Seq<Single>,
    l_gains: Seq<Single>,
    r_gains: Seq<Single>,
    lo: int,
    i: nat,
    n: nat,
)
    requires
        amounts(l_mags, r_mags, l_gains, r_gains, lo, n),
        bounded_gains(l_gains, r_gains, n),
        i <= n <= NUM_BINS,
    ensures
        ({
            let t = totals(l_mags, r_mags, l_gains, r_gains, lo, i).energy.value();
            let whole = totals(l_mags, r_mags, l_gains, r_gains, lo, n).energy.value();
            &&& 0x10_0000 * apart(2 * t, gains_together(l_gains, r_gains, i)) <= i * (whole
                + 0x80_0000)
            &&& 0 <= gains_together(l_gains, r_gains, i)
        }),
    decreases i,
{
    let whole = totals(l_mags, r_mags, l_gains, r_gains, lo, n).energy.value();
    lemma_zero_units();
    if i > 0 {
        let j = (i - 1) as nat;
        let prev = totals(l_mags, r_mags, l_gains, r_gains, lo, j).energy;
        let e = bin_energy(l_gains, r_gains, j as int);
        let lg = l_gains[j as int];
        let rg = r_gains[j as int];
        lemma_energy_together(l_mags, r_mags, l_gains, r_gains, lo, j, n);
        lemma_energy_grows(l_mags, r_mags, l_gains, r_gains, lo, j, n);
        lemma_energy_grows(l_mags, r_mags, l_gains, r_gains, lo, i, n);
        lemma_totals_side(l_mags, r_mags, l_gains, r_gains, lo, j);
        assert(amounts_in_bin(l_mags, r_mags, l_gains, r_gains, lo, j as int));
        assert(at_most(l_gains[j as int], num(LARGE_GAIN)));
        lemma_bin_energy(lg, rg);
        lemma_term_below_sum(prev, e);
        law_sum_is_near(prev, e);
        assert(i * (whole + 0x80_0000) == j * (whole + 0x80_0000) + (whole + 0x80_0000))
            by (nonlinear_arith)
            requires
                i == j + 1,
        ;
    } else {
        assert(i * (whole + 0x80_0000) == 0) by (nonlinear_arith)
            requires
                i == 0,
        ;
    }
}

/// The energy of a band is the mean energy of its bins, where the energy of a bin is the
/// mean gain of both sides: as many times the energy as there are bins, twice, is what the
/// gains are together, within one part in 2^20 for each bin and one more.
pub proof fn law_energy_is_the_mean(
    l_mags: Seq<Single>,
    r_mags: Seq<Single>,
    l_gains: Seq<Single>,
    r_gains: Seq<Single>,
    lo: int,
    n: nat,
)
    requires
        amounts(l_mags, r_mags, l_gains, r_gains, lo, n),
        bounded_gains(l_gains, r_gains, n),
        1 <= n <= NUM_BINS,
    ensures
        ({
            let energy = energy_of(totals(l_mags, r_mags, l_gains, r_gains, lo, n), n);
            let together = gains_together(l_gains, r_gains, n);
            &&& energy.is_finite()
            &&& 0 <= energy.value()
            &&& 0x10_0000 * apart(2 * n * energy.value(), together) <= (n + 1) * together + n
                * 0x200_0000
        }),
{
    let t = totals(l_mags, r_mags, l_gains, r_gains, lo, n).energy;
    let together = gains_together(l_gains, r_gains, n);
    let e = energy_of(totals(l_mags, r_mags, l_gains, r_gains, lo, n), n);
    let o = one();
    lemma_zero_units();
    lemma_pow2_pos(UNIT_SHIFT as nat);
    lemma_energy_grows(l_mags, r_mags, l_gains, r_gains, lo, n, n);
    lemma_energy_together(l_mags, r_mags, l_gains, r_gains, lo, n, n);
    lemma_totals_side(l_mags, r_mags, l_gains, r_gains, lo, n);
    lemma_mean_energy(t, n);
    law_order_is_that_of_values(num(0), e);
    law_short_numbers_are_exact(n, UNIT_SHIFT as nat);
    let w = of_whole(n);
    assert(w.is_finite() && w.value() == n * o) by {
        reveal(of_whole);
    }
    assert(n * o > 0) by (nonlinear_arith)
        requires
            n >= 1,
            o > 0,
    ;
    law_quotient_is_near(t, w);
    let x = e.value();
    let y = t.value();
    let z = x * n;
    assert(0x100_0000 * apart(z, y) <= y + 0x80_0000 * n) by (nonlinear_arith)
        requires
            0x100_0000 * apart(x * (n * o), y * o) <= size(y * o) + 0x80_0000 * size(n * o),
            z == x * n,
            y >= 0,
            n >= 1,
            o > 0,
    {
        assert(x * (n * o) == z * o);
        assert(y * o >= 0 && n * o >= 0);
        if z >= y {
            assert(0x100_0000 * ((z - y) * o) <= (y + 0x80_0000 * n) * o);
        } else {
            assert(0x100_0000 * ((y - z) * o) <= (y + 0x80_0000 * n) * o);
        }
    }
    assert(2 * n * x == 2 * z) by (nonlinear_arith)
        requires
            z == x * n,
    ;
    let a = n * y;
    assert(n * (y + 0x80_0000) == a + n * 0x80_0000 && 0 <= a <= 513 * y) by (nonlinear_arith)
        requires
            a == n * y,
            y >= 0,
            1 <= n <= 513,
    ;
    assert(y <= together + 8 * n);
    assert(a + y <= (n + 1) * together + 8 * (n * n) + 8 * n && n * n <= 513 * n)
        by (nonlinear_arith)
        requires
            a == n * y,
            y <= together + 8 * n,
            1 <= n <= 513,
    ;
}

/// `energy` is the mean energy of the `n` bins of a band from `lo` on, within rounding, where
/// these are sound.
pub open spec fn is_mean_energy(
    l_mags: Seq<Single>,
    r_mags: Seq<Single>,
    l_gains: Seq<Single>,
    r_gains: Seq<Single>,
    lo: int,
    n: nat,
    energy: Single,
) -> bool {
    let together = gains_together(l_gains, r_gains, n);
    amounts(l_mags, r_mags, l_gains, r_gains, lo, n) && bounded_gains(l_gains, r_gains, n) && 1
        <= n <= NUM_BINS ==> {
        &&& energy.is_finite()
        &&& 0 <= energy.value()
        &&& 0x10_0000 * apart(2 * n * energy.value(), together) <= (n + 1) * together + n
            * 0x200_0000
    }
}

/// The energy of a band lies between the least and the largest energy of its bins: where the
/// gains of every bin are together at least twice `least` and at most twice `most`, so is the
/// energy, within rounding. Where every bin has the same energy, the band has it too.
pub proof fn law_energy_lies_between(
    l_mags: Seq<Single>,
    r_mags: Seq<Single>,
    l_gains: Seq<Single>,
    r_gains: Seq<Single>,
    lo: int,
    n: nat,
    least: int,
    most: int,
)
    requires
        amounts(l_mags, r_mags, l_gains, r_gains, lo, n),
        bounded_gains(l_gains, r_gains, n),
        1 <= n <= NUM_BINS,
        0 <= least,
        forall|i: int|
            0 <= i < n ==> 2 * least <= (#[trigger] l_gains[i]).value() + r_gains[i].value() <= 2
                * most,
    ensures
        ({
            let energy = energy_of(totals(l_mags, r_mags, l_gains, r_gains, lo, n), n).value();
            &&& 0x10_0000 * (least - energy) <= (n + 1) * least + 0x100_0000
            &&& 0x10_0000 * (energy - most) <= (n + 1) * most + 0x100_0000
        }),
{
    let x = energy_of(totals(l_mags, r_mags, l_gains, r_gains, lo, n), n).value();
    let g = gains_together(l_gains, r_gains, n);
    law_energy_is_the_mean(l_mags, r_mags, l_gains, r_gains, lo, n);
    lemma_gains_between(l_gains, r_gains, n, least, most);
    let k = n + 1;
    assert(0x10_0000 * (least - x) <= k * least + 0x100_0000) by (nonlinear_arith)
        requires
            0x10_0000 * (g - 2 * n * x) <= k * g + n * 0x200_0000,
            n * (2 * least) <= g,
            1 <= n,
            k <= 0x10_0000,
    {
        assert((0x10_0000 - k) * (n * (2 * least)) <= (0x10_0000 - k) * g);
        assert((2 * n) * ((0x10_0000 - k) * least) == (0x10_0000 - k) * (n * (2 * least)));
        assert((2 * n) * ((0x10_0000 - k) * least) <= (2 * n) * (0x10_0000 * x + 0x100_0000));
    }
    assert(0x10_0000 * (x - most) <= k * most + 0x100_0000) by (nonlinear_arith)
        requires
            0x10_0000 * (2 * n * x - g) <= k * g + n * 0x200_0000,
            g <= n * (2 * most),
            1 <= n,
            k >= 0,
    {
        assert((0x10_0000 + k) * g <= (0x10_0000 + k) * (n * (2 * most)));
        assert((2 * n) * ((0x10_0000 + k) * most) == (0x10_0000 + k) * (n * (2 * most)));
        assert((2 * n) * (0x10_0000 * x) <= (2 * n) * ((0x10_0000 + k) * most + 0x100_0000));
    }
}

proof fn lemma_gains_between(
    l_gains: Seq<Single>,
    r_gains: Seq<Single>,
    n: nat,
    least: int,
    most: int,
)
    requires
        forall|i: int|
            0 <= i < n ==> 2 * least <= (#[trigger] l_gains[i]).value() + r_gains[i].value() <= 2
                * most,
    ensures
        n * (2 * least) <= gains_together(l_gains, r_gains, n) <= n * (2 * most),
    decreases n,
{
    if n > 0 {
        let m = (n - 1) as nat;
        lemma_gains_between(l_gains, r_gains, m, least, most);
        assert(2 * least <= l_gains[m as int].value() + r_gains[m as int].value());
        assert(n * (2 * least) == m * (2 * least) + 2 * least && n * (2 * most) == m * (2 * most)
            + 2 * most) by (nonlinear_arith)
            requires
                n == m + 1,
        ;
    } else {
        assert(0 * (2 * least) == 0 && 0 * (2 * most) == 0);
    }
}

/// Gains that are nowhere lower add up to no less.
proof fn lemma_louder_totals(
    l_mags: Seq<Single>,
    r_mags: Seq<Single>,
    l_gains: Seq<Single>,
    r_gains: Seq<Single>,
    l_louder: Seq<Single>,
    r_louder: Seq<Single>,
    lo: int,
    n: nat,
)
    requires
        amounts(l_mags, r_mags, l_gains, r_gains, lo, n),
        amounts(l_mags, r_mags, l_louder, r_louder, lo, n),
        bounded_gains(l_louder, r_louder, n),
        n <= NUM_BINS,
        forall|i: int|
            0 <= i < n ==> at_most(#[trigger] l_gains[i], l_louder[i]) && at_most(
                r_gains[i],
                r_louder[i],
            ),
    ensures
        ({
            let t = totals(l_mags, r_mags, l_gains, r_gains, lo, n).energy;
            let u = totals(l_mags, r_mags, l_louder, r_louder, lo, n).energy;
            t.is_finite() && u.is_finite() && t.value() <= u.value()
        }),
    decreases n,
{
    lemma_zero_units();
    assert(bounded_gains(l_gains, r_gains, n)) by {
        assert forall|i: int| 0 <= i < n implies at_most(#[trigger] l_gains[i], num(LARGE_GAIN))
            && at_most(r_gains[i], num(LARGE_GAIN)) by {
            assert(at_most(l_gains[i], l_louder[i]));
            assert(at_most(l_louder[i], num(LARGE_GAIN)));
        }
    }
    law_energy_stays_finite(l_mags, r_mags, l_gains, r_gains, lo, n);
    law_energy_stays_finite(l_mags, r_mags, l_louder, r_louder, lo, n);
    if n > 0 {
        let m = (n - 1) as nat;
        let j = m as int;
        let t = totals(l_mags, r_mags, l_gains, r_gains, lo, m).energy;
        let u = totals(l_mags, r_mags, l_louder, r_louder, lo, m).energy;
        lemma_louder_totals(l_mags, r_mags, l_gains, r_gains, l_louder, r_louder, lo, m);
        assert(amounts_in_bin(l_mags, r_mags, l_gains, r_gains, lo, j));
        assert(amounts_in_bin(l_mags, r_mags, l_louder, r_louder, lo, j));
        assert(at_most(l_gains[j], l_louder[j]));
        assert(at_most(l_louder[j], num(LARGE_GAIN)));
        lemma_bin_energy(l_gains[j], r_gains[j]);
        lemma_bin_energy(l_louder[j], r_louder[j]);
        law_order_is_that_of_values(l_gains[j], l_louder[j]);
        law_order_is_that_of_values(r_gains[j], r_louder[j]);
        law_sum_monotone(l_gains[j], r_gains[j], l_louder[j], r_louder[j]);
        let a = sum(l_gains[j], r_gains[j]);
        let b = sum(l_louder[j], r_louder[j]);
        assert(a.is_finite() && b.is_finite()) by {
            reveal(product);
        }
        law_order_is_that_of_values(a, b);
        law_product_monotone(num(HALF), a, b);
        law_product_commutes(num(HALF), a);
        law_product_commutes(num(HALF), b);
        let d = bin_energy(l_gains, r_gains, j);
        let e = bin_energy(l_louder, r_louder, j);
        law_order_is_that_of_values(d, e);
        law_sum_monotone(t, d, u, e);
        law_order_is_that_of_values(sum(t, d), sum(u, e));
    }
}

/// Raising the gains of a band's bins never lowers the energy of the band.
pub proof fn law_louder_bins_raise_the_energy(
    l_mags: Seq<Single>,
    r_mags: Seq<Single>,
    l_gains: Seq<Single>,
    r_gains: Seq<Single>,
    l_louder: Seq<Single>,
    r_louder: Seq<Single>,
    lo: int,
    n: nat,
)
    requires
        amounts(l_mags, r_mags, l_gains, r_gains, lo, n),
        amounts(l_mags, r_mags, l_louder, r_louder, lo, n),
        bounded_gains(l_louder, r_louder, n),
        1 <= n <= NUM_BINS,
        forall|i: int|
            0 <= i < n ==> at_most(#[trigger] l_gains[i], l_louder[i]) && at_most(
                r_gains[i],
                r_louder[i],
            ),
    ensures
        at_most(
            energy_of(totals(l_mags, r_mags, l_gains, r_gains, lo, n), n),
            energy_of(totals(l_mags, r_mags, l_louder, r_louder, lo, n), n),
        ),
{
    let t = totals(l_mags, r_mags, l_gains, r_gains, lo, n).energy;
    let u = totals(l_mags, r_mags, l_louder, r_louder, lo, n).energy;
    let o = one();
    lemma_zero_units();
    lemma_pow2_pos(UNIT_SHIFT as nat);
    lemma_louder_totals(l_mags, r_mags, l_gains, r_gains, l_louder, r_louder, lo, n);
    lemma_totals_side(l_mags, r_mags, l_gains, r_gains, lo, n);
    lemma_totals_side(l_mags, r_mags, l_louder, r_louder, lo, n);
    law_short_numbers_are_exact(n, UNIT_SHIFT as nat);
    let w = of_whole(n);
    assert(w.is_finite() && w.value() == n * o) by {
        reveal(of_whole);
    }
    assert(n * o > 0) by (nonlinear_arith)
        requires
            n >= 1,
            o > 0,
    ;
    law_quotient_monotone(t, w, u, w);
}

} // verus!
