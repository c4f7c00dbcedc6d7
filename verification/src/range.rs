//! What the levels of a band can be.
use crate::analyzer::{gains_fit, Analyzer};
use crate::bands::{direction_of, energy_of, totals, TINY};
use crate::channel::NUM_BINS;
use crate::levels::BANDS;
use crate::number::constants::{HALF, MINUS_ONE, ONE};
use crate::number::laws::{
    law_exact_quotient, law_product_commutes, law_product_monotone, law_quotient_monotone,
    law_short_numbers_are_exact, law_sum_monotone, law_zero_adds_nothing, lemma_one,
};
use crate::number::order::{
    law_order_is_that_of_values, lemma_nearest_exact, lemma_nearest_monotone, lemma_units_order,
    lemma_zero_units,
};
use crate::number::rounding::{lemma_nearest_scale, lemma_pow2_24, nearest};
use crate::number::single::{
    at_most, difference, less, negated, num, of_whole, product, quotient, signed, sum, units,
    Single, UNIT_SHIFT,
};
use crate::sides::{bin_energy, lemma_bin_side};
use vstd::arithmetic::power2::{lemma_pow2_adds, lemma_pow2_pos, pow2};
use vstd::prelude::*;

verus! {

/// 2^40, up to which gains are taken to be.
pub const LARGE_GAIN: u32 = 0x5380_0000;

/// A magnitude or a gain: finite and not negative.
pub open spec fn is_amount(a: Single) -> bool {
    a.is_finite() && !a.negative()
}

/// Bin `i` of a band has amounts for magnitudes and gains on both sides.
pub open spec fn amounts_in_bin(
    l_mags: Seq<Single>,
    r_mags: Seq<Single>,
    l_gains: Seq<Single>,
    r_gains: Seq<Single>,
    lo: int,
    i: int,
) -> bool {
    is_amount(l_mags[lo + i]) && is_amount(r_mags[lo + i]) && is_amount(l_gains[i]) && is_amount(
        r_gains[i],
    )
}

/// The first `n` bins of a band have amounts for magnitudes and gains.
pub open spec fn amounts(
    l_mags: Seq<Single>,
    r_mags: Seq<Single>,
    l_gains: Seq<Single>,
    r_gains: Seq<Single>,
    lo: int,
    n: nat,
) -> bool {
    forall|i: int|
        0 <= i < n ==> #[trigger] amounts_in_bin(l_mags, r_mags, l_gains, r_gains, lo, i)
}

/// The energy of a bin is no NaN and not negative.
pub proof fn lemma_bin_energy_side(lg: Single, rg: Single)
    requires
        is_amount(lg),
        is_amount(rg),
    ensures
        !product(sum(lg, rg), num(HALF)).is_nan(),
        !product(sum(lg, rg), num(HALF)).negative(),
{
    assert(!sum(lg, rg).is_nan() && !sum(lg, rg).negative()) by {
        reveal(sum);
    }
    reveal(product);
}

/// A sum of numbers that are not negative is not negative.
pub proof fn lemma_nonnegative_sum(a: Single, b: Single)
    requires
        !a.is_nan(),
        !b.is_nan(),
        !a.negative(),
        !b.negative(),
    ensures
        !sum(a, b).is_nan(),
        !sum(a, b).negative(),
        at_most(a, sum(a, b)),
{
    lemma_zero_units();
    if a.is_finite() && b.is_finite() {
        law_zero_adds_nothing(a, num(0));
        law_sum_monotone(a, num(0), a, b);
        law_order_is_that_of_values(a, sum(a, num(0)));
    }
    reveal(sum);
}

/// A larger number that is not negative, added, does not give a smaller sum, infinite or
/// not.
pub proof fn lemma_sum_order(a: Single, b: Single, e: Single)
    requires
        !a.negative(),
        !b.negative(),
        !e.negative(),
        !e.is_nan(),
        at_most(a, b),
    ensures
        at_most(sum(a, e), sum(b, e)),
{
    lemma_nonnegative_sum(a, e);
    lemma_nonnegative_sum(b, e);
    if b.is_finite() && e.is_finite() {
        law_order_is_that_of_values(a, b);
        law_sum_monotone(a, e, b, e);
    } else {
        assert(sum(b, e).is_infinite()) by {
            reveal(sum);
        }
    }
}

/// Energy and weight of a band are not negative, and the weight is no more than the
/// energy.
pub proof fn lemma_totals_side(
    l_mags: Seq<Single>,
    r_mags: Seq<Single>,
    l_gains: Seq<Single>,
    r_gains: Seq<Single>,
    lo: int,
    n: nat,
)
    requires
        amounts(l_mags, r_mags, l_gains, r_gains, lo, n),
    ensures
        ({
            let t = totals(l_mags, r_mags, l_gains, r_gains, lo, n);
            &&& !t.energy.negative()
            &&& !t.weight.negative()
            &&& at_most(t.weight, t.energy)
        }),
    decreases n,
{
    if n > 0 {
        let prev = totals(l_mags, r_mags, l_gains, r_gains, lo, (n - 1) as nat);
        let e = bin_energy(l_gains, r_gains, n - 1);
        lemma_totals_side(l_mags, r_mags, l_gains, r_gains, lo, (n - 1) as nat);
        assert(amounts_in_bin(l_mags, r_mags, l_gains, r_gains, lo, n - 1));
        lemma_bin_energy_side(l_gains[n - 1], r_gains[n - 1]);
        lemma_nonnegative_sum(prev.energy, e);
        lemma_nonnegative_sum(prev.weight, e);
        lemma_sum_order(prev.weight, prev.energy, e);
    }
}

/// The direction of one bin is at most 1 to either side.
proof fn lemma_bin_direction(l: Single, r: Single)
    requires
        is_amount(l),
        is_amount(r),
        less(num(TINY), sum(l, r)),
    ensures
        ({
            let q = quotient(difference(r, l), sum(l, r));
            q.is_finite() && q.magnitude() <= ONE
        }),
{
    lemma_bin_side(l, r);
}

/// A weighted direction is at most the weight, to either side.
pub proof fn lemma_weighted_size(q: Single, e: Single)
    requires
        q.is_finite(),
        q.magnitude() <= ONE,
        e.is_finite(),
    ensures
        product(q, e).magnitude() <= e.magnitude(),
{
    let one = pow2(UNIT_SHIFT as nat);
    lemma_pow2_pos(UNIT_SHIFT as nat);
    lemma_one();
    lemma_zero_units();
    lemma_units_order(q.magnitude(), ONE);
    lemma_nearest_exact(e.magnitude());
    assert((q.size() * e.size()) * 1 <= e.size() * one) by (nonlinear_arith)
        requires
            q.size() <= one,
    ;
    lemma_nearest_monotone(q.size() * e.size(), one, e.size(), 1);
    reveal(product);
}

/// The direction of a band is at most its weight, to either side, where that is finite.
pub proof fn lemma_direction_size(
    l_mags: Seq<Single>,
    r_mags: Seq<Single>,
    l_gains: Seq<Single>,
    r_gains: Seq<Single>,
    lo: int,
    n: nat,
)
    requires
        amounts(l_mags, r_mags, l_gains, r_gains, lo, n),
        totals(l_mags, r_mags, l_gains, r_gains, lo, n).weight.is_finite(),
    ensures
        ({
            let t = totals(l_mags, r_mags, l_gains, r_gains, lo, n);
            &&& t.direction.is_finite()
            &&& -t.weight.value() <= t.direction.value() <= t.weight.value()
        }),
    decreases n,
{
    lemma_zero_units();
    if n > 0 {
        let m = (n - 1) as nat;
        let prev = totals(l_mags, r_mags, l_gains, r_gains, lo, m);
        let t = totals(l_mags, r_mags, l_gains, r_gains, lo, n);
        let e = bin_energy(l_gains, r_gains, n - 1);
        let l = l_mags[lo + n - 1];
        let r = r_mags[lo + n - 1];
        assert(amounts_in_bin(l_mags, r_mags, l_gains, r_gains, lo, n - 1));
        lemma_bin_energy_side(l_gains[n - 1], r_gains[n - 1]);
        lemma_totals_side(l_mags, r_mags, l_gains, r_gains, lo, m);
        if less(num(TINY), sum(l, r)) {
            assert(prev.weight.is_finite() && e.is_finite()) by {
                reveal(sum);
            }
            lemma_direction_size(l_mags, r_mags, l_gains, r_gains, lo, m);
            let q = quotient(difference(r, l), sum(l, r));
            let p = product(q, e);
            lemma_bin_direction(l, r);
            lemma_weighted_size(q, e);
            lemma_units_order(p.magnitude(), e.magnitude());
            let w = t.weight;
            law_sum_monotone(prev.direction, p, prev.weight, e);
            law_sum_monotone(negated(prev.weight), negated(e), prev.direction, p);
            assert(sum(negated(prev.weight), negated(e)).magnitude() == w.magnitude() && sum(
                negated(prev.weight),
                negated(e),
            ).value() == -w.value()) by {
                reveal(sum);
            }
            assert(t.direction.is_finite());
            law_order_is_that_of_values(t.direction, w);
            law_order_is_that_of_values(
                sum(negated(prev.weight), negated(e)),
                t.direction,
            );
        } else {
            lemma_direction_size(l_mags, r_mags, l_gains, r_gains, lo, m);
        }
    }
}

/// The levels of a band are sound: where every magnitude and gain is finite and not
/// negative and the energy does not overflow, the energy is finite and not negative, and
/// the direction is a number between left and right.
pub proof fn law_levels_are_sound(
    l_mags: Seq<Single>,
    r_mags: Seq<Single>,
    l_gains: Seq<Single>,
    r_gains: Seq<Single>,
    lo: int,
    n: nat,
)
    requires
        amounts(l_mags, r_mags, l_gains, r_gains, lo, n),
        totals(l_mags, r_mags, l_gains, r_gains, lo, n).energy.is_finite(),
        n <= NUM_BINS,
    ensures
        ({
            let t = totals(l_mags, r_mags, l_gains, r_gains, lo, n);
            &&& energy_of(t, n).is_finite()
            &&& at_most(num(0), energy_of(t, n))
            &&& !direction_of(t).is_nan()
            &&& at_most(num(MINUS_ONE), direction_of(t))
            &&& at_most(direction_of(t), num(ONE))
        }),
{
    let t = totals(l_mags, r_mags, l_gains, r_gains, lo, n);
    lemma_totals_side(l_mags, r_mags, l_gains, r_gains, lo, n);
    lemma_direction_size(l_mags, r_mags, l_gains, r_gains, lo, n);
    lemma_zero_units();
    lemma_mean_energy(
        t.energy,
        if n < 1 {
            1
        } else {
            n
        },
    );
    if less(num(TINY), t.weight) {
        assert(!quotient(t.direction, t.weight).is_nan()) by {
            reveal(quotient);
        }
    }
}

/// A mean over at least one bin is no larger than the whole.
pub proof fn lemma_mean_energy(energy: Single, n: nat)
    requires
        energy.is_finite(),
        !energy.negative(),
        1 <= n <= NUM_BINS,
    ensures
        quotient(energy, of_whole(n)).is_finite(),
        at_most(num(0), quotient(energy, of_whole(n))),
{
    let one = pow2(UNIT_SHIFT as nat);
    lemma_pow2_pos(UNIT_SHIFT as nat);
    lemma_zero_units();
    lemma_one();
    law_short_numbers_are_exact(n, UNIT_SHIFT as nat);
    assert(of_whole(n).is_finite() && of_whole(n).value() == n * one) by {
        reveal(of_whole);
    }
    assert(n * one >= one) by (nonlinear_arith)
        requires
            n >= 1,
    ;
    law_exact_quotient(energy, num(ONE), energy);
    law_quotient_monotone(energy, of_whole(n), energy, num(ONE));
    assert(!quotient(energy, of_whole(n)).negative()) by {
        reveal(quotient);
    }
}

/// Gains of up to 2^40 in the first `n` bins of a band.
pub open spec fn bounded_gains(l_gains: Seq<Single>, r_gains: Seq<Single>, n: nat) -> bool {
    forall|i: int|
        0 <= i < n ==> at_most(#[trigger] l_gains[i], num(LARGE_GAIN)) && at_most(
            r_gains[i],
            num(LARGE_GAIN),
        )
}

/// What is bounded in all bins is bounded in fewer.
pub proof fn lemma_fewer_gains(l_gains: Seq<Single>, r_gains: Seq<Single>, m: nat, n: nat)
    requires
        bounded_gains(l_gains, r_gains, n),
        m <= n,
    ensures
        bounded_gains(l_gains, r_gains, m),
{
    assert forall|i: int| 0 <= i < m implies at_most(#[trigger] l_gains[i], num(LARGE_GAIN))
        && at_most(r_gains[i], num(LARGE_GAIN)) by {
        assert(at_most(l_gains[i], num(LARGE_GAIN)));
    }
}

/// The energy of a bin is at most the bound of its gains.
pub proof fn lemma_bounded_energy(lg: Single, rg: Single)
    requires
        is_amount(lg),
        is_amount(rg),
        at_most(lg, num(LARGE_GAIN)),
        at_most(rg, num(LARGE_GAIN)),
    ensures
        product(sum(lg, rg), num(HALF)).is_finite(),
        product(sum(lg, rg), num(HALF)).value() <= pow2(189),
        num(LARGE_GAIN).value() == pow2(189),
{
    let b = num(LARGE_GAIN);
    lemma_zero_units();
    lemma_pow2_24();
    lemma_pow2_pos(189);
    lemma_pow2_adds(23, 166);
    lemma_pow2_adds(1, 189);
    assert(b.value() == pow2(189)) by {
        reveal(units);
    }
    law_order_is_that_of_values(lg, b);
    law_order_is_that_of_values(rg, b);
    law_sum_monotone(lg, rg, b, b);
    law_short_numbers_are_exact(1, 190);
    assert(1 * pow2(190) == pow2(190));
    let twice = sum(b, b);
    assert(twice.is_finite() && !twice.negative() && twice.value() == pow2(190)) by {
        reveal(sum);
    }
    let s = sum(lg, rg);
    lemma_nonnegative_sum(lg, rg);
    assert(s.is_finite());
    law_order_is_that_of_values(s, twice);
    law_product_monotone(num(HALF), s, twice);
    law_product_commutes(num(HALF), s);
    assert(product(num(HALF), twice) == b) by {
        lemma_pow2_adds(23, 125);
        lemma_pow2_adds(148, 190);
        lemma_pow2_adds(189, 149);
        lemma_pow2_pos(149);
        assert(num(HALF).size() == pow2(148)) by {
            reveal(units);
        }
        lemma_nearest_exact(LARGE_GAIN);
        lemma_nearest_scale(pow2(189), 1, pow2(149));
        assert(1 * pow2(149) == pow2(149));
        reveal(product);
    }
    lemma_bin_energy_side(lg, rg);
    law_order_is_that_of_values(product(s, num(HALF)), b);
}

/// No energy overflows from gains of up to 2^40.
pub proof fn law_energy_stays_finite(
    l_mags: Seq<Single>,
    r_mags: Seq<Single>,
    l_gains: Seq<Single>,
    r_gains: Seq<Single>,
    lo: int,
    n: nat,
)
    requires
        amounts(l_mags, r_mags, l_gains, r_gains, lo, n),
        bounded_gains(l_gains, r_gains, n),
        n <= NUM_BINS,
    ensures
        totals(l_mags, r_mags, l_gains, r_gains, lo, n).energy.is_finite(),
        totals(l_mags, r_mags, l_gains, r_gains, lo, n).energy.value() <= n * pow2(189),
    decreases n,
{
    lemma_zero_units();
    let b = pow2(189);
    if n > 0 {
        let m = (n - 1) as nat;
        let prev = totals(l_mags, r_mags, l_gains, r_gains, lo, m);
        let e = bin_energy(l_gains, r_gains, n - 1);
        law_energy_stays_finite(l_mags, r_mags, l_gains, r_gains, lo, m);
        assert(amounts_in_bin(l_mags, r_mags, l_gains, r_gains, lo, n - 1));
        assert(at_most(l_gains[n - 1], num(LARGE_GAIN)));
        lemma_bounded_energy(l_gains[n - 1], r_gains[n - 1]);
        lemma_totals_side(l_mags, r_mags, l_gains, r_gains, lo, m);
        lemma_bin_energy_side(l_gains[n - 1], r_gains[n - 1]);
        assert(m * b + b == n * b) by (nonlinear_arith)
            requires
                n == m + 1,
        ;
        law_short_numbers_are_exact(n, 189);
        let bound = signed(false, nearest(n * b, 1));
        law_zero_adds_nothing(bound, num(0));
        law_sum_monotone(prev.energy, e, bound, num(0));
        lemma_nonnegative_sum(prev.energy, e);
        assert(sum(prev.energy, e).is_finite());
        law_order_is_that_of_values(sum(prev.energy, e), sum(bound, num(0)));
    } else {
        assert(0 * b == 0);
    }
}

/// A level that can be shown: a finite energy that is not negative, and a direction
/// between left and right.
pub open spec fn is_level(energy: Single, direction: Single) -> bool {
    &&& energy.is_finite()
    &&& at_most(num(0), energy)
    &&& at_most(num(MINUS_ONE), direction)
    &&& at_most(direction, num(ONE))
}

/// A hop publishes levels that can be shown, from magnitudes and gains that are finite
/// and not negative.
pub proof fn law_hop_publishes_levels(
    a: Analyzer,
    l_mags: Seq<Single>,
    r_mags: Seq<Single>,
    gains: Seq<(Vec<Single>, Vec<Single>)>,
    after: Analyzer,
    b: int,
)
    requires
        0 <= b < BANDS,
        a.band_bins@[b].1 < NUM_BINS,
        a.hop_finished(l_mags, r_mags, gains, after),
        gains_fit(a.band_bins@[b], gains[b]),
        amounts(
            l_mags,
            r_mags,
            gains[b].0@,
            gains[b].1@,
            a.band_bins@[b].0 as int,
            gains[b].0@.len(),
        ),
        bounded_gains(gains[b].0@, gains[b].1@, gains[b].0@.len()),
    ensures
        is_level(after.output.energy@[b], after.output.direction@[b]),
{
    let lo = a.band_bins@[b].0 as int;
    let n = gains[b].0@.len();
    law_energy_stays_finite(l_mags, r_mags, gains[b].0@, gains[b].1@, lo, n);
    law_levels_are_sound(l_mags, r_mags, gains[b].0@, gains[b].1@, lo, n);
}

} // verus!
