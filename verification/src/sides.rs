//! Which side sound points to.
use crate::bands::{direction_of, totals, Totals, TINY};
use crate::number::constants::{HALF, MINUS_ONE, ONE};
use crate::number::laws::{
    law_difference_symmetric, law_product_commutes, law_self_difference, law_self_quotient,
    law_sum_commutes, law_sum_monotone, law_zero_adds_nothing, lemma_one, lemma_times_one,
    lemma_zero_product,
};
use crate::number::order::{
    law_order_is_that_of_values, lemma_nearest_exact, lemma_nearest_monotone, lemma_units_order,
    lemma_zero_units,
};
use crate::number::rounding::lemma_nearest_zero;
use crate::number::single::{
    at_most, difference, less, negated, num, product, quotient, sum, Single, UNIT_SHIFT,
};
use vstd::arithmetic::power2::{lemma_pow2_pos, pow2};
use vstd::prelude::*;

verus! {

/// A bin that is heard on one side alone points all the way to that side, and one
/// that is heard alike on both points to neither.
pub proof fn law_bin_points_to_its_side(mag: Single)
    requires
        mag.is_finite(),
        !mag.negative(),
        !mag.is_zero(),
        sum(mag, mag).is_finite(),
    ensures
        quotient(difference(num(0), mag), sum(mag, num(0))) == num(MINUS_ONE),
        quotient(difference(mag, num(0)), sum(num(0), mag)) == num(ONE),
        quotient(difference(mag, mag), sum(mag, mag)).is_zero(),
{
    lemma_zero_units();
    law_zero_adds_nothing(mag, num(0));
    law_sum_commutes(mag, num(0));
    law_zero_adds_nothing(mag, negated(num(0)));
    law_zero_adds_nothing(negated(mag), num(0));
    law_sum_commutes(negated(mag), num(0));
    law_self_quotient(mag);
    law_self_difference(mag);
    law_sum_monotone(mag, num(0), mag, mag);
    let twice = sum(mag, mag);
    assert(!twice.is_zero() && !twice.negative());
    lemma_zero_quotient(twice);
}

/// Energy of bin `i` of a band.
pub open spec fn bin_energy(l_gains: Seq<Single>, r_gains: Seq<Single>, i: int) -> Single {
    product(sum(l_gains[i], r_gains[i]), num(HALF))
}

/// Bin `i` of a band has a finite magnitude and a finite energy.
pub open spec fn sound_bin(
    mags: Seq<Single>,
    l_gains: Seq<Single>,
    r_gains: Seq<Single>,
    lo: int,
    i: int,
) -> bool {
    mags[lo + i].is_finite() && !mags[lo + i].negative() && bin_energy(
        l_gains,
        r_gains,
        i,
    ).is_finite()
}

/// The first `n` bins of a band are silent on one side and sound on the other.
pub open spec fn only_on_one_side(
    silent: Seq<Single>,
    heard: Seq<Single>,
    l_gains: Seq<Single>,
    r_gains: Seq<Single>,
    lo: int,
    n: nat,
) -> bool {
    forall|i: int|
        0 <= i < n ==> #[trigger] sound_bin(heard, l_gains, r_gains, lo, i) && silent[lo + i]
            == num(0)
}

/// A finite sum with a finite term has another finite term.
proof fn lemma_finite_term(a: Single, b: Single)
    requires
        b.is_finite(),
        sum(a, b).is_finite(),
    ensures
        a.is_finite(),
{
    reveal(sum);
}

/// The directions of sound from the right weigh as much as the sound.
proof fn lemma_right_totals(
    l_mags: Seq<Single>,
    r_mags: Seq<Single>,
    l_gains: Seq<Single>,
    r_gains: Seq<Single>,
    lo: int,
    n: nat,
)
    requires
        only_on_one_side(l_mags, r_mags, l_gains, r_gains, lo, n),
    ensures
        ({
            let t = totals(l_mags, r_mags, l_gains, r_gains, lo, n);
            t.direction == t.weight
        }),
    decreases n,
{
    if n > 0 {
        lemma_right_totals(l_mags, r_mags, l_gains, r_gains, lo, (n - 1) as nat);
        let mag = r_mags[lo + n - 1];
        let energy = bin_energy(l_gains, r_gains, n - 1);
        assert(sound_bin(r_mags, l_gains, r_gains, lo, n - 1));
        lemma_zero_units();
        law_sum_commutes(num(0), mag);
        law_zero_adds_nothing(mag, num(0));
        law_zero_adds_nothing(mag, negated(num(0)));
        if less(num(TINY), sum(num(0), mag)) {
            assert(!mag.is_zero()) by {
                if mag.is_zero() {
                    law_zero_adds_nothing(num(0), mag);
                    law_order_is_that_of_values(num(TINY), sum(num(0), mag));
                    law_order_is_that_of_values(num(0), num(TINY));
                }
            }
            law_self_quotient(mag);
            law_product_commutes(num(ONE), energy);
            lemma_times_one(energy);
        }
    }
}

/// Sound that is heard on the right alone points all the way to the right.
pub proof fn law_sound_from_the_right(
    l_mags: Seq<Single>,
    r_mags: Seq<Single>,
    l_gains: Seq<Single>,
    r_gains: Seq<Single>,
    lo: int,
    n: nat,
)
    requires
        only_on_one_side(l_mags, r_mags, l_gains, r_gains, lo, n),
        totals(l_mags, r_mags, l_gains, r_gains, lo, n).weight.is_finite(),
        less(num(TINY), totals(l_mags, r_mags, l_gains, r_gains, lo, n).weight),
    ensures
        direction_of(totals(l_mags, r_mags, l_gains, r_gains, lo, n)) == num(ONE),
{
    lemma_right_totals(l_mags, r_mags, l_gains, r_gains, lo, n);
    law_self_quotient(totals(l_mags, r_mags, l_gains, r_gains, lo, n).weight);
}

/// The directions of sound from the left weigh as much as the sound, to the other
/// side.
proof fn lemma_left_totals(
    l_mags: Seq<Single>,
    r_mags: Seq<Single>,
    l_gains: Seq<Single>,
    r_gains: Seq<Single>,
    lo: int,
    n: nat,
)
    requires
        only_on_one_side(r_mags, l_mags, l_gains, r_gains, lo, n),
        totals(l_mags, r_mags, l_gains, r_gains, lo, n).weight.is_finite(),
    ensures
        ({
            let t = totals(l_mags, r_mags, l_gains, r_gains, lo, n);
            &&& t.direction.magnitude() == t.weight.magnitude()
            &&& t.direction.value() == -t.weight.value()
        }),
    decreases n,
{
    lemma_zero_units();
    if n > 0 {
        let prev = totals(l_mags, r_mags, l_gains, r_gains, lo, (n - 1) as nat);
        let mag = l_mags[lo + n - 1];
        let energy = bin_energy(l_gains, r_gains, n - 1);
        assert(sound_bin(l_mags, l_gains, r_gains, lo, n - 1));
        if less(num(TINY), sum(mag, num(0))) {
            lemma_finite_term(prev.weight, energy);
        }
        lemma_left_totals(l_mags, r_mags, l_gains, r_gains, lo, (n - 1) as nat);
        law_zero_adds_nothing(mag, num(0));
        law_zero_adds_nothing(negated(mag), num(0));
        law_sum_commutes(negated(mag), num(0));
        if less(num(TINY), sum(mag, num(0))) {
            assert(!mag.is_zero()) by {
                law_order_is_that_of_values(num(TINY), sum(mag, num(0)));
                law_order_is_that_of_values(num(0), num(TINY));
            }
            law_self_quotient(mag);
            law_product_commutes(num(MINUS_ONE), energy);
            lemma_times_one(energy);
            lemma_opposite_sums(prev.direction, prev.weight, energy);
        }
    }
}

/// Opposite terms have opposite sums.
proof fn lemma_opposite_sums(a: Single, b: Single, c: Single)
    requires
        a.is_finite(),
        b.is_finite(),
        c.is_finite(),
        a.value() == -b.value(),
        sum(b, c).is_finite(),
    ensures
        sum(a, negated(c)).magnitude() == sum(b, c).magnitude(),
        sum(a, negated(c)).value() == -sum(b, c).value(),
{
    lemma_zero_units();
    reveal(sum);
}

/// Sound that is heard on the left alone points all the way to the left.
pub proof fn law_sound_from_the_left(
    l_mags: Seq<Single>,
    r_mags: Seq<Single>,
    l_gains: Seq<Single>,
    r_gains: Seq<Single>,
    lo: int,
    n: nat,
)
    requires
        only_on_one_side(r_mags, l_mags, l_gains, r_gains, lo, n),
        totals(l_mags, r_mags, l_gains, r_gains, lo, n).weight.is_finite(),
        less(num(TINY), totals(l_mags, r_mags, l_gains, r_gains, lo, n).weight),
    ensures
        direction_of(totals(l_mags, r_mags, l_gains, r_gains, lo, n)) == num(MINUS_ONE),
{
    let t = totals(l_mags, r_mags, l_gains, r_gains, lo, n);
    lemma_left_totals(l_mags, r_mags, l_gains, r_gains, lo, n);
    lemma_zero_units();
    lemma_units_order(0, t.weight.magnitude());
    assert(t.direction == negated(t.weight));
    law_self_quotient(t.weight);
}

/// Directions of sound that is alike on both sides cancel.
proof fn lemma_both_totals(
    mags: Seq<Single>,
    l_gains: Seq<Single>,
    r_gains: Seq<Single>,
    lo: int,
    n: nat,
)
    requires
        forall|i: int| 0 <= i < n ==> #[trigger] sound_bin(mags, l_gains, r_gains, lo, i),
    ensures
        totals(mags, mags, l_gains, r_gains, lo, n).direction.is_zero(),
    decreases n,
{
    if n > 0 {
        lemma_both_totals(mags, l_gains, r_gains, lo, (n - 1) as nat);
        let prev = totals(mags, mags, l_gains, r_gains, lo, (n - 1) as nat);
        let mag = mags[lo + n - 1];
        let energy = bin_energy(l_gains, r_gains, n - 1);
        assert(sound_bin(mags, l_gains, r_gains, lo, n - 1));
        law_self_difference(mag);
        if less(num(TINY), sum(mag, mag)) {
            let none = quotient(num(0), sum(mag, mag));
            lemma_zero_quotient(sum(mag, mag));
            lemma_zero_product(none, energy);
            law_zero_adds_nothing(prev.direction, product(none, energy));
            lemma_zero_units();
            lemma_units_order(
                0,
                sum(prev.direction, product(none, energy)).magnitude(),
            );
        }
    }
}

/// Nothing divided by something is nothing.
proof fn lemma_zero_quotient(b: Single)
    requires
        less(num(0), b),
    ensures
        quotient(num(0), b).is_zero(),
{
    lemma_zero_units();
    if b.is_finite() {
        lemma_units_order(0, b.magnitude());
        lemma_nearest_zero(b.size());
        assert(0 * pow2(UNIT_SHIFT as nat) == 0);
    }
    reveal(quotient);
}

/// Sound that is heard alike on both sides, such as that of a stream with one channel,
/// points to neither.
pub proof fn law_sound_from_both_sides(
    mags: Seq<Single>,
    l_gains: Seq<Single>,
    r_gains: Seq<Single>,
    lo: int,
    n: nat,
)
    requires
        forall|i: int| 0 <= i < n ==> #[trigger] sound_bin(mags, l_gains, r_gains, lo, i),
    ensures
        direction_of(totals(mags, mags, l_gains, r_gains, lo, n)).is_zero(),
{
    let t = totals(mags, mags, l_gains, r_gains, lo, n);
    lemma_both_totals(mags, l_gains, r_gains, lo, n);
    if less(num(TINY), t.weight) {
        lemma_zero_quotient(t.weight);
        assert(quotient(t.direction, t.weight).is_zero()) by {
            lemma_zero_units();
            reveal(quotient);
        }
    }
}

/// The difference of two magnitudes is no larger than their sum.
pub proof fn lemma_apart_below_sum(a: Single, b: Single)
    requires
        a.is_finite(),
        b.is_finite(),
        !a.negative(),
        !b.negative(),
        b.value() <= a.value(),
    ensures
        difference(a, b).is_finite(),
        0 <= difference(a, b).value(),
        difference(a, b).magnitude() <= sum(a, b).magnitude(),
        !sum(a, b).is_nan(),
        !sum(a, b).negative(),
{
    let d = difference(a, b);
    lemma_zero_units();
    law_zero_adds_nothing(num(0), num(0));
    law_zero_adds_nothing(a, num(0));
    law_sum_monotone(num(0), num(0), a, negated(b));
    law_sum_monotone(a, negated(b), a, num(0));
    law_sum_monotone(a, negated(b), a, b);
    assert(!sum(a, b).negative()) by {
        reveal(sum);
    }
    assert(sum(num(0), num(0)).is_zero() && sum(a, num(0)).is_finite()) by {
        lemma_units_order(0, sum(num(0), num(0)).magnitude());
    }
    assert(d.is_finite());
    law_order_is_that_of_values(num(0), d);
}

/// The direction of one bin is finite and points to its louder side.
pub proof fn lemma_bin_side(l: Single, r: Single)
    requires
        l.is_finite(),
        r.is_finite(),
        !l.negative(),
        !r.negative(),
        less(num(TINY), sum(l, r)),
    ensures
        quotient(difference(r, l), sum(l, r)).is_finite(),
        quotient(difference(r, l), sum(l, r)).magnitude() <= ONE,
        l.value() <= r.value() ==> 0 <= quotient(difference(r, l), sum(l, r)).rank(),
        r.value() <= l.value() ==> quotient(difference(r, l), sum(l, r)).rank() <= 0,
{
    let d = difference(r, l);
    let mag = sum(l, r);
    let one = pow2(UNIT_SHIFT as nat);
    lemma_zero_units();
    lemma_pow2_pos(UNIT_SHIFT as nat);
    law_sum_commutes(l, r);
    law_difference_symmetric(l, r);
    if l.value() <= r.value() {
        lemma_apart_below_sum(r, l);
    }
    if r.value() <= l.value() {
        lemma_apart_below_sum(l, r);
        law_order_is_that_of_values(num(0), difference(l, r));
    }
    assert(d.is_finite() && d.magnitude() <= mag.magnitude());
    assert(r.value() <= l.value() ==> d.value() <= 0) by {
        if r.value() <= l.value() {
            law_zero_adds_nothing(num(0), num(0));
            law_sum_monotone(r, negated(l), num(0), num(0));
            law_order_is_that_of_values(d, sum(num(0), num(0)));
        }
    }
    if mag.is_finite() {
        lemma_units_order(0, mag.magnitude());
        lemma_units_order(d.magnitude(), mag.magnitude());
        lemma_one();
        lemma_nearest_exact(ONE);
        assert((d.size() * one) * 1 <= one * mag.size()) by (nonlinear_arith)
            requires
                d.size() <= mag.size(),
        ;
        lemma_nearest_monotone(d.size() * one, mag.size(), one, 1);
        if d.size() == 0 {
            lemma_nearest_zero(mag.size());
            assert(0 * one == 0);
        }
    }
    lemma_units_order(0, d.magnitude());
    reveal(quotient);
}

/// A number times a weight keeps its side.
proof fn lemma_weighted_side(a: Single, w: Single)
    requires
        a.is_finite(),
        w.is_finite(),
        !w.negative(),
    ensures
        !product(a, w).is_nan(),
        0 <= a.rank() ==> 0 <= product(a, w).rank(),
        a.rank() <= 0 ==> product(a, w).rank() <= 0,
{
    if a.is_zero() {
        lemma_zero_product(a, w);
    }
    reveal(product);
}

/// Two numbers on the same side have their sum there.
proof fn lemma_same_side_sum(a: Single, b: Single)
    requires
        !a.is_nan(),
        !b.is_nan(),
        (0 <= a.rank() && 0 <= b.rank()) || (a.rank() <= 0 && b.rank() <= 0),
    ensures
        !sum(a, b).is_nan(),
        0 <= a.rank() && 0 <= b.rank() ==> 0 <= sum(a, b).rank(),
        a.rank() <= 0 && b.rank() <= 0 ==> sum(a, b).rank() <= 0,
{
    lemma_zero_units();
    if a.is_finite() {
        lemma_units_order(0, a.magnitude());
    }
    if b.is_finite() {
        lemma_units_order(0, b.magnitude());
    }
    reveal(sum);
}

/// Bin `i` of a band is sound on both sides, has no negative energy, and is at least as
/// loud on the first side as on the second.
pub open spec fn leaning_bin(
    loud: Seq<Single>,
    soft: Seq<Single>,
    l_gains: Seq<Single>,
    r_gains: Seq<Single>,
    lo: int,
    i: int,
) -> bool {
    &&& sound_bin(loud, l_gains, r_gains, lo, i)
    &&& sound_bin(soft, l_gains, r_gains, lo, i)
    &&& !bin_energy(l_gains, r_gains, i).negative()
    &&& soft[lo + i].value() <= loud[lo + i].value()
}

/// The directions of bins that lean to one side add up to that side.
proof fn lemma_leaning_totals(
    l_mags: Seq<Single>,
    r_mags: Seq<Single>,
    l_gains: Seq<Single>,
    r_gains: Seq<Single>,
    lo: int,
    n: nat,
    right: bool,
)
    requires
        right ==> forall|i: int|
            0 <= i < n ==> #[trigger] leaning_bin(r_mags, l_mags, l_gains, r_gains, lo, i),
        !right ==> forall|i: int|
            0 <= i < n ==> #[trigger] leaning_bin(l_mags, r_mags, l_gains, r_gains, lo, i),
    ensures
        ({
            let t = totals(l_mags, r_mags, l_gains, r_gains, lo, n);
            &&& !t.direction.is_nan()
            &&& right ==> 0 <= t.direction.rank()
            &&& !right ==> t.direction.rank() <= 0
        }),
    decreases n,
{
    if n > 0 {
        let prev = totals(l_mags, r_mags, l_gains, r_gains, lo, (n - 1) as nat);
        lemma_leaning_totals(l_mags, r_mags, l_gains, r_gains, lo, (n - 1) as nat, right);
        let l = l_mags[lo + n - 1];
        let r = r_mags[lo + n - 1];
        let energy = bin_energy(l_gains, r_gains, n - 1);
        if right {
            assert(leaning_bin(r_mags, l_mags, l_gains, r_gains, lo, n - 1));
        } else {
            assert(leaning_bin(l_mags, r_mags, l_gains, r_gains, lo, n - 1));
        }
        if less(num(TINY), sum(l, r)) {
            let bin = quotient(difference(r, l), sum(l, r));
            lemma_bin_side(l, r);
            lemma_weighted_side(bin, energy);
            lemma_same_side_sum(prev.direction, product(bin, energy));
        }
    }
}

/// Sound whose bins are all at least as loud on the right as on the left never points to
/// the left.
pub proof fn law_louder_right_points_right(
    l_mags: Seq<Single>,
    r_mags: Seq<Single>,
    l_gains: Seq<Single>,
    r_gains: Seq<Single>,
    lo: int,
    n: nat,
)
    requires
        forall|i: int|
            0 <= i < n ==> #[trigger] leaning_bin(r_mags, l_mags, l_gains, r_gains, lo, i),
        totals(l_mags, r_mags, l_gains, r_gains, lo, n).weight.is_finite(),
    ensures
        at_most(num(0), direction_of(totals(l_mags, r_mags, l_gains, r_gains, lo, n))),
{
    lemma_leaning_totals(l_mags, r_mags, l_gains, r_gains, lo, n, true);
    lemma_mean_side(totals(l_mags, r_mags, l_gains, r_gains, lo, n));
}

/// Sound whose bins are all at least as loud on the left as on the right never points to
/// the right.
pub proof fn law_louder_left_points_left(
    l_mags: Seq<Single>,
    r_mags: Seq<Single>,
    l_gains: Seq<Single>,
    r_gains: Seq<Single>,
    lo: int,
    n: nat,
)
    requires
        forall|i: int|
            0 <= i < n ==> #[trigger] leaning_bin(l_mags, r_mags, l_gains, r_gains, lo, i),
        totals(l_mags, r_mags, l_gains, r_gains, lo, n).weight.is_finite(),
    ensures
        at_most(direction_of(totals(l_mags, r_mags, l_gains, r_gains, lo, n)), num(0)),
{
    lemma_leaning_totals(l_mags, r_mags, l_gains, r_gains, lo, n, false);
    lemma_mean_side(totals(l_mags, r_mags, l_gains, r_gains, lo, n));
}

/// The mean direction is on the side of the directions' sum.
proof fn lemma_mean_side(t: Totals)
    requires
        t.weight.is_finite(),
        !t.direction.is_nan(),
    ensures
        0 <= t.direction.rank() ==> at_most(num(0), direction_of(t)),
        t.direction.rank() <= 0 ==> at_most(direction_of(t), num(0)),
{
    if less(num(TINY), t.weight) {
        lemma_zero_units();
        lemma_units_order(0, t.weight.magnitude());
        lemma_nearest_zero(t.weight.size());
        assert(0 * pow2(UNIT_SHIFT as nat) == 0);
        reveal(quotient);
    }
}

} // verus!
