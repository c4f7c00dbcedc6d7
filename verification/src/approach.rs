//! How far a frame brings what is shown: of the distance to the sound, the decay is left.
use crate::easing::{is_decay, law_does_not_pass_target};
use crate::levels::{BandLevels, BANDS};
use crate::number::constants::ONE;
use crate::number::laws::{apart, law_sum_error, law_sum_monotone, law_zero_adds_nothing, lemma_one};
use crate::number::near::{law_product_is_near, law_sum_is_near, one, size};
use crate::number::order::{law_order_is_that_of_values, lemma_units_order, lemma_zero_units};
use crate::number::pack::lemma_pow2_le;
use crate::number::rounding::lemma_pow2_24;
use crate::number::single::{
    at_most, difference, larger, negated, num, product, sum, Single, UNIT_SHIFT,
};
use crate::range::lemma_weighted_size;
use crate::smoothing::{eased, eased_energy, eased_scale, peak, Decays, Smoothing, LEAST_SCALE};
use vstd::arithmetic::power2::{lemma_pow2_adds, lemma_pow2_pos, pow2};
use vstd::prelude::*;

verus! {

/// A finite number that is not too large: below 2^73 to either side.
pub open spec fn is_moderate(a: Single) -> bool {
    a.is_finite() && size(a.value()) < pow2(222)
}

/// A decay between 0 and 1.
pub open spec fn is_part(d: Single) -> bool {
    at_most(num(0), d) && at_most(d, num(ONE))
}

/// After a frame, `e` is where a value is that was at `old` and is going to `target`, of
/// whose distance the part `d` is left: within one part in 2^21 of the numbers.
pub open spec fn is_left(old: Single, target: Single, d: Single, e: Single) -> bool {
    &&& e.is_finite()
    &&& 0x20_0000 * apart(
        one() * e.value(),
        one() * target.value() - d.value() * (target.value() - old.value()),
    ) <= one() * (size(old.value()) + size(target.value())) + 0x100_0000 * one()
}

/// Of the distance to a target, the decay is left.
pub proof fn law_decay_is_left(old: Single, target: Single, d: Single)
    requires
        is_moderate(old),
        is_moderate(target),
        is_part(d),
    ensures
        is_left(old, target, d, eased(old, target, d)),
{
    let o = one();
    let k = difference(num(ONE), d);
    let gap = difference(target, old);
    let step = product(k, gap);
    let e = eased(old, target, d);
    lemma_zero_units();
    lemma_one();
    lemma_pow2_pos(UNIT_SHIFT as nat);
    lemma_pow2_adds(1, 222);
    lemma_pow2_adds(1, 223);
    lemma_pow2_le(150, 224);
    lemma_pow2_adds(1, UNIT_SHIFT as nat);
    lemma_pow2_24();
    lemma_pow2_le(23, UNIT_SHIFT as nat);
    vstd::arithmetic::power2::lemma2_to64();
    assert(pow2(150) == 2 * pow2(UNIT_SHIFT as nat));
    assert(negated(d).value() == -d.value());
    law_order_is_that_of_values(num(0), d);
    law_order_is_that_of_values(d, num(ONE));
    // what is done of the way
    law_sum_error(num(ONE), negated(d), 200);
    law_sum_is_near(num(ONE), negated(d));
    law_zero_adds_nothing(num(ONE), num(0));
    law_zero_adds_nothing(num(0), num(0));
    law_sum_monotone(num(ONE), negated(d), num(ONE), num(0));
    law_sum_monotone(num(0), num(0), num(ONE), negated(d));
    law_order_is_that_of_values(k, num(ONE));
    law_order_is_that_of_values(sum(num(0), num(0)), k);
    lemma_units_order(k.magnitude(), ONE);
    // the way
    law_sum_error(target, negated(old), 200);
    law_sum_is_near(target, negated(old));
    lemma_weighted_size(k, gap);
    lemma_units_order(step.magnitude(), gap.magnitude());
    law_product_is_near(k, gap);
    let a = old.value();
    let t = target.value();
    let g = t - a;
    let m = size(a) + size(t);
    let gv = gap.value();
    let sv = step.value();
    let kv = k.value();
    let dv = d.value();
    let ev = e.value();
    assert(0x100_0000 * apart(gv, g) <= m + 0x80_0000);
    assert(size(sv) <= size(gv));
    assert(size(a + sv) <= 2 * m + m + 8);
    lemma_pow2_le(64, 222);
    law_sum_error(old, step, 200);
    law_sum_is_near(old, step);
    // everything as multiples of one
    let om = o * m;
    assert(0x100_0000 * apart(o * ev, o * a + o * sv) <= 3 * om + 0x100_0000 * o)
        by (nonlinear_arith)
        requires
            0x100_0000 * apart(ev, a + sv) <= 3 * m + 8 + 0x80_0000,
            om == o * m,
            o > 0,
    {
        let x = ev - (a + sv);
        assert(o * ev - (o * a + o * sv) == o * x);
        assert(size(o * x) == o * size(x));
        assert(0x100_0000 * (o * size(x)) <= o * (3 * m + 0x100_0000));
    }
    assert(size(kv * gv) <= 2 * om + o) by (nonlinear_arith)
        requires
            0 <= kv <= o,
            size(gv) <= 2 * m + 1,
            om == o * m,
            o > 0,
    {
        assert(size(kv * gv) <= o * size(gv));
        assert(o * size(gv) <= o * (2 * m + 1));
    }
    assert(0x100_0000 * apart(kv * gv, kv * g) <= om + 0x80_0000 * o) by (nonlinear_arith)
        requires
            0x100_0000 * apart(gv, g) <= m + 0x80_0000,
            0 <= kv <= o,
            om == o * m,
            o > 0,
    {
        let x = gv - g;
        assert(kv * gv - kv * g == kv * x);
        assert(size(kv * x) <= o * size(x));
        assert(0x100_0000 * (o * size(x)) <= o * (m + 0x80_0000));
    }
    assert(0x100_0000 * apart(kv * g, (o - dv) * g) <= 2 * om) by (nonlinear_arith)
        requires
            0x100_0000 * apart(kv, o - dv) <= o + 0x80_0000,
            0x80_0000 <= o,
            size(g) <= m,
            om == o * m,
    {
        let x = kv - (o - dv);
        assert(kv * g - (o - dv) * g == x * g);
        assert(size(x * g) <= size(x) * m);
        assert(0x100_0000 * (size(x) * m) <= (2 * o) * m);
        assert((2 * o) * m == 2 * om);
    }
    assert(o * t - dv * g == o * a + (o - dv) * g) by (nonlinear_arith)
        requires
            g == t - a,
    ;
    assert(sv * o == o * sv) by (nonlinear_arith);
}

/// The energy of a band rises by the attack and falls by the release: of its distance to the
/// sound, the decay of the attack is left where the sound is louder, and that of the release
/// where it is not.
pub proof fn law_energy_rises_and_falls(old: Single, energy: Single, d: Decays)
    requires
        is_moderate(old),
        is_moderate(energy),
        is_part(d.attack),
        is_part(d.release),
    ensures
        old.value() < energy.value() ==> is_left(
            old,
            energy,
            d.attack,
            eased_energy(old, energy, d),
        ),
        energy.value() <= old.value() ==> is_left(
            old,
            energy,
            d.release,
            eased_energy(old, energy, d),
        ),
{
    law_order_is_that_of_values(old, energy);
    law_decay_is_left(old, energy, d.attack);
    law_decay_is_left(old, energy, d.release);
}

/// The loudest of the four energies and 0.15.
pub open spec fn is_loudest(energy: Seq<Single>, target: Single) -> bool {
    &&& target == num(LEAST_SCALE) || target == energy[0] || target == energy[1] || target
        == energy[2] || target == energy[3]
    &&& num(LEAST_SCALE).value() <= target.value()
    &&& forall|b: int| 0 <= b < BANDS ==> (#[trigger] energy[b]).value() <= target.value()
}

/// Two moderate numbers have a finite difference.
proof fn lemma_moderate_gap(a: Single, b: Single)
    requires
        is_moderate(a),
        is_moderate(b),
    ensures
        difference(a, b).is_finite(),
{
    lemma_pow2_adds(1, 222);
    lemma_pow2_adds(1, 223);
    vstd::arithmetic::power2::lemma2_to64();
    law_sum_error(a, negated(b), 200);
}

/// 0.15 is moderate.
proof fn lemma_least_scale()
    ensures
        is_moderate(num(LEAST_SCALE)),
        0 < num(LEAST_SCALE).value(),
{
    lemma_one();
    lemma_zero_units();
    vstd::arithmetic::power2::lemma2_to64();
    lemma_pow2_adds(1, UNIT_SHIFT as nat);
    lemma_pow2_pos(UNIT_SHIFT as nat);
    lemma_pow2_le(150, 222);
    law_order_is_that_of_values(num(LEAST_SCALE), num(ONE));
    law_order_is_that_of_values(num(0), num(LEAST_SCALE));
}

/// What the scale goes to is the loudest.
proof fn lemma_loudest(energy: Seq<Single>, target: Single)
    requires
        energy.len() == BANDS,
        forall|b: int| 0 <= b < BANDS ==> is_moderate(#[trigger] energy[b]),
        is_loudest(energy, target),
    ensures
        ({
            let loudest = larger(peak(energy, BANDS as nat), num(LEAST_SCALE));
            is_moderate(loudest) && loudest.value() == target.value()
        }),
{
    let z = num(0);
    let p1 = larger(z, energy[0]);
    let p2 = larger(p1, energy[1]);
    let p3 = larger(p2, energy[2]);
    let p4 = larger(p3, energy[3]);
    assert(is_moderate(energy[0]) && is_moderate(energy[1]) && is_moderate(energy[2])
        && is_moderate(energy[3]));
    assert(peak(energy, 4) == p4) by {
        reveal_with_fuel(peak, 5);
    }
    lemma_zero_units();
    lemma_least_scale();
    law_order_is_that_of_values(z, energy[0]);
    law_order_is_that_of_values(p1, energy[1]);
    law_order_is_that_of_values(p2, energy[2]);
    law_order_is_that_of_values(p3, energy[3]);
    law_order_is_that_of_values(p4, num(LEAST_SCALE));
}

/// The scale goes to the loudest of the four energies, or to 0.15 where all are softer: it
/// ends between where it was and there, and of its distance the decay of the attack is left
/// where it grows, and that of the release where it shrinks.
pub proof fn law_scale_follows_the_loudest(
    old: Single,
    energy: Seq<Single>,
    d: Decays,
    target: Single,
)
    requires
        is_moderate(old),
        energy.len() == BANDS,
        forall|b: int| 0 <= b < BANDS ==> is_moderate(#[trigger] energy[b]),
        is_part(d.scale_attack),
        is_part(d.scale_release),
        is_loudest(energy, target),
    ensures
        ({
            let e = eased_scale(old, energy, d);
            &&& old.value() < target.value() ==> is_left(old, target, d.scale_attack, e)
            &&& target.value() <= old.value() ==> is_left(old, target, d.scale_release, e)
            &&& is_decay(d.scale_attack) && old.value() < target.value() ==> old.value()
                <= e.value() <= target.value()
            &&& is_decay(d.scale_release) && target.value() <= old.value() ==> target.value()
                <= e.value() <= old.value()
        }),
{
    assert(is_moderate(energy[0]) && is_moderate(energy[1]) && is_moderate(energy[2])
        && is_moderate(energy[3]));
    let loudest = larger(peak(energy, BANDS as nat), num(LEAST_SCALE));
    lemma_least_scale();
    lemma_loudest(energy, target);
    law_order_is_that_of_values(old, target);
    law_order_is_that_of_values(old, loudest);
    law_decay_is_left(old, loudest, d.scale_attack);
    law_decay_is_left(old, loudest, d.scale_release);
    lemma_moderate_gap(loudest, old);
    if is_decay(d.scale_attack) {
        law_does_not_pass_target(old, loudest, d.scale_attack);
    }
    if is_decay(d.scale_release) {
        law_does_not_pass_target(old, loudest, d.scale_release);
    }
}

/// One frame brings each band nearer to its own levels, and the scale nearer to the loudest
/// of the energies that are shown then.
pub open spec fn follows(
    before: Smoothing,
    levels: BandLevels,
    d: Decays,
    after: Smoothing,
) -> bool {
    &&& is_part(d.direction) && is_part(d.attack) && is_part(d.release) ==> forall|b: int|
        0 <= b < BANDS ==> #[trigger] band_follows(before, levels, d, after, b)
    &&& is_part(d.scale_attack) && is_part(d.scale_release) && is_moderate(before.scale) && (forall|
        b: int,
    |
        0 <= b < BANDS ==> is_moderate(#[trigger] after.energy@[b])) ==> forall|target: Single|
        #[trigger] is_loudest(after.energy@, target) ==> {
            &&& before.scale.value() < target.value() ==> is_left(
                before.scale,
                target,
                d.scale_attack,
                after.scale,
            )
            &&& target.value() <= before.scale.value() ==> is_left(
                before.scale,
                target,
                d.scale_release,
                after.scale,
            )
        }
}

/// One frame brings band `b` nearer to its own levels.
pub open spec fn band_follows(
    before: Smoothing,
    levels: BandLevels,
    d: Decays,
    after: Smoothing,
    b: int,
) -> bool {
    let old = before.energy@[b];
    let new = levels.energy@[b];
    &&& is_moderate(old) && is_moderate(new) && old.value() < new.value() ==> is_left(
        old,
        new,
        d.attack,
        after.energy@[b],
    )
    &&& is_moderate(old) && is_moderate(new) && new.value() <= old.value() ==> is_left(
        old,
        new,
        d.release,
        after.energy@[b],
    )
    &&& is_moderate(before.direction@[b]) && is_moderate(levels.direction@[b]) ==> is_left(
        before.direction@[b],
        levels.direction@[b],
        d.direction,
        after.direction@[b],
    )
}

/// What is shown follows the levels, band by band, and the scale follows what is shown.
pub proof fn law_smoothing_follows(
    before: Smoothing,
    levels: BandLevels,
    d: Decays,
    after: Smoothing,
)
    requires
        after.energy@ == Seq::new(
            4,
            |b: int| eased_energy(before.energy@[b], levels.energy@[b], d),
        ),
        after.direction@ == Seq::new(
            4,
            |b: int| eased(before.direction@[b], levels.direction@[b], d.direction),
        ),
        after.scale == eased_scale(before.scale, after.energy@, d),
    ensures
        follows(before, levels, d, after),
{
    if is_part(d.direction) && is_part(d.attack) && is_part(d.release) {
        assert forall|b: int| 0 <= b < BANDS implies #[trigger] band_follows(
            before,
            levels,
            d,
            after,
            b,
        ) by {
            if is_moderate(before.energy@[b]) && is_moderate(levels.energy@[b]) {
                law_energy_rises_and_falls(before.energy@[b], levels.energy@[b], d);
            }
            if is_moderate(before.direction@[b]) && is_moderate(levels.direction@[b]) {
                law_decay_is_left(before.direction@[b], levels.direction@[b], d.direction);
            }
        }
    }
    if is_part(d.scale_attack) && is_part(d.scale_release) && is_moderate(before.scale) && (forall|
        b: int,
    |
        0 <= b < BANDS ==> is_moderate(#[trigger] after.energy@[b])) {
        assert forall|target: Single| #[trigger] is_loudest(after.energy@, target) implies {
            &&& before.scale.value() < target.value() ==> is_left(
                before.scale,
                target,
                d.scale_attack,
                after.scale,
            )
            &&& target.value() <= before.scale.value() ==> is_left(
                before.scale,
                target,
                d.scale_release,
                after.scale,
            )
        } by {
            law_scale_follows_the_loudest(before.scale, after.energy@, d, target);
        }
    }
}

} // verus!
