//! From the levels of the analysis to what is shown: eased over time, and scaled by
//! the loudest band.
//!
//! The exponentials are taken by the caller: `exponents_of` says of what, and
//! `Smoothing::advance` takes them as `Decays`.
use crate::approach::{follows, law_smoothing_follows};
use crate::levels::{BandLevels, BANDS};
use crate::number::constants::{HALF, ONE};
use crate::number::laws::{
    law_product_commutes, law_product_monotone, law_self_difference, law_sum_monotone,
    law_zero_adds_nothing, lemma_times_one, lemma_zero_product,
};
use crate::number::order::{law_order_is_that_of_values, lemma_units_order, lemma_zero_units};
use crate::number::single::{
    absolute, at_most, difference, larger, less, limited, negated, num, product, quotient, smaller,
    sum, units, Single,
};
use vstd::prelude::*;

verus! {

/// 0.1, the longest time in seconds that one frame counts.
pub const LONGEST_FRAME: u32 = 0x3dcc_cccd;

/// 0.06, the slowest time constant of a direction, in seconds.
pub const DIRECTION_SLOW: u32 = 0x3d75_c28f;

/// 0.05, by which the fastest time constant of a direction is smaller.
pub const DIRECTION_SPAN: u32 = 0x3d4c_cccd;

/// 0.045, the slowest time constant of a rising energy, in seconds.
pub const ATTACK_SLOW: u32 = 0x3d38_51ec;

/// 0.035, by which the fastest time constant of a rising energy is smaller.
pub const ATTACK_SPAN: u32 = 0x3d0f_5c29;

/// 0.22, the slowest time constant of a falling energy, in seconds.
pub const RELEASE_SLOW: u32 = 0x3e61_47ae;

/// 0.14, by which the fastest time constant of a falling energy is smaller.
pub const RELEASE_SPAN: u32 = 0x3e0f_5c29;

/// 0.1, the time constant of a growing scale, in seconds.
pub const SCALE_ATTACK: u32 = 0x3dcc_cccd;

/// 6, the time constant of a shrinking scale, in seconds.
pub const SCALE_RELEASE: u32 = 0x40c0_0000;

/// 0.15, the least scale that is aimed at.
pub const LEAST_SCALE: u32 = 0x3e19_999a;

/// The exponents whose exponentials `Decays` holds.
#[derive(Clone, Copy, Debug, PartialEq, Eq, Structural)]
pub struct Exponents {
    pub direction: Single,
    pub attack: Single,
    pub release: Single,
    pub scale_attack: Single,
    pub scale_release: Single,
}

/// A time constant for a response speed from 0 to 1.
pub open spec fn time_constant(slow: Single, span: Single, speed: Single) -> Single {
    difference(slow, product(span, speed))
}

/// The exponents for a frame that took `elapsed` seconds. A speed of 0 is slow and
/// smooth, one of 1 nearly instant.
pub open spec fn exponents(sensitivity: Single, elapsed: Single) -> Exponents {
    let speed = limited(sensitivity, num(0), num(ONE));
    let back = negated(smaller(elapsed, num(LONGEST_FRAME)));
    Exponents {
        direction: quotient(
            back,
            time_constant(num(DIRECTION_SLOW), num(DIRECTION_SPAN), speed),
        ),
        attack: quotient(back, time_constant(num(ATTACK_SLOW), num(ATTACK_SPAN), speed)),
        release: quotient(back, time_constant(num(RELEASE_SLOW), num(RELEASE_SPAN), speed)),
        scale_attack: quotient(back, num(SCALE_ATTACK)),
        scale_release: quotient(back, num(SCALE_RELEASE)),
    }
}

pub fn exponents_of(sensitivity: Single, elapsed: Single) -> (e: Exponents)
    ensures
        e == exponents(sensitivity, elapsed),
{
    let speed: Single = sensitivity.clamp(num(0), num(ONE));
    let back: Single = elapsed.min(num(LONGEST_FRAME)).neg();
    Exponents {
        direction: back.over(num(DIRECTION_SLOW).minus(num(DIRECTION_SPAN).times(speed))),
        attack: back.over(num(ATTACK_SLOW).minus(num(ATTACK_SPAN).times(speed))),
        release: back.over(num(RELEASE_SLOW).minus(num(RELEASE_SPAN).times(speed))),
        scale_attack: back.over(num(SCALE_ATTACK)),
        scale_release: back.over(num(SCALE_RELEASE)),
    }
}

/// What is left of an old value after the frame, for each kind of value: the
/// exponentials of `Exponents`.
#[derive(Clone, Copy, Debug)]
pub struct Decays {
    pub direction: Single,
    pub attack: Single,
    pub release: Single,
    pub scale_attack: Single,
    pub scale_release: Single,
}

/// A value on its way to a target, of which the share `decay` of the distance is left.
pub open spec fn eased(old: Single, target: Single, decay: Single) -> Single {
    sum(old, product(difference(num(ONE), decay), difference(target, old)))
}

fn ease(old: Single, target: Single, decay: Single) -> (r: Single)
    ensures
        r == eased(old, target, decay),
{
    old.plus(num(ONE).minus(decay).times(target.minus(old)))
}

/// The eased energy of a band: it rises faster than it falls.
pub open spec fn eased_energy(old: Single, energy: Single, d: Decays) -> Single {
    eased(
        old,
        energy,
        if less(old, energy) {
            d.attack
        } else {
            d.release
        },
    )
}

/// The largest of the first `b` energies, at least 0.
pub open spec fn peak(energy: Seq<Single>, b: nat) -> Single
    decreases b,
{
    if b == 0 {
        num(0)
    } else {
        larger(peak(energy, (b - 1) as nat), energy[b - 1])
    }
}

/// The eased scale: it grows faster than it shrinks.
pub open spec fn eased_scale(old: Single, energy: Seq<Single>, d: Decays) -> Single {
    let target = larger(peak(energy, BANDS as nat), num(LEAST_SCALE));
    eased(
        old,
        target,
        if less(old, target) {
            d.scale_attack
        } else {
            d.scale_release
        },
    )
}

/// What is shown of each band, and the energy that counts as full.
#[derive(Clone, Copy, Debug)]
pub struct Smoothing {
    pub direction: [Single; 4],
    pub energy: [Single; 4],
    pub scale: Single,
}

impl Smoothing {
    /// Silence, before the first frame.
    pub fn new() -> (s: Self)
        ensures
            s.direction@ == Seq::new(4, |b: int| num(0)),
            s.energy@ == Seq::new(4, |b: int| num(0)),
            s.scale == num(HALF),
    {
        let zeros: [Single; 4] = [num(0); 4];
        assert(zeros@ =~= Seq::new(4, |b: int| num(0)));
        Smoothing { direction: zeros, energy: zeros, scale: num(HALF) }
    }

    /// One frame on.
    pub fn advance(&mut self, levels: &BandLevels, d: Decays)
        ensures
            final(self).energy@ == Seq::new(
                4,
                |b: int| eased_energy(old(self).energy@[b], levels.energy@[b], d),
            ),
            final(self).direction@ == Seq::new(
                4,
                |b: int| eased(old(self).direction@[b], levels.direction@[b], d.direction),
            ),
            final(self).scale == eased_scale(old(self).scale, final(self).energy@, d),
            follows(*old(self), *levels, d, *final(self)),
    {
        let mut b: usize = 0;
        while b < BANDS
            invariant
                b <= BANDS,
                self.scale == old(self).scale,
                forall|c: int|
                    0 <= c < BANDS ==> #[trigger] self.energy@[c] == (if c < b {
                        eased_energy(old(self).energy@[c], levels.energy@[c], d)
                    } else {
                        old(self).energy@[c]
                    }),
                forall|c: int|
                    0 <= c < BANDS ==> #[trigger] self.direction@[c] == (if c < b {
                        eased(old(self).direction@[c], levels.direction@[c], d.direction)
                    } else {
                        old(self).direction@[c]
                    }),
            decreases BANDS - b,
        {
            let energy: Single = levels.load_energy(b);
            let direction: Single = levels.load_direction(b);
            let old_energy: Single = self.energy[b];
            let old_direction: Single = self.direction[b];
            let decay: Single = if old_energy.lt(energy) {
                d.attack
            } else {
                d.release
            };
            self.energy[b] = ease(old_energy, energy, decay);
            self.direction[b] = ease(old_direction, direction, d.direction);
            b = b + 1;
        }
        proof {
            assert(self.energy@ =~= Seq::new(
                4,
                |b: int| eased_energy(old(self).energy@[b], levels.energy@[b], d),
            ));
            assert(self.direction@ =~= Seq::new(
                4,
                |b: int| eased(old(self).direction@[b], levels.direction@[b], d.direction),
            ));
        }
        let mut top: Single = num(0);
        let mut c: usize = 0;
        while c < BANDS
            invariant
                c <= BANDS,
                top == peak(self.energy@, c as nat),
            decreases BANDS - c,
        {
            top = top.max(self.energy[c]);
            c = c + 1;
        }
        let target: Single = top.max(num(LEAST_SCALE));
        let decay: Single = if self.scale.lt(target) {
            d.scale_attack
        } else {
            d.scale_release
        };
        self.scale = ease(self.scale, target, decay);
        proof {
            law_smoothing_follows(*old(self), *levels, d, *self);
        }
    }
}

/// A value that is already where it is going stays there.
pub proof fn law_steady_value_stays(a: Single, decay: Single)
    requires
        a.is_finite(),
        difference(num(ONE), decay).is_finite(),
    ensures
        eased(a, a, decay).is_finite(),
        eased(a, a, decay).value() == a.value(),
{
    law_self_difference(a);
    let z = product(difference(num(ONE), decay), difference(a, a));
    lemma_zero_product(difference(num(ONE), decay), difference(a, a));
    law_zero_adds_nothing(a, z);
}

/// In no time nothing moves.
pub proof fn law_no_time_no_move(a: Single, target: Single)
    requires
        a.is_finite(),
        difference(target, a).is_finite(),
    ensures
        eased(a, target, num(ONE)).is_finite(),
        eased(a, target, num(ONE)).value() == a.value(),
{
    law_self_difference(num(ONE));
    let z = product(difference(num(ONE), num(ONE)), difference(target, a));
    lemma_zero_product(difference(num(ONE), num(ONE)), difference(target, a));
    law_zero_adds_nothing(a, z);
}

/// A value moves towards its target, by no more than the whole distance to it as that
/// is rounded.
pub proof fn law_moves_towards_target(a: Single, target: Single, decay: Single)
    requires
        a.is_finite(),
        difference(target, a).is_finite(),
        difference(num(ONE), decay).is_finite(),
        0 <= difference(num(ONE), decay).value() <= num(ONE).value(),
    ensures
        0 <= difference(target, a).value() ==> at_most(a, eased(a, target, decay)) && at_most(
            eased(a, target, decay),
            sum(a, difference(target, a)),
        ),
        difference(target, a).value() <= 0 ==> at_most(eased(a, target, decay), a) && at_most(
            sum(a, difference(target, a)),
            eased(a, target, decay),
        ),
{
    let k = difference(num(ONE), decay);
    let d = difference(target, a);
    let far = absolute(d);
    lemma_zero_units();
    lemma_units_order(0, k.magnitude());
    lemma_units_order(0, d.magnitude());
    let part = product(far, absolute(k));
    law_product_monotone(far, num(0), absolute(k));
    law_product_monotone(far, absolute(k), num(ONE));
    lemma_times_one(far);
    lemma_zero_product(far, num(0));
    law_order_is_that_of_values(num(0), far);
    assert(part.is_finite());
    law_order_is_that_of_values(product(far, num(0)), part);
    law_order_is_that_of_values(part, far);
    // the step has the size of the part, and the sign of the distance
    let step = product(k, d);
    law_product_commutes(k, d);
    assert(step.magnitude() == part.magnitude() && (d.value() >= 0 ==> step.value() >= 0
        || k.value() == 0) && (d.value() <= 0 ==> step.value() <= 0 || k.value() == 0)) by {
        reveal(product);
    }
    if k.value() == 0 {
        lemma_zero_product(k, d);
    }
    law_zero_adds_nothing(a, num(0));
    law_order_is_that_of_values(a, sum(a, num(0)));
    if d.value() >= 0 {
        law_sum_monotone(a, num(0), a, step);
        law_sum_monotone(a, step, a, d);
    }
    if d.value() <= 0 {
        law_sum_monotone(a, step, a, num(0));
        law_sum_monotone(a, d, a, step);
    }
}

/// A higher speed makes no time constant longer: at 0 the response is slowest, at 1
/// fastest.
pub proof fn law_higher_speed_is_faster(slow: Single, span: Single, a: Single, b: Single)
    requires
        slow.is_finite(),
        span.is_finite(),
        !span.negative(),
        at_most(a, b),
    ensures
        at_most(
            time_constant(slow, span, limited(b, num(0), num(ONE))),
            time_constant(slow, span, limited(a, num(0), num(ONE))),
        ),
{
    let x = limited(a, num(0), num(ONE));
    let y = limited(b, num(0), num(ONE));
    law_order_is_that_of_values(x, y);
    law_order_is_that_of_values(num(0), x);
    law_order_is_that_of_values(y, num(ONE));
    law_product_monotone(span, x, y);
    law_product_monotone(span, num(0), x);
    law_product_monotone(span, y, num(ONE));
    lemma_times_one(span);
    lemma_zero_product(span, num(0));
    let p = product(span, x);
    let q = product(span, y);
    assert(p.is_finite() && q.is_finite());
    law_order_is_that_of_values(p, q);
    law_sum_monotone(slow, negated(q), slow, negated(p));
}

/// A time constant lies between its slowest and its fastest value, and is positive.
pub proof fn law_time_constant_range(slow: Single, span: Single, sensitivity: Single)
    requires
        slow.is_finite(),
        span.is_finite(),
        !span.negative(),
        span.value() < slow.value(),
        !sensitivity.is_nan(),
    ensures
        ({
            let t = time_constant(slow, span, limited(sensitivity, num(0), num(ONE)));
            &&& at_most(difference(slow, span), t)
            &&& at_most(t, slow)
            &&& less(num(0), t)
        }),
{
    let speed = limited(sensitivity, num(0), num(ONE));
    lemma_zero_units();
    // at the ends
    lemma_times_one(span);
    lemma_zero_product(span, num(0));
    law_zero_adds_nothing(slow, negated(product(span, num(0))));
    law_higher_speed_is_faster(slow, span, num(0), speed);
    law_higher_speed_is_faster(slow, span, speed, num(ONE));
    assert(time_constant(slow, span, num(0)) == slow);
    assert(time_constant(slow, span, num(ONE)) == difference(slow, span));
    // a positive difference is not rounded to nothing
    assert(units(1) == 1) by {
        reveal(units);
    }
    law_zero_adds_nothing(num(1), num(0));
    law_sum_monotone(num(1), num(0), slow, negated(span));
}

} // verus!
