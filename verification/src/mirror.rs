//! Sound with its sides exchanged: the same energies, and directions to the other side.
use crate::analyzer::{channel_samples, frame_count, gains_fit, Analyzer};
use crate::bands::{direction_of, totals, Totals};
use crate::channel::windowed_samples;
use crate::levels::{BandLevels, BANDS};
use crate::number::constants::HALF;
use crate::number::laws::{law_difference_symmetric, law_sum_commutes};
use crate::number::order::{lemma_units_order, lemma_zero_units};
use crate::number::rounding::lemma_nearest_zero;
use crate::number::single::{
    difference, negated, num, product, quotient, sum, Single, UNIT_SHIFT,
};
use vstd::arithmetic::power2::{lemma_pow2_pos, pow2};
use vstd::prelude::*;

verus! {

/// Two numbers on opposite sides of zero, equally far from it; the two zeros are both
/// their own and each other's mirror image, and so are NaNs.
pub open spec fn mirrored(a: Single, b: Single) -> bool {
    ||| a.is_nan() && b.is_nan()
    ||| a.is_zero() && b.is_zero()
    ||| !a.is_nan() && b == negated(a)
}

/// A difference taken the other way round is mirrored.
proof fn lemma_mirrored_difference(a: Single, b: Single)
    ensures
        mirrored(difference(a, b), difference(b, a)),
{
    lemma_zero_units();
    law_difference_symmetric(a, b);
    reveal(sum);
}

/// A mirrored number divided by the same is mirrored.
proof fn lemma_mirrored_quotient(a: Single, b: Single, d: Single)
    requires
        mirrored(a, b),
    ensures
        mirrored(quotient(a, d), quotient(b, d)),
{
    lemma_zero_units();
    if a.is_zero() && d.is_finite() && !d.is_zero() {
        lemma_units_order(0, d.magnitude());
        lemma_nearest_zero(d.size());
        assert(0 * pow2(UNIT_SHIFT as nat) == 0);
    }
    reveal(quotient);
}

/// A mirrored number multiplied by the same is mirrored.
proof fn lemma_mirrored_product(a: Single, b: Single, w: Single)
    requires
        mirrored(a, b),
    ensures
        mirrored(product(a, w), product(b, w)),
{
    lemma_zero_units();
    lemma_pow2_pos(UNIT_SHIFT as nat);
    lemma_nearest_zero(pow2(UNIT_SHIFT as nat));
    assert(0 * w.size() == 0);
    reveal(product);
}

/// Mirrored terms have a mirrored sum.
proof fn lemma_mirrored_sum(a: Single, b: Single, c: Single, d: Single)
    requires
        mirrored(a, b),
        mirrored(c, d),
    ensures
        mirrored(sum(a, c), sum(b, d)),
{
    lemma_zero_units();
    reveal(sum);
}

/// Exchanging the sides keeps the energy and the weight of a band, and mirrors its
/// direction.
pub proof fn law_exchanged_sides(
    l_mags: Seq<Single>,
    r_mags: Seq<Single>,
    l_gains: Seq<Single>,
    r_gains: Seq<Single>,
    lo: int,
    n: nat,
)
    ensures
        ({
            let t = totals(l_mags, r_mags, l_gains, r_gains, lo, n);
            let u = totals(r_mags, l_mags, r_gains, l_gains, lo, n);
            &&& u.energy == t.energy
            &&& u.weight == t.weight
            &&& mirrored(t.direction, u.direction)
            &&& mirrored(direction_of(t), direction_of(u))
        }),
    decreases n,
{
    let t = totals(l_mags, r_mags, l_gains, r_gains, lo, n);
    let u = totals(r_mags, l_mags, r_gains, l_gains, lo, n);
    if n > 0 {
        law_exchanged_sides(l_mags, r_mags, l_gains, r_gains, lo, (n - 1) as nat);
        let prev = totals(l_mags, r_mags, l_gains, r_gains, lo, (n - 1) as nat);
        let other = totals(r_mags, l_mags, r_gains, l_gains, lo, (n - 1) as nat);
        let l = l_mags[lo + n - 1];
        let r = r_mags[lo + n - 1];
        let gains = sum(l_gains[n - 1], r_gains[n - 1]);
        let energy = product(gains, num(HALF));
        law_sum_commutes(l, r);
        law_sum_commutes(l_gains[n - 1], r_gains[n - 1]);
        lemma_mirrored_difference(r, l);
        lemma_mirrored_quotient(difference(r, l), difference(l, r), sum(l, r));
        let p = quotient(difference(r, l), sum(l, r));
        let q = quotient(difference(l, r), sum(l, r));
        lemma_mirrored_product(p, q, energy);
        lemma_mirrored_sum(
            prev.direction,
            other.direction,
            product(p, energy),
            product(q, energy),
        );
    }
    lemma_mirrored_mean(t, u);
}

/// A mirrored sum of directions has a mirrored mean.
proof fn lemma_mirrored_mean(t: Totals, u: Totals)
    requires
        t.weight == u.weight,
        mirrored(t.direction, u.direction),
    ensures
        mirrored(direction_of(t), direction_of(u)),
{
    lemma_mirrored_quotient(t.direction, u.direction, t.weight);
}

/// Frames of two channels with the channels exchanged.
pub open spec fn exchanged_frames(data: Seq<Single>) -> Seq<Single> {
    Seq::new(
        data.len(),
        |i: int|
            data[if i % 2 == 0 {
                i + 1
            } else {
                i - 1
            }],
    )
}

/// Two analyses that differ in their sides alone: each has on the left what the other
/// has on the right.
pub open spec fn exchanged(a: Analyzer, b: Analyzer) -> bool {
    &&& a.window@ == b.window@
    &&& a.band_bins@ == b.band_bins@
    &&& a.channels_in == b.channels_in
    &&& a.samples_until_hop == b.samples_until_hop
    &&& a.left.history() == b.right.history()
    &&& a.right.history() == b.left.history()
    &&& a.left.pcen_m@ == b.right.pcen_m@
    &&& a.right.pcen_m@ == b.left.pcen_m@
    &&& a.left.pcen_init == b.right.pcen_init
    &&& a.right.pcen_init == b.left.pcen_init
}

/// The levels of two analyses: the same energies, and mirrored directions.
pub open spec fn mirrored_levels(a: BandLevels, b: BandLevels) -> bool {
    forall|i: int|
        #![trigger a.energy@[i]]
        #![trigger a.direction@[i]]
        0 <= i < BANDS ==> b.energy@[i] == a.energy@[i] && mirrored(
            a.direction@[i],
            b.direction@[i],
        )
}

/// Each channel of exchanged frames is the other channel of the frames.
pub proof fn law_exchanged_channels(data: Seq<Single>, start: int, n: nat)
    requires
        0 <= start,
        start % 2 == 0,
        data.len() % 2 == 0,
        start + 2 * n <= data.len(),
    ensures
        channel_samples(exchanged_frames(data), start, 2, n, 0) == channel_samples(
            data,
            start,
            2,
            n,
            1,
        ),
        channel_samples(exchanged_frames(data), start, 2, n, 1) == channel_samples(
            data,
            start,
            2,
            n,
            0,
        ),
{
    assert(channel_samples(exchanged_frames(data), start, 2, n, 0) =~= channel_samples(
        data,
        start,
        2,
        n,
        1,
    ));
    assert(channel_samples(exchanged_frames(data), start, 2, n, 1) =~= channel_samples(
        data,
        start,
        2,
        n,
        0,
    ));
}

/// Analyses that differ in their sides alone still do after they have taken the same
/// frames, one of them with the channels exchanged; spectra are due at the same frames,
/// and each is taken on the left of what the other takes on the right.
pub proof fn law_exchanged_stream(
    a: Analyzer,
    b: Analyzer,
    data: Seq<Single>,
    start: int,
    a_next: Option<usize>,
    b_next: Option<usize>,
    a_after: Analyzer,
    b_after: Analyzer,
)
    requires
        exchanged(a, b),
        a.channels_in == 2,
        0 <= start <= data.len(),
        start % 2 == 0,
        data.len() % 2 == 0,
        a.processed(data, start, a_next, a_after),
        b.processed(exchanged_frames(data), start, b_next, b_after),
    ensures
        a_next == b_next,
        exchanged(a_after, b_after),
        a_after.output == a.output,
        b_after.output == b.output,
        windowed_samples(a_after.left.history(), a_after.window@) == windowed_samples(
            b_after.right.history(),
            b_after.window@,
        ),
        windowed_samples(a_after.right.history(), a_after.window@) == windowed_samples(
            b_after.left.history(),
            b_after.window@,
        ),
{
    let frames = frame_count(data.len() - start, 2);
    let wait = a.samples_until_hop as int;
    let n = (if frames > wait {
        wait + 1
    } else {
        frames
    }) as nat;
    law_exchanged_channels(data, start, n);
}

/// So they do after the magnitudes of spectra that are exchanged too have been smoothed.
pub proof fn law_exchanged_smoothing(
    a: Analyzer,
    b: Analyzer,
    l_mags: Seq<Single>,
    r_mags: Seq<Single>,
    a_bands: Seq<(Vec<Single>, Vec<Single>)>,
    b_bands: Seq<(Vec<Single>, Vec<Single>)>,
    a_after: Analyzer,
    b_after: Analyzer,
)
    requires
        exchanged(a, b),
        a.bands_smoothed(l_mags, r_mags, a_bands, a_after),
        b.bands_smoothed(r_mags, l_mags, b_bands, b_after),
    ensures
        exchanged(a_after, b_after),
        forall|i: int|
            0 <= i < BANDS ==> (#[trigger] a_bands[i]).0@ == b_bands[i].1@ && a_bands[i].1@
                == b_bands[i].0@,
{
}

/// And at the end of the hop, from gains that are exchanged too: the energies of the two
/// are the same, and their directions mirrored.
pub proof fn law_exchanged_levels(
    a: Analyzer,
    b: Analyzer,
    l_mags: Seq<Single>,
    r_mags: Seq<Single>,
    a_gains: Seq<(Vec<Single>, Vec<Single>)>,
    b_gains: Seq<(Vec<Single>, Vec<Single>)>,
    a_after: Analyzer,
    b_after: Analyzer,
)
    requires
        exchanged(a, b),
        forall|i: int| 0 <= i < BANDS ==> gains_fit(a.band_bins@[i], #[trigger] a_gains[i]),
        forall|i: int|
            0 <= i < BANDS ==> (#[trigger] a_gains[i]).0@ == b_gains[i].1@ && a_gains[i].1@
                == b_gains[i].0@,
        a.hop_finished(l_mags, r_mags, a_gains, a_after),
        b.hop_finished(r_mags, l_mags, b_gains, b_after),
    ensures
        exchanged(a_after, b_after),
        mirrored_levels(a_after.output, b_after.output),
{
    assert forall|i: int| 0 <= i < BANDS implies b_after.output.energy@[i]
        == a_after.output.energy@[i] && mirrored(
        a_after.output.direction@[i],
        b_after.output.direction@[i],
    ) by {
        assert(gains_fit(a.band_bins@[i], a_gains[i]));
        law_exchanged_sides(
            l_mags,
            r_mags,
            a_gains[i].0@,
            a_gains[i].1@,
            a.band_bins@[i].0 as int,
            a_gains[i].0@.len(),
        );
    }
}

} // verus!
