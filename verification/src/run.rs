//! The analysis of a stream as a whole, with the native functions it rests on as
//! arguments: `spectrum` gives the magnitudes of the spectrum of some samples, `gain` the
//! gain of a bin from its magnitude and its smoothed magnitude.
use crate::analyzer::{gains_fit, Analyzer};
use crate::channel::windowed_samples;
use crate::levels::BANDS;
use crate::mirror::{
    exchanged, exchanged_frames, law_exchanged_levels, law_exchanged_smoothing,
    law_exchanged_stream, mirrored_levels,
};
use crate::number::single::{num, Single};
use vstd::prelude::*;

verus! {

/// The gains of a band's bins from its magnitudes and smoothed magnitudes.
pub open spec fn are_gains(
    gain: spec_fn(Single, Single) -> Single,
    mags: Seq<Single>,
    lo: int,
    smoothed: Seq<Single>,
    gains: Seq<Single>,
) -> bool {
    forall|i: int| 0 <= i < gains.len() ==> #[trigger] gains[i] == gain(mags[lo + i], smoothed[i])
}

/// One hop in its steps: the magnitudes of both spectra are smoothed, and the gains of
/// the bins become levels.
pub open spec fn hop_in_steps(
    a: Analyzer,
    spectrum: spec_fn(Seq<Single>) -> Seq<Single>,
    gain: spec_fn(Single, Single) -> Single,
    bands: Seq<(Vec<Single>, Vec<Single>)>,
    smoothed: Analyzer,
    gains: Seq<(Vec<Single>, Vec<Single>)>,
    after: Analyzer,
) -> bool {
    let l = spectrum(windowed_samples(a.left.history(), a.window@));
    let r = spectrum(windowed_samples(a.right.history(), a.window@));
    &&& a.bands_smoothed(l, r, bands, smoothed)
    &&& forall|b: int|
        0 <= b < BANDS ==> {
            &&& gains_fit(a.band_bins@[b], #[trigger] gains[b])
            &&& are_gains(gain, l, a.band_bins@[b].0 as int, bands[b].0@, gains[b].0@)
            &&& are_gains(gain, r, a.band_bins@[b].0 as int, bands[b].1@, gains[b].1@)
        }
    &&& smoothed.hop_finished(l, r, gains, after)
}

/// One hop.
pub open spec fn hop(
    a: Analyzer,
    spectrum: spec_fn(Seq<Single>) -> Seq<Single>,
    gain: spec_fn(Single, Single) -> Single,
    after: Analyzer,
) -> bool {
    exists|
        bands: Seq<(Vec<Single>, Vec<Single>)>,
        smoothed: Analyzer,
        gains: Seq<(Vec<Single>, Vec<Single>)>,
    |
        #[trigger] hop_in_steps(a, spectrum, gain, bands, smoothed, gains, after)
}

/// The frames of `data` from `start` on, with a hop wherever a spectrum is due.
pub open spec fn run(
    a: Analyzer,
    data: Seq<Single>,
    start: int,
    spectrum: spec_fn(Seq<Single>) -> Seq<Single>,
    gain: spec_fn(Single, Single) -> Single,
    after: Analyzer,
) -> bool
    decreases data.len() - start,
{
    ||| a.processed(data, start, None, after)
    ||| exists|next: usize, taken: Analyzer, done: Analyzer|
        {
            &&& 0 <= start < next <= data.len()
            &&& #[trigger] a.processed(data, start, Some(next), taken)
            &&& #[trigger] hop(taken, spectrum, gain, done)
            &&& run(done, data, next as int, spectrum, gain, after)
        }
}

/// A hop of two analyses that differ in their sides alone leaves them so, with the same
/// energies and mirrored directions.
pub proof fn law_exchanged_hop(
    a: Analyzer,
    b: Analyzer,
    spectrum: spec_fn(Seq<Single>) -> Seq<Single>,
    gain: spec_fn(Single, Single) -> Single,
    a_after: Analyzer,
    b_after: Analyzer,
)
    requires
        exchanged(a, b),
        hop(a, spectrum, gain, a_after),
        hop(b, spectrum, gain, b_after),
    ensures
        exchanged(a_after, b_after),
        mirrored_levels(a_after.output, b_after.output),
        a_after.channels_in == a.channels_in,
{
    let (a_bands, a_smooth, a_gains) = choose|
        bands: Seq<(Vec<Single>, Vec<Single>)>,
        smoothed: Analyzer,
        gains: Seq<(Vec<Single>, Vec<Single>)>,
    |
        #[trigger] hop_in_steps(a, spectrum, gain, bands, smoothed, gains, a_after);
    let (b_bands, b_smooth, b_gains) = choose|
        bands: Seq<(Vec<Single>, Vec<Single>)>,
        smoothed: Analyzer,
        gains: Seq<(Vec<Single>, Vec<Single>)>,
    |
        #[trigger] hop_in_steps(b, spectrum, gain, bands, smoothed, gains, b_after);
    let l = spectrum(windowed_samples(a.left.history(), a.window@));
    let r = spectrum(windowed_samples(a.right.history(), a.window@));
    law_exchanged_smoothing(a, b, l, r, a_bands, b_bands, a_smooth, b_smooth);
    assert forall|i: int| 0 <= i < BANDS implies (#[trigger] a_gains[i]).0@ == b_gains[i].1@
        && a_gains[i].1@ == b_gains[i].0@ by {
        assert(gains_fit(b.band_bins@[i], b_gains[i]));
        assert(a_bands[i].0@ == b_bands[i].1@ && a_bands[i].1@ == b_bands[i].0@);
        assert(a_gains[i].0@ =~= b_gains[i].1@);
        assert(a_gains[i].1@ =~= b_gains[i].0@);
    }
    law_exchanged_levels(a_smooth, b_smooth, l, r, a_gains, b_gains, a_after, b_after);
}

/// Exchanging left and right in a stream of two channels exchanges nothing but the sides
/// of what is shown: the energies are the same, and the directions mirrored.
pub proof fn law_exchanged_run(
    a: Analyzer,
    b: Analyzer,
    data: Seq<Single>,
    start: int,
    spectrum: spec_fn(Seq<Single>) -> Seq<Single>,
    gain: spec_fn(Single, Single) -> Single,
    a_after: Analyzer,
    b_after: Analyzer,
)
    requires
        exchanged(a, b),
        mirrored_levels(a.output, b.output),
        a.channels_in == 2,
        0 <= start <= data.len(),
        start % 2 == 0,
        data.len() % 2 == 0,
        run(a, data, start, spectrum, gain, a_after),
        run(b, exchanged_frames(data), start, spectrum, gain, b_after),
    ensures
        exchanged(a_after, b_after),
        mirrored_levels(a_after.output, b_after.output),
    decreases data.len() - start,
{
    let other = exchanged_frames(data);
    if a.processed(data, start, None, a_after) {
        if b.processed(other, start, None, b_after) {
            law_exchanged_stream(a, b, data, start, None, None, a_after, b_after);
        } else {
            let (next, taken, done) = choose|next: usize, taken: Analyzer, done: Analyzer|
                {
                    &&& 0 <= start < next <= other.len()
                    &&& #[trigger] b.processed(other, start, Some(next), taken)
                    &&& #[trigger] hop(taken, spectrum, gain, done)
                    &&& run(done, other, next as int, spectrum, gain, b_after)
                };
            law_exchanged_stream(a, b, data, start, None, Some(next), a_after, taken);
        }
    } else {
        let (next, taken, done) = choose|next: usize, taken: Analyzer, done: Analyzer|
            {
                &&& 0 <= start < next <= data.len()
                &&& #[trigger] a.processed(data, start, Some(next), taken)
                &&& #[trigger] hop(taken, spectrum, gain, done)
                &&& run(done, data, next as int, spectrum, gain, a_after)
            };
        if b.processed(other, start, None, b_after) {
            law_exchanged_stream(a, b, data, start, Some(next), None, taken, b_after);
        } else {
            let (b_next, b_taken, b_done) = choose|
                next: usize,
                taken: Analyzer,
                done: Analyzer,
            |
                {
                    &&& 0 <= start < next <= other.len()
                    &&& #[trigger] b.processed(other, start, Some(next), taken)
                    &&& #[trigger] hop(taken, spectrum, gain, done)
                    &&& run(done, other, next as int, spectrum, gain, b_after)
                };
            law_exchanged_stream(a, b, data, start, Some(next), Some(b_next), taken, b_taken);
            law_exchanged_hop(taken, b_taken, spectrum, gain, done, b_done);
            law_exchanged_run(
                done,
                b_done,
                data,
                next as int,
                spectrum,
                gain,
                a_after,
                b_after,
            );
        }
    }
}

/// Two new analyses with the same window differ in their sides alone, which are silent.
pub proof fn law_new_analyses_are_exchanged(
    a: Analyzer,
    b: Analyzer,
    sample_rate: Single,
    channels_in: usize,
)
    requires
        a.is_new(sample_rate, channels_in),
        b.is_new(sample_rate, channels_in),
        a.window@ == b.window@,
    ensures
        exchanged(a, b),
        mirrored_levels(a.output, b.output),
{
    assert(a.band_bins@ =~= b.band_bins@) by {
        assert forall|i: int| 0 <= i < BANDS implies a.band_bins@[i] == b.band_bins@[i] by {}
    }
    assert(num(0).is_zero());
}

} // verus!
