//! A stream within its bounds gives levels that can be shown.
use crate::analyzer::{
    band_part, channel_samples, frame_count, gains_fit, in_frames, lemma_frame_count,
    scaled_sample, smoothed_bands, Analyzer, LARGEST_SAMPLE,
};
use crate::bands::bin_count;
use crate::channel::{pushed, smoothed, smoothed_bins, windowed_samples, FFT_SIZE, NUM_BINS, PCEN_S};
use crate::gain::{lemma_share, lemma_share_units, REST};
use crate::levels::BANDS;
use crate::number::constants::{HALF, MINUS_ONE, ONE, TWO};
use crate::number::laws::{
    law_exact_quotient, law_product_commutes, law_product_monotone, law_quotient_monotone,
    law_self_difference, law_short_numbers_are_exact, law_sum_monotone, lemma_one, lemma_times_one,
};
use crate::number::order::{
    law_order_is_that_of_values, lemma_nearest_exact, lemma_nearest_monotone, lemma_zero_units,
};
use crate::number::rounding::{
    lemma_nearest_at, lemma_nearest_scale, lemma_pow2_24, lemma_round_even_scale, round_even,
};
use crate::number::single::{
    at_most, difference, negated, num, of_whole, product, quotient, sum, units, Single, UNIT_SHIFT,
};
use crate::range::{
    amounts_in_bin, is_amount, is_level, law_hop_publishes_levels, lemma_weighted_size, LARGE_GAIN,
};
use crate::room::lemma_halves;
use crate::run::{are_gains, hop, hop_in_steps, run};
use vstd::arithmetic::power2::{lemma2_to64, lemma_pow2_adds, lemma_pow2_pos, pow2};
use vstd::prelude::*;

verus! {

/// 2^20, up to which magnitudes are taken to be; 1024 samples of at most 2 have none above
/// 2048.
pub const LARGE_MAG: u32 = 0x4980_0000;

/// 1022361.625, what smoothing keeps of it.
pub const LARGE_KEPT: u32 = 0x4979_999a;

/// 26214.40039..., what smoothing takes of it.
pub const LARGE_TAKEN: u32 = 0x46cc_cccd;

/// 2^14
pub const HALF_RANGE: u32 = 0x4680_0000;

/// 2^-14
pub const LARGE_SCALE: u32 = 0x3880_0000;

/// A sample between -2 and 2. Sound is between -1 and 1, but for the least sample of 16 bits,
/// which is a little below -1.
pub open spec fn is_sample(s: Single) -> bool {
    at_most(negated(num(TWO)), s) && at_most(s, num(TWO))
}

pub open spec fn are_samples(h: Seq<Single>) -> bool {
    forall|i: int| 0 <= i < h.len() ==> is_sample(#[trigger] h[i])
}

/// A magnitude of up to 2^20.
pub open spec fn is_magnitude(m: Single) -> bool {
    is_amount(m) && at_most(m, num(LARGE_MAG))
}

pub open spec fn are_magnitudes(m: Seq<Single>) -> bool {
    m.len() == NUM_BINS && forall|k: int| 0 <= k < m.len() ==> is_magnitude(#[trigger] m[k])
}

/// A value of the window: between 0 and 1.
pub open spec fn is_share(w: Single) -> bool {
    is_amount(w) && at_most(w, num(ONE))
}

/// A transform that gives magnitudes of up to 2^20 for samples between -2 and 2.
pub open spec fn is_spectrum(spectrum: spec_fn(Seq<Single>) -> Seq<Single>) -> bool {
    forall|h: Seq<Single>|
        h.len() == FFT_SIZE && are_samples(h) ==> are_magnitudes(#[trigger] spectrum(h))
}

/// A gain that is finite, not negative and at most 2^40 for magnitudes of up to 2^20.
pub open spec fn is_gain(gain: spec_fn(Single, Single) -> Single) -> bool {
    forall|m: Single, s: Single|
        is_magnitude(m) && is_magnitude(s) ==> is_amount(#[trigger] gain(m, s)) && at_most(
            gain(m, s),
            num(LARGE_GAIN),
        )
}

/// An analysis whose samples, magnitudes and levels are within their bounds.
pub open spec fn within_bounds(a: Analyzer) -> bool {
    &&& a.window@.len() == FFT_SIZE
    &&& forall|i: int| 0 <= i < FFT_SIZE ==> is_share(#[trigger] a.window@[i])
    &&& forall|b: int| 0 <= b < BANDS ==> (#[trigger] a.band_bins@[b]).1 < NUM_BINS
    &&& are_samples(a.left.history())
    &&& are_samples(a.right.history())
    &&& are_magnitudes(a.left.pcen_m@)
    &&& are_magnitudes(a.right.pcen_m@)
    &&& forall|b: int|
        0 <= b < BANDS ==> is_level(#[trigger] a.output.energy@[b], a.output.direction@[b])
}

/// The window is between 0 and 1, from a cosine between -1 and 1.
pub proof fn law_window_is_share(cosine: Single)
    requires
        at_most(num(MINUS_ONE), cosine),
        at_most(cosine, num(ONE)),
    ensures
        is_share(difference(num(HALF), product(num(HALF), cosine))),
{
    let p = product(num(HALF), cosine);
    let w = difference(num(HALF), p);
    lemma_zero_units();
    law_order_is_that_of_values(num(MINUS_ONE), cosine);
    law_order_is_that_of_values(cosine, num(ONE));
    law_product_monotone(num(HALF), num(MINUS_ONE), cosine);
    law_product_monotone(num(HALF), cosine, num(ONE));
    lemma_times_one(num(HALF));
    assert(p.is_finite());
    law_order_is_that_of_values(p, num(HALF));
    law_order_is_that_of_values(negated(num(HALF)), p);
    law_self_difference(num(HALF));
    law_sum_monotone(num(HALF), negated(num(HALF)), num(HALF), negated(p));
    law_sum_monotone(num(HALF), negated(p), num(HALF), num(HALF));
    lemma_halves();
    assert(w.is_finite());
    assert(!w.negative()) by {
        reveal(sum);
    }
}

/// Samples of 16 bits are samples.
pub proof fn law_scaled_is_sample(x: i16)
    ensures
        is_sample(scaled_sample(x)),
{
    let one = pow2(UNIT_SHIFT as nat);
    let n: nat = if x < 0 {
        -x as nat
    } else {
        x as nat
    };
    let scale = quotient(num(ONE), num(LARGEST_SAMPLE));
    let most = num(LARGE_SCALE);
    let p = pow2(135);
    lemma_pow2_pos(135);
    lemma_pow2_pos(UNIT_SHIFT as nat);
    lemma_pow2_24();
    lemma2_to64();
    lemma_one();
    lemma_zero_units();
    lemma_pow2_adds(23, 112);
    lemma_pow2_adds(14, 135);
    lemma_pow2_adds(1, UNIT_SHIFT as nat);
    lemma_pow2_adds(14, UNIT_SHIFT as nat);
    lemma_pow2_adds(23, 140);
    lemma_pow2_adds(23, 127);
    assert(most.size() == p && num(HALF_RANGE).size() == 0x4000 * one && num(TWO).size() == 2
        * one) by {
        reveal(units);
    }
    assert(one * one == p * (0x4000 * one)) by (nonlinear_arith)
        requires
            one == 0x4000 * p,
    ;
    law_exact_quotient(num(ONE), num(HALF_RANGE), most);
    law_order_is_that_of_values(num(HALF_RANGE), num(LARGEST_SAMPLE));
    law_quotient_monotone(num(ONE), num(LARGEST_SAMPLE), num(ONE), num(HALF_RANGE));
    assert(scale.is_finite() && !scale.negative()) by {
        reveal(quotient);
    }
    law_order_is_that_of_values(scale, most);
    law_short_numbers_are_exact(n, UNIT_SHIFT as nat);
    assert(of_whole(n).size() == n * one && of_whole(n).is_finite() && !of_whole(n).negative())
        by {
        reveal(of_whole);
    }
    lemma_nearest_exact(TWO);
    assert(((n * one) * scale.size()) * 1 <= (2 * one) * one) by (nonlinear_arith)
        requires
            n <= 0x8000,
            scale.size() <= p,
            one == 0x4000 * p,
    ;
    lemma_nearest_monotone((n * one) * scale.size(), one, 2 * one, 1);
    reveal(product);
}

/// Windowed samples are samples.
proof fn lemma_windowed(h: Seq<Single>, window: Seq<Single>)
    requires
        h.len() == FFT_SIZE,
        window.len() == FFT_SIZE,
        are_samples(h),
        forall|i: int| 0 <= i < FFT_SIZE ==> is_share(#[trigger] window[i]),
    ensures
        are_samples(windowed_samples(h, window)),
{
    let w = windowed_samples(h, window);
    assert forall|i: int| 0 <= i < w.len() implies is_sample(#[trigger] w[i]) by {
        assert(is_sample(h[i]) && is_share(window[i]));
        law_product_commutes(h[i], window[i]);
        lemma_weighted_size(window[i], h[i]);
    }
}

/// The samples of frames are among the data.
proof fn lemma_frames_in_data(len: int, c: int, i: int, channel: int)
    requires
        0 <= len,
        in_frames(len, c),
        0 <= i < frame_count(len, c),
        0 <= channel < 2,
    ensures
        0 <= i * c + (if channel < c {
            channel
        } else {
            0
        }) < len,
{
    lemma_frame_count(len, c, i);
    assert(i * c >= 0) by (nonlinear_arith)
        requires
            i >= 0,
            c > 0,
    ;
    if 1 < c && i * c + 1 == len {
        vstd::arithmetic::div_mod::lemma_fundamental_div_mod_converse(len, c, i, 1);
    }
}

/// Pushed samples are samples.
proof fn lemma_pushed(
    h: Seq<Single>,
    data: Seq<Single>,
    start: int,
    c: int,
    n: nat,
    channel: int,
)
    requires
        are_samples(h),
        are_samples(data),
        0 <= start <= data.len(),
        in_frames(data.len() - start, c),
        n <= frame_count(data.len() - start, c),
        0 <= channel < 2,
    ensures
        are_samples(pushed(h, channel_samples(data, start, c, n, channel))),
{
    let s = channel_samples(data, start, c, n, channel);
    let p = pushed(h, s);
    assert forall|i: int| 0 <= i < p.len() implies is_sample(#[trigger] p[i]) by {
        let j = i + s.len();
        if j < h.len() {
            assert(p[i] == h[j as int]);
        } else {
            let k = j - h.len();
            lemma_frames_in_data(data.len() - start, c, k, channel);
            assert(p[i] == s[k]);
        }
    }
}

/// Smoothing 2^20 with itself gives 2^20.
proof fn lemma_large_stays()
    ensures
        smoothed(true, num(LARGE_MAG), num(LARGE_MAG)) == num(LARGE_MAG),
{
    let h = pow2(120);
    let one = pow2(UNIT_SHIFT as nat);
    lemma_share_units();
    lemma2_to64();
    lemma_pow2_24();
    lemma_pow2_adds(20, 120);
    lemma_pow2_adds(20, UNIT_SHIFT as nat);
    lemma_pow2_adds(5, 140);
    lemma_pow2_adds(6, 140);
    lemma_pow2_adds(29, 140);
    lemma_pow2_adds(23, 146);
    lemma_pow2_adds(24, 146);
    let g = pow2(140);
    lemma_pow2_pos(140);
    assert(num(LARGE_MAG).size() == 0x10_0000 * one) by {
        reveal(units);
    }
    assert(pow2(145) == 32 * g && pow2(146) == 64 * g);
    assert(num(LARGE_KEPT).size() == 16357786 * pow2(145)) by {
        reveal(units);
    }
    assert(num(LARGE_TAKEN).size() == 13421773 * g) by {
        reveal(units);
    }
    let b = num(LARGE_MAG);
    assert(product(num(REST), b) == num(LARGE_KEPT)) by {
        lemma_nearest_exact(LARGE_KEPT);
        lemma_nearest_scale(523449152 * g, 1, one);
        assert((523449152 * h) * (0x10_0000 * one) == (523449152 * (0x10_0000 * h)) * one && 1
            * one == one) by (nonlinear_arith);
        reveal(product);
    }
    assert(product(num(PCEN_S), b) == num(LARGE_TAKEN)) by {
        lemma_nearest_exact(LARGE_TAKEN);
        lemma_nearest_scale(13421773 * g, 1, one);
        assert((13421773 * h) * (0x10_0000 * one) == (13421773 * (0x10_0000 * h)) * one && 1 * one
            == one) by (nonlinear_arith);
        reveal(product);
    }
    let v: nat = 536870925 * g;
    assert(1 * pow2(146) == pow2(146) && 1 * pow2(169) == pow2(169) && 1 * pow2(170) == pow2(170));
    lemma_nearest_at(v, 1, 146);
    lemma_round_even_scale(536870925, 64, g);
    assert(round_even(536870925, 64) == 8388608);
    reveal(sum);
}

/// Smoothing magnitudes of up to 2^20 gives one.
proof fn lemma_smoothed_magnitude(init: bool, old: Single, mag: Single)
    requires
        is_magnitude(old),
        is_magnitude(mag),
    ensures
        is_magnitude(smoothed(init, old, mag)),
{
    if init {
        let b = num(LARGE_MAG);
        lemma_share_units();
        lemma_zero_units();
        lemma_share(num(REST), 523449152, old);
        lemma_share(num(REST), 523449152, b);
        lemma_share(num(PCEN_S), 13421773, mag);
        lemma_share(num(PCEN_S), 13421773, b);
        law_order_is_that_of_values(old, b);
        law_order_is_that_of_values(mag, b);
        let p = product(num(REST), old);
        let q = product(num(PCEN_S), mag);
        law_product_monotone(num(REST), old, b);
        law_product_monotone(num(PCEN_S), mag, b);
        law_order_is_that_of_values(p, product(num(REST), b));
        law_order_is_that_of_values(q, product(num(PCEN_S), b));
        law_sum_monotone(p, q, product(num(REST), b), product(num(PCEN_S), b));
        lemma_large_stays();
        assert(!sum(p, q).negative()) by {
            reveal(sum);
        }
    }
}

/// Smoothing bands keeps magnitudes within their bound.
proof fn lemma_smoothed_bands(
    init: bool,
    old: Seq<Single>,
    mags: Seq<Single>,
    bins: Seq<(usize, usize)>,
    n: nat,
)
    requires
        are_magnitudes(old),
        are_magnitudes(mags),
    ensures
        are_magnitudes(smoothed_bands(init, old, mags, bins, n)),
    decreases n,
{
    if n > 0 {
        let prev = smoothed_bands(init, old, mags, bins, (n - 1) as nat);
        lemma_smoothed_bands(init, old, mags, bins, (n - 1) as nat);
        let next = smoothed_bins(init, prev, mags, bins[n - 1].0 as int, bins[n - 1].1 as int);
        assert forall|k: int| 0 <= k < next.len() implies is_magnitude(#[trigger] next[k]) by {
            assert(is_magnitude(prev[k]) && is_magnitude(mags[k]));
            lemma_smoothed_magnitude(init, prev[k], mags[k]);
        }
    }
}

/// The gains of a band are within their bound.
proof fn lemma_bounded_band(
    gain: spec_fn(Single, Single) -> Single,
    mags: Seq<Single>,
    m: Seq<Single>,
    bins: (usize, usize),
    gains: Seq<Single>,
    i: int,
)
    requires
        is_gain(gain),
        are_magnitudes(mags),
        are_magnitudes(m),
        bins.1 < NUM_BINS,
        gains.len() == bin_count(bins.0 as int, bins.1 as int),
        are_gains(gain, mags, bins.0 as int, band_part(m, bins), gains),
        0 <= i < gains.len(),
    ensures
        is_amount(gains[i]),
        at_most(gains[i], num(LARGE_GAIN)),
        is_amount(mags[bins.0 + i]),
{
    let part = band_part(m, bins);
    assert(part[i] == m[bins.0 + i]);
    assert(is_magnitude(m[bins.0 + i]) && is_magnitude(mags[bins.0 + i]));
    assert(gains[i] == gain(mags[bins.0 + i], part[i]));
}

/// A hop keeps an analysis within its bounds, and publishes levels that can be shown.
pub proof fn law_hop_stays_within_bounds(
    a: Analyzer,
    spectrum: spec_fn(Seq<Single>) -> Seq<Single>,
    gain: spec_fn(Single, Single) -> Single,
    after: Analyzer,
)
    requires
        within_bounds(a),
        is_spectrum(spectrum),
        is_gain(gain),
        hop(a, spectrum, gain, after),
    ensures
        within_bounds(after),
        after.channels_in == a.channels_in,
{
    let (bands, mid, gains) = choose|
        bands: Seq<(Vec<Single>, Vec<Single>)>,
        smoothed: Analyzer,
        gains: Seq<(Vec<Single>, Vec<Single>)>,
    |
        #[trigger] hop_in_steps(a, spectrum, gain, bands, smoothed, gains, after);
    let bins = a.band_bins@;
    let l = spectrum(windowed_samples(a.left.history(), a.window@));
    let r = spectrum(windowed_samples(a.right.history(), a.window@));
    lemma_windowed(a.left.history(), a.window@);
    lemma_windowed(a.right.history(), a.window@);
    let l_init = a.left.pcen_init;
    let r_init = a.right.pcen_init;
    lemma_smoothed_bands(l_init, a.left.pcen_m@, l, bins, 4);
    lemma_smoothed_bands(r_init, a.right.pcen_m@, r, bins, 4);
    assert forall|b: int| 0 <= b < BANDS implies is_level(
        #[trigger] after.output.energy@[b],
        after.output.direction@[b],
    ) by {
        assert(gains_fit(bins[b], gains[b]));
        assert(bins[b].1 < NUM_BINS);
        let n = gains[b].0@.len();
        let lo = bins[b].0 as int;
        let l_m = smoothed_bands(l_init, a.left.pcen_m@, l, bins, (b + 1) as nat);
        let r_m = smoothed_bands(r_init, a.right.pcen_m@, r, bins, (b + 1) as nat);
        lemma_smoothed_bands(l_init, a.left.pcen_m@, l, bins, (b + 1) as nat);
        lemma_smoothed_bands(r_init, a.right.pcen_m@, r, bins, (b + 1) as nat);
        assert(bands[b].0@ == band_part(l_m, bins[b]) && bands[b].1@ == band_part(r_m, bins[b]));
        assert forall|i: int| 0 <= i < n implies #[trigger] amounts_in_bin(
            l,
            r,
            gains[b].0@,
            gains[b].1@,
            lo,
            i,
        ) by {
            lemma_bounded_band(gain, l, l_m, bins[b], gains[b].0@, i);
            lemma_bounded_band(gain, r, r_m, bins[b], gains[b].1@, i);
        }
        assert forall|i: int| 0 <= i < n implies at_most(
            #[trigger] gains[b].0@[i],
            num(LARGE_GAIN),
        ) && at_most(gains[b].1@[i], num(LARGE_GAIN)) by {
            lemma_bounded_band(gain, l, l_m, bins[b], gains[b].0@, i);
            lemma_bounded_band(gain, r, r_m, bins[b], gains[b].1@, i);
        }
        law_hop_publishes_levels(mid, l, r, gains, after, b);
    }
}

/// Frames of samples keep an analysis within its bounds.
pub proof fn law_frames_stay_within_bounds(
    a: Analyzer,
    data: Seq<Single>,
    start: int,
    next: Option<usize>,
    after: Analyzer,
)
    requires
        within_bounds(a),
        are_samples(data),
        0 <= start <= data.len(),
        in_frames(data.len() - start, a.channels_in as int),
        a.processed(data, start, next, after),
    ensures
        within_bounds(after),
        after.channels_in == a.channels_in,
{
    let c = a.channels_in as int;
    let frames = frame_count(data.len() - start, c);
    lemma_frame_count(data.len() - start, c, 0);
    let wait = a.samples_until_hop as int;
    let n = (if frames > wait {
        wait + 1
    } else {
        frames
    }) as nat;
    lemma_pushed(a.left.history(), data, start, c, n, 0);
    lemma_pushed(a.right.history(), data, start, c, n, 1);
}

/// A stream of samples between -2 and 2 is shown by levels that can be: energies that are
/// finite and not negative, and directions between left and right.
pub proof fn law_run_publishes_levels(
    a: Analyzer,
    data: Seq<Single>,
    start: int,
    spectrum: spec_fn(Seq<Single>) -> Seq<Single>,
    gain: spec_fn(Single, Single) -> Single,
    after: Analyzer,
)
    requires
        within_bounds(a),
        is_spectrum(spectrum),
        is_gain(gain),
        are_samples(data),
        0 <= start <= data.len(),
        in_frames(data.len() - start, a.channels_in as int),
        run(a, data, start, spectrum, gain, after),
    ensures
        within_bounds(after),
        after.channels_in == a.channels_in,
    decreases data.len() - start,
{
    if a.processed(data, start, None, after) {
        law_frames_stay_within_bounds(a, data, start, None, after);
    } else {
        let (next, taken, done) = choose|next: usize, taken: Analyzer, done: Analyzer|
            {
                &&& 0 <= start < next <= data.len()
                &&& #[trigger] a.processed(data, start, Some(next), taken)
                &&& #[trigger] hop(taken, spectrum, gain, done)
                &&& run(done, data, next as int, spectrum, gain, after)
            };
        law_frames_stay_within_bounds(a, data, start, Some(next), taken);
        law_hop_stays_within_bounds(taken, spectrum, gain, done);
        law_run_publishes_levels(done, data, next as int, spectrum, gain, after);
    }
}

/// A new analysis is within its bounds, where its window is.
pub proof fn law_new_is_within_bounds(a: Analyzer, sample_rate: Single, channels_in: usize)
    requires
        a.wf(),
        a.is_new(sample_rate, channels_in),
        forall|i: int| 0 <= i < FFT_SIZE ==> is_share(#[trigger] a.window@[i]),
    ensures
        within_bounds(a),
{
    lemma_zero_units();
    assert(is_sample(num(0)) && is_magnitude(num(0)) && is_level(num(0), num(0)));
}

/// A new analysis that is handed a stream of samples between -2 and 2 publishes levels that
/// can be shown: energies that are finite and not negative, and directions between left and
/// right.
pub proof fn law_stream_is_shown(
    a: Analyzer,
    sample_rate: Single,
    data: Seq<Single>,
    spectrum: spec_fn(Seq<Single>) -> Seq<Single>,
    gain: spec_fn(Single, Single) -> Single,
    after: Analyzer,
    b: int,
)
    requires
        a.wf(),
        a.is_new(sample_rate, a.channels_in),
        forall|i: int| 0 <= i < FFT_SIZE ==> is_share(#[trigger] a.window@[i]),
        is_spectrum(spectrum),
        is_gain(gain),
        are_samples(data),
        in_frames(data.len() as int, a.channels_in as int),
        run(a, data, 0, spectrum, gain, after),
        0 <= b < BANDS,
    ensures
        is_level(after.output.energy@[b], after.output.direction@[b]),
{
    law_new_is_within_bounds(a, sample_rate, a.channels_in);
    law_run_publishes_levels(a, data, 0, spectrum, gain, after);
}

} // verus!
