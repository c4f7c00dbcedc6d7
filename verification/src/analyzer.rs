//! The audio analysis: frames come in, and at every hop the spectrum of both
//! channels becomes one energy and one direction per band.
//!
//! The transform itself and the powers are taken by the caller: `process` says when
//! a spectrum is due, `windowed_left` and `windowed_right` what it is taken of,
//! `smooth_bands` gives what the gains of `gain` are computed from, and `finish_hop` makes
//! levels of them.
use crate::balance::{is_mean_direction, law_level_is_the_mean};
use crate::bands::{
    band_bins, band_level, bin_count, bins_of, direction_of, energy_of,
    law_band_without_bins_is_silent, totals, Totals,
};
use crate::channel::{
    pushed, smoothed, smoothed_bins, windowed_samples, ChannelState, FFT_SIZE, NUM_BINS,
};
use crate::levels::{BandLevels, BANDS};
use crate::mean::is_mean_energy;
use crate::number::constants::{HALF, ONE, TWO};
use crate::number::single::{difference, negated, num, of_whole, product, quotient, Single};
use vstd::prelude::*;

verus! {

/// Frames from one spectrum to the next.
pub const HOP_SIZE: usize = 256;

/// The circle constant.
pub const PI: u32 = 0x4049_0fdb;

/// 1023, the last sample of a spectrum.
pub const LAST_SAMPLE: u32 = 0x447f_c000;

/// 32767, the largest sample of 16 bits.
pub const LARGEST_SAMPLE: u32 = 0x46ff_fe00;

/// Angle whose cosine shapes the window at sample `n`.
pub open spec fn angle_at(n: nat) -> Single {
    quotient(
        product(product(num(TWO), num(PI)), of_whole(n)),
        num(LAST_SAMPLE),
    )
}

pub fn window_angle(n: u32) -> (angle: Single)
    ensures
        angle == angle_at(n as nat),
{
    num(TWO).times(num(PI)).times(Single::from_u32(n)).over(num(LAST_SAMPLE))
}

/// The window at a sample, from the cosine of its angle: half of what the cosine
/// lacks to 1.
pub fn window_value(cosine: Single) -> (w: Single)
    ensures
        w == difference(num(HALF), product(num(HALF), cosine)),
{
    num(HALF).minus(num(HALF).times(cosine))
}

/// A sample of 16 bits as a number from -1 to 1, as near as the scale allows.
pub open spec fn scaled_sample(s: i16) -> Single {
    product(
        if s < 0 {
            negated(of_whole(-s as nat))
        } else {
            of_whole(s as nat)
        },
        quotient(num(ONE), num(LARGEST_SAMPLE)),
    )
}

/// Samples of 16 bits as numbers.
pub fn scale_samples(data: &Vec<i16>) -> (scaled: Vec<Single>)
    ensures
        scaled@ == data@.map_values(|s: i16| scaled_sample(s)),
{
    let scale: Single = num(ONE).over(num(LARGEST_SAMPLE));
    let mut scaled: Vec<Single> = Vec::new();
    let mut i: usize = 0;
    while i < data.len()
        invariant
            i <= data.len(),
            scale == quotient(num(ONE), num(LARGEST_SAMPLE)),
            scaled@ == data@.take(i as int).map_values(|s: i16| scaled_sample(s)),
        decreases data.len() - i,
    {
        scaled.push(Single::from_i16(data[i]).times(scale));
        i = i + 1;
        assert(scaled@ =~= data@.take(i as int).map_values(|s: i16| scaled_sample(s)));
    }
    assert(data@.take(data@.len() as int) =~= data@);
    scaled
}

/// Whether `n` samples are frames of `c` channels, of which the last may be short
/// but holds both of the channels that are looked at.
pub open spec fn in_frames(n: int, c: int) -> bool {
    c > 0 && (n % c == 0 || n % c >= 2)
}

/// How many frames of `c` channels `n` samples are, a short last one counted.
pub open spec fn frame_count(n: int, c: int) -> int {
    (n + c - 1) / c
}

/// The samples of one channel in `n` frames from `start` on. A channel that the
/// stream lacks is taken from the first.
pub open spec fn channel_samples(
    data: Seq<Single>,
    start: int,
    c: int,
    n: nat,
    channel: int,
) -> Seq<Single> {
    Seq::new(
        n,
        |i: int|
            data[start + i * c + if channel < c {
                channel
            } else {
                0
            }],
    )
}

/// The state of the analysis.
pub struct Analyzer {
    pub window: Vec<Single>,
    pub band_bins: [(usize, usize); 4],
    pub channels_in: usize,
    pub samples_until_hop: usize,
    pub left: ChannelState,
    pub right: ChannelState,
    pub output: BandLevels,
}

/// The smoothed magnitudes after the first `n` bands have been smoothed in turn.
pub open spec fn smoothed_bands(
    init: bool,
    old: Seq<Single>,
    mags: Seq<Single>,
    bins: Seq<(usize, usize)>,
    n: nat,
) -> Seq<Single>
    decreases n,
{
    if n == 0 {
        old
    } else {
        smoothed_bins(
            init,
            smoothed_bands(init, old, mags, bins, (n - 1) as nat),
            mags,
            bins[n - 1].0 as int,
            bins[n - 1].1 as int,
        )
    }
}

/// The bins of a band; none where they are out of order.
pub open spec fn band_part(m: Seq<Single>, bins: (usize, usize)) -> Seq<Single> {
    if bins.0 <= bins.1 {
        m.subrange(bins.0 as int, bins.1 as int)
    } else {
        Seq::empty()
    }
}

/// There is a gain for each bin of a band on both sides.
pub open spec fn gains_fit(bins: (usize, usize), gains: (Vec<Single>, Vec<Single>)) -> bool {
    &&& gains.0@.len() == bin_count(bins.0 as int, bins.1 as int)
    &&& gains.1@.len() == bin_count(bins.0 as int, bins.1 as int)
}

/// What a band gathers from its bins.
pub open spec fn band_totals(
    bins: (usize, usize),
    l_mags: Seq<Single>,
    r_mags: Seq<Single>,
    gains: (Vec<Single>, Vec<Single>),
) -> Totals {
    totals(l_mags, r_mags, gains.0@, gains.1@, bins.0 as int, gains.0@.len())
}

/// `n` frames end before or at the end of the data exactly up to `frame_count`.
pub proof fn lemma_frame_count(len: int, c: int, n: int)
    requires
        c > 0,
        len >= 0,
        n >= 0,
    ensures
        (n * c < len) == (n < frame_count(len, c)),
        frame_count(len, c) >= 0,
{
    let f = frame_count(len, c);
    vstd::arithmetic::div_mod::lemma_fundamental_div_mod(len + c - 1, c);
    let r = (len + c - 1) % c;
    assert(len <= f * c < len + c) by (nonlinear_arith)
        requires
            len + c - 1 == c * f + r,
            0 <= r < c,
    ;
    assert(n < f ==> n * c <= (f - 1) * c) by (nonlinear_arith)
        requires
            c > 0,
    ;
    assert((f - 1) * c == f * c - c) by (nonlinear_arith);
    assert(n >= f ==> n * c >= f * c) by (nonlinear_arith)
        requires
            c > 0,
    ;
    assert(f >= 0) by (nonlinear_arith)
        requires
            0 <= f * c,
            c > 0,
    ;
}

/// Pushing one more sample.
proof fn lemma_pushed_again(h: Seq<Single>, s: Seq<Single>, x: Single)
    ensures
        pushed(pushed(h, s), seq![x]) == pushed(h, s.push(x)),
{
    assert(pushed(pushed(h, s), seq![x]) =~= pushed(h, s.push(x)));
}

impl Analyzer {
    pub open spec fn wf(self) -> bool {
        &&& self.window@.len() == FFT_SIZE
        &&& self.samples_until_hop < FFT_SIZE
        &&& self.left.wf()
        &&& self.right.wf()
        &&& forall|b: int|
            0 <= b < BANDS ==> 1 <= (#[trigger] self.band_bins@[b]).0 && self.band_bins@[b].1
                < NUM_BINS
    }

    /// Nothing but the samples and the countdown differs.
    pub open spec fn same_but_samples(self, other: Analyzer) -> bool {
        &&& self.window == other.window
        &&& self.band_bins == other.band_bins
        &&& self.channels_in == other.channels_in
        &&& self.left.pcen_m == other.left.pcen_m
        &&& self.left.pcen_init == other.left.pcen_init
        &&& self.right.pcen_m == other.right.pcen_m
        &&& self.right.pcen_init == other.right.pcen_init
        &&& self.output == other.output
    }

    /// What `process` makes of the frames of `data` from `start` on: a spectrum is due
    /// when the countdown is over, and `next` says where to go on after it.
    pub open spec fn processed(
        self,
        data: Seq<Single>,
        start: int,
        next: Option<usize>,
        after: Analyzer,
    ) -> bool {
        let c = self.channels_in as int;
        let wait = self.samples_until_hop as int;
        let frames = frame_count(data.len() - start, c);
        let due = frames > wait;
        let n = (if due {
            wait + 1
        } else {
            frames
        }) as nat;
        &&& after.same_but_samples(self)
        &&& next is Some == due
        &&& due ==> next->0 == (if start + n * c < data.len() {
            start + n * c
        } else {
            data.len() as int
        })
        &&& due ==> in_frames(data.len() - next->0, c)
        &&& after.samples_until_hop == (if due {
            HOP_SIZE - 1
        } else {
            wait - frames
        })
        &&& after.left.history() == pushed(
            self.left.history(),
            channel_samples(data, start, c, n, 0),
        )
        &&& after.right.history() == pushed(
            self.right.history(),
            channel_samples(data, start, c, n, 1),
        )
    }

    /// Nothing but the smoothed magnitudes and the levels differs.
    pub open spec fn same_but_spectrum(self, other: Analyzer) -> bool {
        &&& self.window == other.window
        &&& self.band_bins == other.band_bins
        &&& self.channels_in == other.channels_in
        &&& self.samples_until_hop == other.samples_until_hop
        &&& self.left.history() == other.left.history()
        &&& self.right.history() == other.right.history()
    }

    /// What `smooth_bands` makes of the magnitudes of both spectra.
    pub open spec fn bands_smoothed(
        self,
        l_mags: Seq<Single>,
        r_mags: Seq<Single>,
        bands: Seq<(Vec<Single>, Vec<Single>)>,
        after: Analyzer,
    ) -> bool {
        let bins = self.band_bins@;
        let l_init = self.left.pcen_init;
        let r_init = self.right.pcen_init;
        let l = self.left.pcen_m@;
        let r = self.right.pcen_m@;
        &&& after.same_but_spectrum(self)
        &&& after.left.pcen_init == l_init
        &&& after.right.pcen_init == r_init
        &&& after.output == self.output
        &&& after.left.pcen_m@ == smoothed_bands(l_init, l, l_mags, bins, 4)
        &&& after.right.pcen_m@ == smoothed_bands(r_init, r, r_mags, bins, 4)
        &&& bands.len() == BANDS
        &&& forall|b: int|
            0 <= b < BANDS ==> {
                &&& (#[trigger] bands[b]).0@ == band_part(
                    smoothed_bands(l_init, l, l_mags, bins, (b + 1) as nat),
                    bins[b],
                )
                &&& bands[b].1@ == band_part(
                    smoothed_bands(r_init, r, r_mags, bins, (b + 1) as nat),
                    bins[b],
                )
            }
    }

    /// What `finish_hop` makes of the magnitudes of both spectra and the gains of the
    /// bands' bins.
    pub open spec fn hop_finished(
        self,
        l_mags: Seq<Single>,
        r_mags: Seq<Single>,
        gains: Seq<(Vec<Single>, Vec<Single>)>,
        after: Analyzer,
    ) -> bool {
        &&& after.same_but_spectrum(self)
        &&& after.left.pcen_init
        &&& after.right.pcen_init
        &&& after.left.pcen_m == self.left.pcen_m
        &&& after.right.pcen_m == self.right.pcen_m
        &&& forall|b: int|
            #![trigger after.output.energy@[b]]
            #![trigger after.output.direction@[b]]
            0 <= b < BANDS ==> {
                let t = band_totals(self.band_bins@[b], l_mags, r_mags, gains[b]);
                &&& after.output.energy@[b] == energy_of(t, gains[b].0@.len())
                &&& after.output.direction@[b] == direction_of(t)
                &&& self.band_bins@[b].0 > self.band_bins@[b].1 ==> after.output.energy@[b] == num(
                    0,
                ) && after.output.direction@[b] == num(0)
            }
    }

    /// After a hop, what is published of band `b` is the mean energy and the mean direction
    /// of the bins of that band.
    pub open spec fn publishes_means(
        self,
        l_mags: Seq<Single>,
        r_mags: Seq<Single>,
        gains: Seq<(Vec<Single>, Vec<Single>)>,
        after: Analyzer,
        b: int,
    ) -> bool {
        let lo = self.band_bins@[b].0 as int;
        let l = gains[b].0@;
        let r = gains[b].1@;
        &&& is_mean_energy(l_mags, r_mags, l, r, lo, l.len(), after.output.energy@[b])
        &&& is_mean_direction(l_mags, r_mags, l, r, lo, l.len(), after.output.direction@[b])
    }

    /// An analysis before its first frame: silence, and the bins of the sample rate.
    pub open spec fn is_new(self, sample_rate: Single, channels_in: usize) -> bool {
        &&& self.channels_in == channels_in
        &&& self.samples_until_hop == FFT_SIZE - 1
        &&& forall|b: int|
            0 <= b < BANDS ==> (#[trigger] self.band_bins@[b]).0 == bins_of(
                sample_rate,
                b as nat,
            ).0 && self.band_bins@[b].1 == bins_of(sample_rate, b as nat).1
        &&& self.left.history() == Seq::new(FFT_SIZE as nat, |i: int| num(0))
        &&& self.right.history() == Seq::new(FFT_SIZE as nat, |i: int| num(0))
        &&& self.left.pcen_m@ == Seq::new(NUM_BINS as nat, |k: int| num(0))
        &&& self.right.pcen_m@ == Seq::new(NUM_BINS as nat, |k: int| num(0))
        &&& !self.left.pcen_init
        &&& !self.right.pcen_init
        &&& self.output.energy@ == Seq::new(4, |b: int| num(0))
        &&& self.output.direction@ == Seq::new(4, |b: int| num(0))
    }

    pub fn new(sample_rate: Single, channels_in: usize, window: Vec<Single>) -> (a: Self)
        requires
            window@.len() == FFT_SIZE,
        ensures
            a.wf(),
            a.window == window,
            a.is_new(sample_rate, channels_in),
    {
        let bins: [(usize, usize); 4] = [
            band_bins(sample_rate, 0),
            band_bins(sample_rate, 1),
            band_bins(sample_rate, 2),
            band_bins(sample_rate, 3),
        ];
        Analyzer {
            window,
            band_bins: bins,
            channels_in,
            samples_until_hop: FFT_SIZE - 1,
            left: ChannelState::new(),
            right: ChannelState::new(),
            output: BandLevels::new(),
        }
    }

    /// Takes the frames of `data` from `start` on, up to and with the one at which a
    /// spectrum is due, and returns where to go on after it. Without a spectrum due,
    /// takes them all and returns nothing.
    pub fn process(&mut self, data: &Vec<Single>, start: usize) -> (next: Option<usize>)
        requires
            old(self).wf(),
            start <= data@.len(),
            in_frames(data@.len() - start, old(self).channels_in as int),
        ensures
            final(self).wf(),
            old(self).processed(data@, start as int, next, *final(self)),
    {
        let channels: usize = self.channels_in;
        let second: usize = if 1 < channels {
            1
        } else {
            0
        };
        let len: usize = data.len();
        let mut pos: usize = start;
        let ghost c = channels as int;
        let ghost wait = self.samples_until_hop as int;
        let ghost mut n: nat = 0;
        proof {
            assert(0 * c == 0);
            assert(self.left.history() =~= pushed(
                old(self).left.history(),
                channel_samples(data@, start as int, c, 0, 0),
            ));
            assert(self.right.history() =~= pushed(
                old(self).right.history(),
                channel_samples(data@, start as int, c, 0, 1),
            ));
        }
        while pos < len
            invariant
                self.wf(),
                self.same_but_samples(*old(self)),
                channels == self.channels_in,
                c == channels,
                channels > 0,
                second == (if 1 < channels {
                    1int
                } else {
                    0
                }),
                len == data@.len(),
                start <= pos <= len,
                in_frames(len - pos, c),
                wait == old(self).samples_until_hop,
                n <= wait,
                self.samples_until_hop == wait - n,
                pos < len ==> pos == start + n * c,
                pos == len ==> n * c >= len - start,
                n > 0 ==> (n - 1) * c < len - start,
                self.left.history() == pushed(
                    old(self).left.history(),
                    channel_samples(data@, start as int, c, n, 0),
                ),
                self.right.history() == pushed(
                    old(self).right.history(),
                    channel_samples(data@, start as int, c, n, 1),
                ),
            decreases len - pos,
        {
            proof {
                if len - pos < c {
                    vstd::arithmetic::div_mod::lemma_small_mod((len - pos) as nat, c as nat);
                }
                vstd::arithmetic::div_mod::lemma_mod_sub_multiples_vanish(len - pos, c);
                lemma_pushed_again(
                    old(self).left.history(),
                    channel_samples(data@, start as int, c, n, 0),
                    data@[pos as int],
                );
                lemma_pushed_again(
                    old(self).right.history(),
                    channel_samples(data@, start as int, c, n, 1),
                    data@[pos + second],
                );
                assert(channel_samples(data@, start as int, c, n, 0).push(data@[pos as int])
                    =~= channel_samples(data@, start as int, c, (n + 1) as nat, 0));
                assert(channel_samples(data@, start as int, c, n, 1).push(data@[pos + second])
                    =~= channel_samples(data@, start as int, c, (n + 1) as nat, 1));
                assert((n + 1) * c == n * c + c) by (nonlinear_arith);
                lemma_frame_count(len - start, c, n as int);
                lemma_frame_count(len - start, c, (n + 1) as int);
            }
            self.left.push(data[pos]);
            self.right.push(data[pos + second]);
            let next: usize = if len - pos <= channels {
                len
            } else {
                pos + channels
            };
            assert(in_frames(len - next, c)) by {
                if len - pos <= c {
                    assert(0int % c == 0) by {
                        vstd::arithmetic::div_mod::lemma_small_mod(0, c as nat);
                    }
                }
            }
            if self.samples_until_hop == 0 {
                self.samples_until_hop = HOP_SIZE - 1;
                return Some(next);
            }
            self.samples_until_hop = self.samples_until_hop - 1;
            pos = next;
            proof {
                n = n + 1;
            }
        }
        proof {
            lemma_frame_count(len - start, c, n as int);
            if n > 0 {
                lemma_frame_count(len - start, c, n - 1);
            }
        }
        None
    }

    /// What the spectrum of the left channel is taken of.
    pub fn windowed_left(&self) -> (input: Vec<Single>)
        requires
            self.wf(),
        ensures
            input@ == windowed_samples(self.left.history(), self.window@),
    {
        self.left.windowed(&self.window)
    }

    /// What the spectrum of the right channel is taken of.
    pub fn windowed_right(&self) -> (input: Vec<Single>)
        requires
            self.wf(),
        ensures
            input@ == windowed_samples(self.right.history(), self.window@),
    {
        self.right.windowed(&self.window)
    }

    /// Smooths the bins of one band.
    fn smooth_band(&mut self, b: usize, l_mags: &Vec<Single>, r_mags: &Vec<Single>) -> (band: (
        Vec<Single>,
        Vec<Single>,
    ))
        requires
            old(self).wf(),
            b < BANDS,
            l_mags@.len() == NUM_BINS,
            r_mags@.len() == NUM_BINS,
        ensures
            final(self).wf(),
            ({
                let lo = old(self).band_bins@[b as int].0 as int;
                let hi = old(self).band_bins@[b as int].1 as int;
                let l = smoothed_bins(
                    old(self).left.pcen_init,
                    old(self).left.pcen_m@,
                    l_mags@,
                    lo,
                    hi,
                );
                let r = smoothed_bins(
                    old(self).right.pcen_init,
                    old(self).right.pcen_m@,
                    r_mags@,
                    lo,
                    hi,
                );
                &&& final(self).left.pcen_m@ == l
                &&& final(self).right.pcen_m@ == r
                &&& lo <= hi ==> band.0@ == l.subrange(lo, hi) && band.1@ == r.subrange(lo, hi)
                &&& lo > hi ==> band.0@.len() == 0 && band.1@.len() == 0
            }),
            final(self).left.history() == old(self).left.history(),
            final(self).right.history() == old(self).right.history(),
            final(self).left.pcen_init == old(self).left.pcen_init,
            final(self).right.pcen_init == old(self).right.pcen_init,
            final(self).window == old(self).window,
            final(self).band_bins == old(self).band_bins,
            final(self).channels_in == old(self).channels_in,
            final(self).samples_until_hop == old(self).samples_until_hop,
            final(self).output == old(self).output,
    {
        let (lo, hi) = self.band_bins[b];
        assert(self.band_bins@[b as int] == (lo, hi));
        let l: Vec<Single> = self.left.smooth(l_mags, lo, hi);
        let r: Vec<Single> = self.right.smooth(r_mags, lo, hi);
        (l, r)
    }

    /// Publishes the energy and the direction of one band.
    fn finish_band(
        &mut self,
        b: usize,
        l_mags: &Vec<Single>,
        r_mags: &Vec<Single>,
        l_gains: &Vec<Single>,
        r_gains: &Vec<Single>,
    )
        requires
            old(self).wf(),
            b < BANDS,
            l_mags@.len() == NUM_BINS,
            r_mags@.len() == NUM_BINS,
            l_gains@.len() == bin_count(
                old(self).band_bins@[b as int].0 as int,
                old(self).band_bins@[b as int].1 as int,
            ),
            r_gains@.len() == l_gains@.len(),
        ensures
            final(self).wf(),
            ({
                let lo = old(self).band_bins@[b as int].0 as int;
                let n = l_gains@.len();
                let t = totals(l_mags@, r_mags@, l_gains@, r_gains@, lo, n);
                &&& final(self).output.energy@ == old(self).output.energy@.update(
                    b as int,
                    energy_of(t, n),
                )
                &&& final(self).output.direction@ == old(self).output.direction@.update(
                    b as int,
                    direction_of(t),
                )
            }),
            final(self).left == old(self).left,
            final(self).right == old(self).right,
            final(self).window == old(self).window,
            final(self).band_bins == old(self).band_bins,
            final(self).channels_in == old(self).channels_in,
            final(self).samples_until_hop == old(self).samples_until_hop,
    {
        let (lo, hi) = self.band_bins[b];
        assert(self.band_bins@[b as int] == (lo, hi));
        let (energy, direction) = band_level(l_mags, r_mags, l_gains, r_gains, lo, hi);
        self.output.store_energy(b, energy);
        self.output.store_direction(b, direction);
    }

    /// Smooths the bins of all bands in turn with the magnitudes of both spectra, and
    /// returns the smoothed magnitudes of each band, left and right. A bin that two
    /// bands share is smoothed twice.
    pub fn smooth_bands(&mut self, l_mags: &Vec<Single>, r_mags: &Vec<Single>) -> (bands: Vec<
        (Vec<Single>, Vec<Single>),
    >)
        requires
            old(self).wf(),
            l_mags@.len() == NUM_BINS,
            r_mags@.len() == NUM_BINS,
        ensures
            final(self).wf(),
            old(self).bands_smoothed(l_mags@, r_mags@, bands@, *final(self)),
    {
        let mut bands: Vec<(Vec<Single>, Vec<Single>)> = Vec::new();
        let ghost bins = self.band_bins@;
        let ghost l_init = self.left.pcen_init;
        let ghost r_init = self.right.pcen_init;
        let ghost l = self.left.pcen_m@;
        let ghost r = self.right.pcen_m@;
        let mut b: usize = 0;
        while b < BANDS
            invariant
                b <= BANDS,
                self.wf(),
                l_mags@.len() == NUM_BINS,
                r_mags@.len() == NUM_BINS,
                bins == self.band_bins@,
                l_init == self.left.pcen_init,
                r_init == self.right.pcen_init,
                self.left.history() == old(self).left.history(),
                self.right.history() == old(self).right.history(),
                self.left.pcen_init == old(self).left.pcen_init,
                self.right.pcen_init == old(self).right.pcen_init,
                self.window == old(self).window,
                self.band_bins == old(self).band_bins,
                self.channels_in == old(self).channels_in,
                self.samples_until_hop == old(self).samples_until_hop,
                self.output == old(self).output,
                self.left.pcen_m@ == smoothed_bands(l_init, l, l_mags@, bins, b as nat),
                self.right.pcen_m@ == smoothed_bands(r_init, r, r_mags@, bins, b as nat),
                bands@.len() == b,
                forall|c: int|
                    0 <= c < b ==> {
                        &&& (#[trigger] bands@[c]).0@ == band_part(
                            smoothed_bands(l_init, l, l_mags@, bins, (c + 1) as nat),
                            bins[c],
                        )
                        &&& bands@[c].1@ == band_part(
                            smoothed_bands(r_init, r, r_mags@, bins, (c + 1) as nat),
                            bins[c],
                        )
                    },
            decreases BANDS - b,
        {
            let band: (Vec<Single>, Vec<Single>) = self.smooth_band(b, l_mags, r_mags);
            bands.push(band);
            b = b + 1;
        }
        bands
    }

    /// Ends a hop: publishes the energy and the direction of each band, from the
    /// magnitudes of both spectra and the gains of the band's bins. From the next hop
    /// on, magnitudes are smoothed.
    pub fn finish_hop(
        &mut self,
        l_mags: &Vec<Single>,
        r_mags: &Vec<Single>,
        gains: &Vec<(Vec<Single>, Vec<Single>)>,
    )
        requires
            old(self).wf(),
            l_mags@.len() == NUM_BINS,
            r_mags@.len() == NUM_BINS,
            gains@.len() == BANDS,
            forall|b: int|
                0 <= b < BANDS ==> gains_fit(old(self).band_bins@[b], #[trigger] gains@[b]),
        ensures
            final(self).wf(),
            old(self).hop_finished(l_mags@, r_mags@, gains@, *final(self)),
            forall|b: int| 0 <= b < BANDS ==> #[trigger] old(self).publishes_means(
                l_mags@,
                r_mags@,
                gains@,
                *final(self),
                b,
            ),
    {
        let mut b: usize = 0;
        while b < BANDS
            invariant
                b <= BANDS,
                self.wf(),
                l_mags@.len() == NUM_BINS,
                r_mags@.len() == NUM_BINS,
                gains@.len() == BANDS,
                forall|c: int|
                    0 <= c < BANDS ==> gains_fit(old(self).band_bins@[c], #[trigger] gains@[c]),
                self.left == old(self).left,
                self.right == old(self).right,
                self.window == old(self).window,
                self.band_bins == old(self).band_bins,
                self.channels_in == old(self).channels_in,
                self.samples_until_hop == old(self).samples_until_hop,
                forall|c: int|
                    #![trigger self.output.energy@[c]]
                    #![trigger self.output.direction@[c]]
                    0 <= c < b ==> {
                        let t = band_totals(old(self).band_bins@[c], l_mags@, r_mags@, gains@[c]);
                        &&& self.output.energy@[c] == energy_of(t, gains@[c].0@.len())
                        &&& self.output.direction@[c] == direction_of(t)
                    },
            decreases BANDS - b,
        {
            assert(gains_fit(self.band_bins@[b as int], gains@[b as int]));
            self.finish_band(b, l_mags, r_mags, &gains[b].0, &gains[b].1);
            b = b + 1;
        }
        proof {
            assert forall|c: int|
                0 <= c < BANDS && self.band_bins@[c].0
                    > self.band_bins@[c].1 implies #[trigger] self.output.energy@[c] == num(0)
                && self.output.direction@[c] == num(0) by {
                assert(gains_fit(old(self).band_bins@[c], gains@[c]));
                law_band_without_bins_is_silent(
                    l_mags@,
                    r_mags@,
                    gains@[c].0@,
                    gains@[c].1@,
                    self.band_bins@[c].0 as int,
                );
            }
        }
        self.left.pcen_init = true;
        self.right.pcen_init = true;
        assert(self.left.history() =~= old(self).left.history());
        assert(self.right.history() =~= old(self).right.history());
        proof {
            assert forall|c: int| 0 <= c < BANDS implies #[trigger] old(self).publishes_means(
                l_mags@,
                r_mags@,
                gains@,
                *self,
                c,
            ) by {
                assert(self.output.energy@[c] == energy_of(
                    band_totals(old(self).band_bins@[c], l_mags@, r_mags@, gains@[c]),
                    gains@[c].0@.len(),
                ));
                law_level_is_the_mean(
                    l_mags@,
                    r_mags@,
                    gains@[c].0@,
                    gains@[c].1@,
                    self.band_bins@[c].0 as int,
                    gains@[c].0@.len(),
                );
            }
        }
    }
}

/// Whether a spectrum is taken at the `n`th frame, counted from 1: first when there are
/// enough samples, then at every hop.
pub open spec fn spectrum_at(n: int) -> bool {
    n >= FFT_SIZE && (n - FFT_SIZE) % (HOP_SIZE as int) == 0
}

/// What `samples_until_hop` is after `n` frames.
pub open spec fn wait_after(n: int) -> int {
    if n < FFT_SIZE {
        FFT_SIZE - 1 - n
    } else {
        HOP_SIZE - 1 - (n - FFT_SIZE) % (HOP_SIZE as int)
    }
}

/// However the frames are handed in, spectra are taken at the frames of
/// `spectrum_at` and at no others: a countdown that is right after `n` frames stays
/// right, and the next spectrum comes at the next such frame.
pub proof fn law_hop_schedule(n: int)
    requires
        n >= 0,
    ensures
        wait_after(0) == FFT_SIZE - 1,
        forall|k: int| n < k <= n + wait_after(n) ==> !#[trigger] spectrum_at(k),
        spectrum_at(n + wait_after(n) + 1),
        wait_after(n + wait_after(n) + 1) == HOP_SIZE - 1,
        forall|f: int|
            0 <= f <= wait_after(n) ==> #[trigger] wait_after(n + f) == wait_after(n) - f,
{
}

/// Samples that come in two batches leave what they would have left in one.
pub proof fn law_batches_join(h: Seq<Single>, s: Seq<Single>, t: Seq<Single>)
    ensures
        pushed(pushed(h, s), t) == pushed(h, s + t),
{
    assert(pushed(pushed(h, s), t) =~= pushed(h, s + t));
}

/// As soon as enough samples have come, what is kept of them is the latest, in order,
/// and nothing of what was there before.
pub proof fn law_latest_are_kept(h: Seq<Single>, s: Seq<Single>)
    requires
        s.len() >= h.len(),
    ensures
        pushed(h, s) == s.skip(s.len() - h.len()),
{
    assert(pushed(h, s) =~= s.skip(s.len() - h.len()));
}

/// A stream cut between two frames has the samples of both parts in turn.
pub proof fn law_stream_cut(
    first: Seq<Single>,
    second: Seq<Single>,
    c: int,
    n: nat,
    m: nat,
    channel: int,
)
    requires
        c > 0,
        0 <= channel,
        first.len() == n * c,
        m * c <= second.len(),
    ensures
        channel_samples(first + second, 0, c, n + m, channel) == channel_samples(
            first,
            0,
            c,
            n,
            channel,
        ) + channel_samples(second, 0, c, m, channel),
{
    let pick = if channel < c {
        channel
    } else {
        0
    };
    let whole = channel_samples(first + second, 0, c, n + m, channel);
    let parts = channel_samples(first, 0, c, n, channel) + channel_samples(
        second,
        0,
        c,
        m,
        channel,
    );
    assert forall|i: int| 0 <= i < n + m implies whole[i] == parts[i] by {
        if i < n {
            assert(0 <= i * c + pick < n * c) by (nonlinear_arith)
                requires
                    0 <= i,
                    i + 1 <= n,
                    0 <= pick < c,
            ;
        } else {
            assert(i * c + pick == n * c + ((i - n) * c + pick)) by (nonlinear_arith);
            assert(0 <= (i - n) * c + pick < m * c) by (nonlinear_arith)
                requires
                    0 <= i - n,
                    i - n + 1 <= m,
                    0 <= pick < c,
            ;
        }
    }
    assert(whole =~= parts);
}

/// A stream of one channel is heard alike on both sides.
pub proof fn law_one_channel_is_both(data: Seq<Single>, start: int, n: nat)
    ensures
        channel_samples(data, start, 1, n, 1) == channel_samples(data, start, 1, n, 0),
{
    assert(channel_samples(data, start, 1, n, 1) =~= channel_samples(data, start, 1, n, 0));
}

/// Of every frame the first two samples are heard, the first on the left and the second on
/// the right, however many channels there are.
pub proof fn law_two_samples_of_a_frame_are_heard(
    data: Seq<Single>,
    start: int,
    c: int,
    n: nat,
    i: int,
)
    requires
        2 <= c,
        0 <= i < n,
    ensures
        channel_samples(data, start, c, n, 0).len() == n,
        channel_samples(data, start, c, n, 1).len() == n,
        channel_samples(data, start, c, n, 0)[i] == data[start + i * c],
        channel_samples(data, start, c, n, 1)[i] == data[start + i * c + 1],
{
}

/// New samples come last, in order, and those before them move up.
pub proof fn law_older_samples_move_up(h: Seq<Single>, s: Seq<Single>, i: int)
    requires
        0 <= i < h.len(),
        s.len() <= h.len(),
    ensures
        pushed(h, s).len() == h.len(),
        i < h.len() - s.len() ==> pushed(h, s)[i] == h[i + s.len()],
        i >= h.len() - s.len() ==> pushed(h, s)[i] == s[i + s.len() - h.len()],
{
}

/// A bin that is in no band keeps its smoothed magnitude, and one that is in a single band
/// is smoothed once, by its own magnitude.
pub proof fn law_each_bin_is_smoothed_once(
    init: bool,
    old: Seq<Single>,
    mags: Seq<Single>,
    bins: Seq<(usize, usize)>,
    k: int,
    b: int,
)
    requires
        bins.len() == BANDS,
        0 <= k < old.len(),
        forall|j: int|
            0 <= j < BANDS && j != b ==> !((#[trigger] bins[j]).0 <= k < bins[j].1),
    ensures
        ({
            let after = smoothed_bands(init, old, mags, bins, BANDS as nat);
            let own = 0 <= b < BANDS && bins[b].0 <= k < bins[b].1;
            &&& after.len() == old.len()
            &&& after[k] == (if own {
                smoothed(init, old[k], mags[k])
            } else {
                old[k]
            })
        }),
{
    reveal_with_fuel(smoothed_bands, 5);
    assert(!(b != 0) || !(bins[0].0 <= k < bins[0].1));
    assert(!(b != 1) || !(bins[1].0 <= k < bins[1].1));
    assert(!(b != 2) || !(bins[2].0 <= k < bins[2].1));
    assert(!(b != 3) || !(bins[3].0 <= k < bins[3].1));
}

/// What is handed out of a band are the smoothed magnitudes of its own bins, from the first
/// to the last, and nothing where it has none.
pub proof fn law_band_has_its_own_bins(m: Seq<Single>, bins: (usize, usize), i: int)
    requires
        bins.1 <= m.len(),
    ensures
        bins.0 > bins.1 ==> band_part(m, bins).len() == 0,
        bins.0 <= bins.1 ==> band_part(m, bins).len() == bins.1 - bins.0,
        0 <= i < bins.1 - bins.0 ==> band_part(m, bins)[i] == m[bins.0 + i],
{
}

} // verus!
