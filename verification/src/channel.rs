//! One audio channel: its latest samples and its smoothed spectrum.
use crate::number::constants::ONE;
use crate::number::single::{difference, num, product, sum, Single};
use vstd::prelude::*;

verus! {

/// Samples in one spectrum.
pub const FFT_SIZE: usize = 1024;

/// Frequency bins in one spectrum.
pub const NUM_BINS: usize = 513;

/// 0.025, the share of a new magnitude in the smoothed one.
pub const PCEN_S: u32 = 0x3ccc_cccd;

/// The samples of a channel in a ring, and per bin a smoothed magnitude.
pub struct ChannelState {
    pub ring: Vec<Single>,
    pub write_pos: usize,
    pub pcen_m: Vec<Single>,
    pub pcen_init: bool,
}

/// The last samples of `h` followed by `s`, as many as `h` holds.
pub open spec fn pushed(h: Seq<Single>, s: Seq<Single>) -> Seq<Single> {
    (h + s).skip(s.len() as int)
}

/// Samples multiplied by a window.
pub open spec fn windowed_samples(h: Seq<Single>, window: Seq<Single>) -> Seq<Single> {
    Seq::new(FFT_SIZE as nat, |i: int| product(h[i], window[i]))
}

/// The smoothed magnitude of a bin after the new magnitude `mag`: the first one is
/// taken as it is.
pub open spec fn smoothed(init: bool, old: Single, mag: Single) -> Single {
    if init {
        sum(
            product(difference(num(ONE), num(PCEN_S)), old),
            product(num(PCEN_S), mag),
        )
    } else {
        mag
    }
}

/// The smoothed magnitudes after the bins from `lo` up to `hi` have been smoothed.
pub open spec fn smoothed_bins(
    init: bool,
    old: Seq<Single>,
    mags: Seq<Single>,
    lo: int,
    hi: int,
) -> Seq<Single> {
    Seq::new(
        old.len(),
        |k: int|
            if lo <= k < hi {
                smoothed(init, old[k], mags[k])
            } else {
                old[k]
            },
    )
}

impl ChannelState {
    pub open spec fn wf(self) -> bool {
        &&& self.ring@.len() == FFT_SIZE
        &&& self.write_pos < FFT_SIZE
        &&& self.pcen_m@.len() == NUM_BINS
    }

    /// The latest samples, the oldest first.
    pub open spec fn history(self) -> Seq<Single> {
        Seq::new(
            FFT_SIZE as nat,
            |i: int| self.ring@[(self.write_pos as int + i) % (FFT_SIZE as int)],
        )
    }

    /// Silence.
    pub fn new() -> (c: Self)
        ensures
            c.wf(),
            c.history() == Seq::new(FFT_SIZE as nat, |i: int| num(0)),
            c.pcen_m@ == Seq::new(NUM_BINS as nat, |k: int| num(0)),
            !c.pcen_init,
    {
        let c: ChannelState = ChannelState {
            ring: vec![num(0); FFT_SIZE],
            write_pos: 0,
            pcen_m: vec![num(0); NUM_BINS],
            pcen_init: false,
        };
        assert(c.history() =~= Seq::new(FFT_SIZE as nat, |i: int| num(0)));
        assert(c.pcen_m@ =~= Seq::new(NUM_BINS as nat, |k: int| num(0)));
        c
    }

    /// Takes one sample in place of the oldest.
    pub fn push(&mut self, s: Single)
        requires
            old(self).wf(),
        ensures
            final(self).wf(),
            final(self).history() == pushed(old(self).history(), seq![s]),
            final(self).pcen_m == old(self).pcen_m,
            final(self).pcen_init == old(self).pcen_init,
    {
        let pos: usize = self.write_pos;
        self.ring.set(pos, s);
        self.write_pos = (pos + 1) % FFT_SIZE;
        assert(self.history() =~= pushed(old(self).history(), seq![s]));
    }

    /// The latest samples, the oldest first, each multiplied by the window.
    pub fn windowed(&self, window: &Vec<Single>) -> (input: Vec<Single>)
        requires
            self.wf(),
            window@.len() == FFT_SIZE,
        ensures
            input@ == windowed_samples(self.history(), window@),
    {
        let mut input: Vec<Single> = Vec::new();
        let mut i: usize = 0;
        while i < FFT_SIZE
            invariant
                i <= FFT_SIZE,
                self.wf(),
                window@.len() == FFT_SIZE,
                input@.len() == i,
                forall|j: int|
                    0 <= j < i ==> input@[j] == product(#[trigger] self.history()[j], window@[j]),
            decreases FFT_SIZE - i,
        {
            let idx: usize = (self.write_pos + i) % FFT_SIZE;
            assert(self.history()[i as int] == self.ring@[idx as int]);
            input.push(self.ring[idx].times(window[i]));
            i = i + 1;
        }
        assert(input@ =~= windowed_samples(self.history(), window@));
        input
    }

    /// Smooths the bins from `lo` up to `hi` and returns their smoothed magnitudes.
    pub fn smooth(&mut self, mags: &Vec<Single>, lo: usize, hi: usize) -> (band: Vec<Single>)
        requires
            old(self).wf(),
            mags@.len() == NUM_BINS,
            hi <= NUM_BINS,
        ensures
            final(self).wf(),
            final(self).pcen_m@ == smoothed_bins(
                old(self).pcen_init,
                old(self).pcen_m@,
                mags@,
                lo as int,
                hi as int,
            ),
            final(self).history() == old(self).history(),
            final(self).pcen_init == old(self).pcen_init,
            lo <= hi ==> band@ == final(self).pcen_m@.subrange(lo as int, hi as int),
            lo > hi ==> band@.len() == 0,
    {
        let ghost before = self.pcen_m@;
        let mut band: Vec<Single> = Vec::new();
        let init: bool = self.pcen_init;
        let rest: Single = num(ONE).minus(num(PCEN_S));
        let mut k: usize = lo;
        while k < hi
            invariant
                lo <= k,
                lo <= hi ==> k <= hi,
                lo > hi ==> k == lo,
                hi <= NUM_BINS,
                mags@.len() == NUM_BINS,
                self.wf(),
                before.len() == NUM_BINS,
                init == self.pcen_init,
                init == old(self).pcen_init,
                rest == difference(num(ONE), num(PCEN_S)),
                self.ring == old(self).ring,
                self.write_pos == old(self).write_pos,
                self.pcen_m@ == smoothed_bins(init, before, mags@, lo as int, k as int),
                band@.len() == k - lo,
                forall|j: int| 0 <= j < k - lo ==> #[trigger] band@[j] == self.pcen_m@[lo + j],
            decreases hi - k,
        {
            let mag: Single = mags[k];
            let m: Single = if init {
                rest.times(self.pcen_m[k]).plus(num(PCEN_S).times(mag))
            } else {
                mag
            };
            self.pcen_m.set(k, m);
            band.push(m);
            assert(self.pcen_m@ =~= smoothed_bins(init, before, mags@, lo as int, k + 1));
            k = k + 1;
        }
        proof {
            assert(self.history() =~= old(self).history());
            assert(self.pcen_m@ =~= smoothed_bins(init, before, mags@, lo as int, hi as int));
            if lo <= hi {
                assert(band@ =~= self.pcen_m@.subrange(lo as int, hi as int));
            }
        }
        band
    }
}

} // verus!
