//! What the analysis hands to the display: one energy and one direction per band.
use crate::number::single::{num, Single};
use vstd::prelude::*;

verus! {

/// Number of frequency bands.
pub const BANDS: usize = 4;

/// Energy and direction of each band. A direction is -1 for left, 1 for right.
#[derive(Clone, Copy, Debug)]
pub struct BandLevels {
    pub energy: [Single; 4],
    pub direction: [Single; 4],
}

impl BandLevels {
    /// Silence: every energy and direction is 0.
    pub fn new() -> (levels: Self)
        ensures
            levels.energy@ == Seq::new(4, |b: int| num(0)),
            levels.direction@ == Seq::new(4, |b: int| num(0)),
    {
        let zeros: [Single; 4] = [num(0); 4];
        assert(zeros@ =~= Seq::new(4, |b: int| num(0)));
        BandLevels { energy: zeros, direction: zeros }
    }

    pub fn store_energy(&mut self, b: usize, v: Single)
        requires
            b < BANDS,
        ensures
            final(self).energy@ == old(self).energy@.update(b as int, v),
            final(self).direction == old(self).direction,
    {
        self.energy[b] = v;
    }

    pub fn store_direction(&mut self, b: usize, v: Single)
        requires
            b < BANDS,
        ensures
            final(self).direction@ == old(self).direction@.update(b as int, v),
            final(self).energy == old(self).energy,
    {
        self.direction[b] = v;
    }

    pub fn load_energy(&self, b: usize) -> (v: Single)
        requires
            b < BANDS,
        ensures
            v == self.energy@[b as int],
    {
        self.energy[b]
    }

    pub fn load_direction(&self, b: usize) -> (v: Single)
        requires
            b < BANDS,
        ensures
            v == self.direction@[b as int],
    {
        self.direction[b]
    }
}

} // verus!
