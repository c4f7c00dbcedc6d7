//! The four frequency bands: which bins they take, and what the bins of a band
//! amount to.
use crate::balance::{is_mean_direction, law_level_is_the_mean};
use crate::channel::NUM_BINS;
use crate::levels::BANDS;
use crate::mean::is_mean_energy;
use crate::number::constants::{HALF, MINUS_ONE, ONE};
use crate::number::laws::{
    law_exact_quotient, law_quotient_monotone, law_short_numbers_are_exact, lemma_one,
};
use crate::number::order::{
    law_order_is_that_of_values, lemma_nearest_exact, lemma_nearest_monotone, lemma_units_order,
    lemma_zero_units,
};
use crate::number::pack::lemma_pow2_le;
use crate::number::rounding::{lemma_pow2_24, EXPONENT_STEP, INFINITY_BITS};
use crate::number::single::{
    at_most, difference, less, limited, num, of_whole, product, quotient, raised, sum, truncated,
    units, Single, UNIT_SHIFT,
};
use vstd::arithmetic::power2::{lemma_pow2_adds, lemma_pow2_pos, pow2};
use vstd::prelude::*;

verus! {

/// 1024, the samples in one spectrum.
pub const SPECTRUM: u32 = 0x4480_0000;

/// 20, in hertz.
pub const HZ_20: u32 = 0x41a0_0000;

/// 200, in hertz.
pub const HZ_200: u32 = 0x4348_0000;

/// 2000, in hertz.
pub const HZ_2000: u32 = 0x44fa_0000;

/// 5000, in hertz.
pub const HZ_5000: u32 = 0x459c_4000;

/// 10000, in hertz.
pub const HZ_10000: u32 = 0x461c_4000;

/// 512, the bins of one spectrum but for the highest.
pub const HALF_SPECTRUM: u32 = 0x4400_0000;

/// 9.765625, the width of a bin in hertz at a sample rate of 10 kHz.
pub const LEAST_BIN: u32 = 0x411c_4000;

/// 0.000000001, below which a magnitude or a weight counts as nothing.
pub const TINY: u32 = 0x3089_705f;

/// The lowest and the highest frequency of a band, in hertz.
pub open spec fn band_hz(b: nat) -> (Single, Single) {
    if b == 0 {
        (num(HZ_20), num(HZ_200))
    } else if b == 1 {
        (num(HZ_200), num(HZ_2000))
    } else if b == 2 {
        (num(HZ_2000), num(HZ_5000))
    } else {
        (num(HZ_5000), num(HZ_10000))
    }
}

/// The first bin of a band and the bin after its last, at a sample rate. The
/// lowest bin belongs to no band, nor does the highest.
pub open spec fn bins_of(sample_rate: Single, b: nat) -> (nat, nat) {
    let bin_hz = quotient(sample_rate, num(SPECTRUM));
    let lo = truncated(quotient(band_hz(b).0, bin_hz), usize::MAX as nat);
    let hi = raised(quotient(band_hz(b).1, bin_hz), usize::MAX as nat);
    (
        if lo < 1 {
            1
        } else {
            lo
        },
        if hi > NUM_BINS - 1 {
            (NUM_BINS - 1) as nat
        } else {
            hi
        },
    )
}

/// The frequencies of a band, computed.
fn hz_of_band(b: usize) -> (r: (Single, Single))
    ensures
        r == band_hz(b as nat),
{
    match b {
        0 => (num(HZ_20), num(HZ_200)),
        1 => (num(HZ_200), num(HZ_2000)),
        2 => (num(HZ_2000), num(HZ_5000)),
        _ => (num(HZ_5000), num(HZ_10000)),
    }
}

/// The bins of one band.
pub fn band_bins(sample_rate: Single, b: usize) -> (bins: (usize, usize))
    ensures
        bins.0 == bins_of(sample_rate, b as nat).0,
        bins.1 == bins_of(sample_rate, b as nat).1,
        1 <= bins.0,
        bins.1 < NUM_BINS,
{
    let bin_hz: Single = sample_rate.over(num(SPECTRUM));
    let (low, high) = hz_of_band(b);
    let lo: usize = low.over(bin_hz).to_usize();
    let hi: usize = high.over(bin_hz).ceil_to_usize();
    (
        if lo < 1 {
            1
        } else {
            lo
        },
        if hi > NUM_BINS - 1 {
            NUM_BINS - 1
        } else {
            hi
        },
    )
}

/// What a band has gathered from its bins: the energies, the directions weighted by
/// energy, and the weights.
pub struct Totals {
    pub energy: Single,
    pub direction: Single,
    pub weight: Single,
}

/// One more bin. Its energy is the mean of both channels' gains; its direction is
/// left out where the bin is silent.
pub open spec fn with_bin(t: Totals, l_mag: Single, r_mag: Single, l_gain: Single, r_gain: Single)
    -> Totals {
    let energy = product(sum(l_gain, r_gain), num(HALF));
    let mag = sum(l_mag, r_mag);
    if less(num(TINY), mag) {
        Totals {
            energy: sum(t.energy, energy),
            direction: sum(
                t.direction,
                product(quotient(difference(r_mag, l_mag), mag), energy),
            ),
            weight: sum(t.weight, energy),
        }
    } else {
        Totals { energy: sum(t.energy, energy), ..t }
    }
}

/// The first `n` bins of a band that starts at bin `lo`. Magnitudes are counted from
/// the first bin of the spectrum, gains from the first bin of the band.
pub open spec fn totals(
    l_mags: Seq<Single>,
    r_mags: Seq<Single>,
    l_gains: Seq<Single>,
    r_gains: Seq<Single>,
    lo: int,
    n: nat,
) -> Totals
    decreases n,
{
    if n == 0 {
        Totals { energy: num(0), direction: num(0), weight: num(0) }
    } else {
        with_bin(
            totals(l_mags, r_mags, l_gains, r_gains, lo, (n - 1) as nat),
            l_mags[lo + n - 1],
            r_mags[lo + n - 1],
            l_gains[n - 1],
            r_gains[n - 1],
        )
    }
}

/// Energy of a band of `n` bins: the mean over the bins.
pub open spec fn energy_of(t: Totals, n: nat) -> Single {
    quotient(
        t.energy,
        of_whole(
            if n < 1 {
                1
            } else {
                n
            },
        ),
    )
}

/// Direction of a band: the weighted mean, 0 where nothing has weight.
pub open spec fn direction_of(t: Totals) -> Single {
    if less(num(TINY), t.weight) {
        limited(quotient(t.direction, t.weight), num(MINUS_ONE), num(ONE))
    } else {
        num(0)
    }
}

/// `with_bin`, computed.
fn add_bin(t: Totals, l_mag: Single, r_mag: Single, l_gain: Single, r_gain: Single) -> (r: Totals)
    ensures
        r == with_bin(t, l_mag, r_mag, l_gain, r_gain),
{
    let energy: Single = l_gain.plus(r_gain).times(num(HALF));
    let mag: Single = l_mag.plus(r_mag);
    if num(TINY).lt(mag) {
        Totals {
            energy: t.energy.plus(energy),
            direction: t.direction.plus(r_mag.minus(l_mag).over(mag).times(energy)),
            weight: t.weight.plus(energy),
        }
    } else {
        Totals { energy: t.energy.plus(energy), direction: t.direction, weight: t.weight }
    }
}

/// How many bins there are from `lo` up to `hi`: none where `lo` is past `hi`.
pub open spec fn bin_count(lo: int, hi: int) -> nat {
    if lo <= hi {
        (hi - lo) as nat
    } else {
        0
    }
}

/// Energy and direction of the band from bin `lo` up to bin `hi`.
pub fn band_level(
    l_mags: &Vec<Single>,
    r_mags: &Vec<Single>,
    l_gains: &Vec<Single>,
    r_gains: &Vec<Single>,
    lo: usize,
    hi: usize,
) -> (level: (Single, Single))
    requires
        hi <= NUM_BINS,
        l_mags@.len() == NUM_BINS,
        r_mags@.len() == NUM_BINS,
        l_gains@.len() == bin_count(lo as int, hi as int),
        r_gains@.len() == bin_count(lo as int, hi as int),
    ensures
        ({
            let n = bin_count(lo as int, hi as int);
            let t = totals(l_mags@, r_mags@, l_gains@, r_gains@, lo as int, n);
            &&& level.0 == energy_of(t, n)
            &&& level.1 == direction_of(t)
            &&& is_mean_energy(l_mags@, r_mags@, l_gains@, r_gains@, lo as int, n, level.0)
            &&& is_mean_direction(l_mags@, r_mags@, l_gains@, r_gains@, lo as int, n, level.1)
        }),
{
    proof {
        law_level_is_the_mean(
            l_mags@,
            r_mags@,
            l_gains@,
            r_gains@,
            lo as int,
            bin_count(lo as int, hi as int),
        );
    }
    let n: usize = if lo <= hi {
        hi - lo
    } else {
        0
    };
    let mut t: Totals = Totals { energy: num(0), direction: num(0), weight: num(0) };
    let mut i: usize = 0;
    while i < n
        invariant
            i <= n,
            n == bin_count(lo as int, hi as int),
            hi <= NUM_BINS,
            l_mags@.len() == NUM_BINS,
            r_mags@.len() == NUM_BINS,
            l_gains@.len() == n,
            r_gains@.len() == n,
            t == totals(l_mags@, r_mags@, l_gains@, r_gains@, lo as int, i as nat),
        decreases n - i,
    {
        t = add_bin(t, l_mags[lo + i], r_mags[lo + i], l_gains[i], r_gains[i]);
        i = i + 1;
    }
    let count: u32 = if n < 1 {
        1
    } else {
        n as u32
    };
    let direction: Single = if num(TINY).lt(t.weight) {
        t.direction.over(t.weight).clamp(num(MINUS_ONE), num(ONE))
    } else {
        num(0)
    };
    (t.energy.over(Single::from_u32(count)), direction)
}

/// A band without bins, such as one past the end of the spectrum, is silent.
pub proof fn law_band_without_bins_is_silent(
    l_mags: Seq<Single>,
    r_mags: Seq<Single>,
    l_gains: Seq<Single>,
    r_gains: Seq<Single>,
    lo: int,
)
    ensures
        energy_of(totals(l_mags, r_mags, l_gains, r_gains, lo, 0), 0) == num(0),
        direction_of(totals(l_mags, r_mags, l_gains, r_gains, lo, 0)) == num(0),
{
    let one = pow2(UNIT_SHIFT as nat);
    lemma_pow2_pos(UNIT_SHIFT as nat);
    lemma_zero_units();
    lemma_one();
    law_short_numbers_are_exact(1, UNIT_SHIFT as nat);
    assert(of_whole(1).is_finite() && !of_whole(1).negative() && of_whole(1).size() == one) by {
        reveal(of_whole);
    }
    law_exact_quotient(num(0), of_whole(1), num(0));
}

/// The whole numbers round a quotient of frequencies.
proof fn lemma_bin_edges(q: Single)
    requires
        q.is_finite(),
        !q.negative(),
        truncated(q, usize::MAX as nat) < NUM_BINS,
    ensures
        ({
            let lo = truncated(q, usize::MAX as nat);
            let hi = raised(q, usize::MAX as nat);
            lo <= hi <= lo + 1
        }),
{
    let one = pow2(UNIT_SHIFT as nat);
    lemma_pow2_pos(UNIT_SHIFT as nat);
    let n = q.size();
    let lo = n / one;
    vstd::arithmetic::div_mod::lemma_fundamental_div_mod(n as int, one as int);
    let up = (n + one - 1) as nat;
    let hi = up / one;
    vstd::arithmetic::div_mod::lemma_fundamental_div_mod(up as int, one as int);
    assert(lo <= hi <= lo + 1) by (nonlinear_arith)
        requires
            n == one * lo + n % one,
            n + one - 1 == one * hi + up % one,
            0 <= n % one < one,
            0 <= up % one < one,
            one > 0,
    ;
    reveal(truncated);
    reveal(raised);
}

/// Sizes of the frequencies that bound the bands.
proof fn lemma_frequency_units()
    ensures
        num(HALF_SPECTRUM).size() == 512 * pow2(UNIT_SHIFT as nat),
        num(HZ_10000).size() * pow2(UNIT_SHIFT as nat) == num(LEAST_BIN).size() * num(
            SPECTRUM,
        ).size(),
        num(HZ_5000).size() * pow2(UNIT_SHIFT as nat) == num(HALF_SPECTRUM).size() * num(
            LEAST_BIN,
        ).size(),
        num(SPECTRUM).size() == 1024 * pow2(UNIT_SHIFT as nat),
        num(LEAST_BIN).size() > 0,
{
    let one = pow2(UNIT_SHIFT as nat);
    reveal(units);
    lemma_pow2_24();
    vstd::arithmetic::power2::lemma2_to64();
    lemma_pow2_pos(129);
    let p = pow2(129);
    lemma_pow2_adds(20, 129);
    lemma_pow2_adds(9, 129);
    lemma_pow2_adds(10, 129);
    lemma_pow2_adds(6, 129);
    lemma_pow2_adds(7, 129);
    assert(one == 0x10_0000 * p);
    assert(num(LEAST_BIN).size() == 0x9c_4000 * p);
    assert(num(HZ_10000).size() == 0x9c_4000 * pow2(139));
    assert(num(HZ_5000).size() == 0x9c_4000 * pow2(138));
    assert(num(HALF_SPECTRUM).size() == 0x80_0000 * pow2(135));
    assert(num(SPECTRUM).size() == 0x80_0000 * pow2(136));
    assert((0x9c_4000 * (0x400 * p)) * (0x10_0000 * p) == (0x9c_4000 * p) * (0x80_0000 * (0x80
        * p))) by (nonlinear_arith);
    assert((0x9c_4000 * (0x200 * p)) * (0x10_0000 * p) == (0x80_0000 * (0x40 * p)) * (0x9c_4000
        * p)) by (nonlinear_arith);
}

/// The bin at which a frequency of at least 1 Hz lies is no zero.
proof fn lemma_edge_positive(hz: Single, bin: Single)
    requires
        hz.is_finite(),
        !hz.negative(),
        hz.size() >= pow2(UNIT_SHIFT as nat),
        bin.is_finite(),
        !bin.negative(),
        bin.size() > 0,
    ensures
        !quotient(hz, bin).is_nan(),
        !quotient(hz, bin).negative(),
        quotient(hz, bin).magnitude() > 0,
{
    let one = pow2(UNIT_SHIFT as nat);
    lemma_pow2_pos(UNIT_SHIFT as nat);
    lemma_zero_units();
    lemma_largest_units(bin.magnitude());
    lemma_pow2_adds(149, 149);
    lemma_pow2_le(277, 298);
    let n = hz.size() * one;
    assert(one * one <= n) by (nonlinear_arith)
        requires
            n == hz.size() * one,
            hz.size() >= one,
    ;
    assert(units(1) == 1) by {
        reveal(units);
    }
    lemma_nearest_exact(1);
    assert(1 * bin.size() <= n * 1);
    lemma_nearest_monotone(1, 1, n, bin.size());
    reveal(quotient);
}

/// A finite number is below 2^277 units.
pub proof fn lemma_largest_units(mag: u32)
    requires
        mag < INFINITY_BITS,
    ensures
        units(mag) < pow2(277),
{
    reveal(units);
    lemma_pow2_24();
    let step = EXPONENT_STEP as nat;
    if mag < EXPONENT_STEP {
        lemma_pow2_le(23, 277);
    } else {
        let e = (mag as nat / step - 1) as nat;
        lemma_pow2_le(e, 253);
        lemma_pow2_pos(e);
        lemma_pow2_adds(24, 253);
        let m = mag as nat % step + step;
        assert(m * pow2(e) < 0x100_0000 * pow2(253)) by (nonlinear_arith)
            requires
                m < 0x100_0000,
                pow2(e) <= pow2(253),
                pow2(e) > 0,
        ;
    }
}

/// A larger number has no smaller whole numbers round it.
proof fn lemma_edges_in_order(lo: Single, hi: Single)
    requires
        !lo.negative(),
        !hi.negative(),
        hi.magnitude() > 0,
        at_most(lo, hi),
    ensures
        truncated(lo, usize::MAX as nat) <= truncated(hi, usize::MAX as nat),
        truncated(lo, usize::MAX as nat) <= raised(hi, usize::MAX as nat),
        1 <= raised(hi, usize::MAX as nat),
{
    let one = pow2(UNIT_SHIFT as nat);
    lemma_pow2_pos(UNIT_SHIFT as nat);
    lemma_zero_units();
    reveal(truncated);
    reveal(raised);
    if hi.is_finite() {
        law_order_is_that_of_values(lo, hi);
        law_order_is_that_of_values(num(0), hi);
        let n = lo.size();
        let down = n / one;
        vstd::arithmetic::div_mod::lemma_fundamental_div_mod(n as int, one as int);
        vstd::arithmetic::div_mod::lemma_div_is_ordered(n as int, hi.size() as int, one as int);
        let m = (hi.size() + one - 1) as nat;
        let up = m / one;
        vstd::arithmetic::div_mod::lemma_fundamental_div_mod(m as int, one as int);
        assert(down <= up && 1 <= up) by (nonlinear_arith)
            requires
                n == one * down + n % one,
                m == one * up + m % one,
                n + one - 1 <= m,
                one <= m,
                0 <= n % one,
                m % one < one,
                one > 0,
        ;
    }
}

/// The bin at which a frequency lies, from the lowest frequency to the highest.
proof fn lemma_frequency_order(low: Single, high: Single, bin: Single)
    requires
        low.is_finite(),
        high.is_finite(),
        !low.negative(),
        !high.negative(),
        pow2(UNIT_SHIFT as nat) <= low.size() <= high.size(),
        bin.is_finite(),
        !bin.negative(),
        bin.size() > 0,
    ensures
        truncated(quotient(low, bin), usize::MAX as nat) <= truncated(
            quotient(high, bin),
            usize::MAX as nat,
        ),
        truncated(quotient(low, bin), usize::MAX as nat) <= raised(
            quotient(high, bin),
            usize::MAX as nat,
        ),
        1 <= raised(quotient(high, bin), usize::MAX as nat),
{
    lemma_edge_positive(low, bin);
    lemma_edge_positive(high, bin);
    law_quotient_monotone(low, bin, high, bin);
    lemma_edges_in_order(quotient(low, bin), quotient(high, bin));
}

/// Where the highest band starts within the spectrum, every band has its bins in order,
/// and neighbouring bands leave no bin out between them and share one at most.
pub proof fn law_bands_meet(sample_rate: Single, b: nat)
    requires
        b < BANDS,
        sample_rate.is_finite(),
        less(num(0), sample_rate),
        bins_of(sample_rate, (BANDS - 1) as nat).0 < NUM_BINS,
    ensures
        bins_of(sample_rate, b).0 <= bins_of(sample_rate, b).1,
        b + 1 < BANDS ==> bins_of(sample_rate, b + 1).0 <= bins_of(sample_rate, b).1,
        b + 1 < BANDS ==> bins_of(sample_rate, b).1 <= bins_of(sample_rate, b + 1).0 + 1,
{
    let bin = quotient(sample_rate, num(SPECTRUM));
    let low = band_hz(b).0;
    let high = band_hz(b).1;
    lemma_bin_width(sample_rate);
    lemma_band_sizes(b);
    // no frequency below 5 kHz is past the spectrum
    lemma_frequency_order(low, num(HZ_5000), bin);
    lemma_frequency_order(low, high, bin);
    if b + 1 < BANDS {
        lemma_frequency_order(high, num(HZ_5000), bin);
        let q = quotient(high, bin);
        lemma_edge_positive(high, bin);
        assert(q.is_finite()) by {
            reveal(truncated);
        }
        lemma_bin_edges(q);
    }
}

/// A positive sample rate has bins of a positive width, unless they are so narrow that
/// the highest band is past the spectrum.
proof fn lemma_bin_width(sample_rate: Single)
    requires
        sample_rate.is_finite(),
        less(num(0), sample_rate),
        bins_of(sample_rate, (BANDS - 1) as nat).0 < NUM_BINS,
    ensures
        ({
            let bin = quotient(sample_rate, num(SPECTRUM));
            bin.is_finite() && !bin.negative() && bin.size() > 0
        }),
{
    let bin = quotient(sample_rate, num(SPECTRUM));
    lemma_zero_units();
    lemma_frequency_units();
    lemma_one();
    lemma_pow2_pos(UNIT_SHIFT as nat);
    law_order_is_that_of_values(num(0), sample_rate);
    law_exact_quotient(sample_rate, num(ONE), sample_rate);
    law_quotient_monotone(sample_rate, num(SPECTRUM), sample_rate, num(ONE));
    assert(!bin.negative()) by {
        reveal(quotient);
    }
    assert(bin.is_finite());
    if bin.is_zero() {
        assert(quotient(num(HZ_5000), bin).is_infinite() && !quotient(
            num(HZ_5000),
            bin,
        ).negative()) by {
            reveal(quotient);
        }
        assert(false) by {
            reveal(truncated);
        }
    }
    lemma_units_order(0, bin.magnitude());
}

/// The frequencies of a band are at least 1 Hz, and in order.
proof fn lemma_band_sizes(b: nat)
    requires
        b < BANDS,
    ensures
        ({
            let (low, high) = band_hz(b);
            &&& low.is_finite() && high.is_finite()
            &&& !low.negative() && !high.negative()
            &&& pow2(UNIT_SHIFT as nat) <= low.size() <= high.size()
            &&& low.size() <= num(HZ_5000).size()
            &&& b + 1 < BANDS ==> high.size() <= num(HZ_5000).size()
        }),
{
    let (low, high) = band_hz(b);
    lemma_one();
    law_order_is_that_of_values(num(ONE), low);
    law_order_is_that_of_values(low, high);
    law_order_is_that_of_values(low, num(HZ_5000));
    law_order_is_that_of_values(high, num(HZ_5000));
}

/// From 10 kHz on, the highest band starts within the spectrum.
pub proof fn law_ten_kilohertz_suffice(sample_rate: Single)
    requires
        sample_rate.is_finite(),
        at_most(num(HZ_10000), sample_rate),
    ensures
        bins_of(sample_rate, (BANDS - 1) as nat).0 < NUM_BINS,
{
    let one = pow2(UNIT_SHIFT as nat);
    let bin = quotient(sample_rate, num(SPECTRUM));
    lemma_pow2_pos(UNIT_SHIFT as nat);
    lemma_zero_units();
    lemma_frequency_units();
    lemma_one();
    law_order_is_that_of_values(num(HZ_10000), sample_rate);
    law_order_is_that_of_values(num(0), num(HZ_10000));
    // a bin is not narrower than at 10 kHz, and not wider than the sample rate
    law_exact_quotient(num(HZ_10000), num(SPECTRUM), num(LEAST_BIN));
    law_quotient_monotone(num(HZ_10000), num(SPECTRUM), sample_rate, num(SPECTRUM));
    law_exact_quotient(sample_rate, num(ONE), sample_rate);
    law_quotient_monotone(sample_rate, num(SPECTRUM), sample_rate, num(ONE));
    assert(bin.is_finite() && !bin.negative());
    law_order_is_that_of_values(num(LEAST_BIN), bin);
    // so the highest band does not start later than at 10 kHz
    law_exact_quotient(num(HZ_5000), num(LEAST_BIN), num(HALF_SPECTRUM));
    law_quotient_monotone(num(HZ_5000), bin, num(HZ_5000), num(LEAST_BIN));
    lemma_band_sizes((BANDS - 1) as nat);
    lemma_edge_positive(num(HZ_5000), bin);
    lemma_edges_in_order(quotient(num(HZ_5000), bin), num(HALF_SPECTRUM));
    assert(truncated(num(HALF_SPECTRUM), usize::MAX as nat) == 512) by {
        vstd::arithmetic::div_mod::lemma_div_multiples_vanish(512, one as int);
        assert(512 * one == one * 512) by (nonlinear_arith);
        reveal(truncated);
    }
}

} // verus!
