//! What is measured: samples, the window, the frequencies of the bands, and the gain.
use crate::analyzer::{angle_at, scaled_sample, LARGEST_SAMPLE, LAST_SAMPLE, PI};
use crate::bands::{band_hz, bins_of, HZ_10000, HZ_20, HZ_200, HZ_2000, HZ_5000, SPECTRUM};
use crate::channel::{windowed_samples, FFT_SIZE, NUM_BINS};
use crate::gain::{gain_argument, PCEN_DELTA};
use crate::number::constants::{HALF, ONE, TWO};
use crate::number::laws::{apart, law_short_numbers_are_exact, lemma_zero_product};
use crate::number::near::{
    law_product_is_near, law_quotient_is_near, law_raised_is_the_next_whole,
    law_truncated_is_the_whole_part, lemma_divided_in_parts, lemma_one_is_large,
    lemma_product_is_finite, lemma_quotient_is_finite, lemma_size_times, lemma_times, one, size,
};
use crate::number::order::{lemma_units_order, lemma_zero_units};
use crate::number::rounding::lemma_pow2_24;
use crate::number::single::{
    difference, negated, num, of_whole, product, quotient, raised, truncated, units, Single,
    UNIT_SHIFT,
};
use crate::picture::{is_modest, lemma_bounds, lemma_modest_sum};
use crate::room::lemma_whole_constant;
use vstd::arithmetic::power2::{lemma2_to64, lemma_pow2_adds, lemma_pow2_pos, pow2};
use vstd::prelude::*;

verus! {

/// Whole numbers as they are, in units.
proof fn lemma_whole(n: nat)
    requires
        n <= 0x100_0000,
    ensures
        of_whole(n).is_finite(),
        !of_whole(n).negative(),
        of_whole(n).value() == n * one(),
{
    lemma_pow2_24();
    law_short_numbers_are_exact(n, UNIT_SHIFT as nat);
    reveal(of_whole);
}

/// The constants of the measurements, in units.
proof fn lemma_measures()
    ensures
        num(LARGEST_SAMPLE).is_finite(),
        num(LARGEST_SAMPLE).value() == 32767 * one(),
        num(LAST_SAMPLE).is_finite(),
        num(LAST_SAMPLE).value() == 1023 * one(),
        num(SPECTRUM).is_finite(),
        num(SPECTRUM).value() == 1024 * one(),
        num(PI).is_finite(),
        3 * one() <= num(PI).value() <= 4 * one(),
        num(PCEN_DELTA).is_finite(),
        num(PCEN_DELTA).value() == 2 * one(),
{
    reveal(units);
    lemma_one_is_large();
    lemma_pow2_24();
    lemma2_to64();
    lemma_pow2_adds(9, 140);
    lemma_pow2_adds(14, 135);
    lemma_pow2_adds(13, 136);
    lemma_pow2_adds(21, 128);
    lemma_pow2_pos(128);
    assert(num(LARGEST_SAMPLE).value() == 0xff_fe00 * pow2(140));
    assert(num(LAST_SAMPLE).value() == 0xff_c000 * pow2(135));
    assert(num(SPECTRUM).value() == 0x80_0000 * pow2(136));
    assert(num(PI).value() == 0xc9_0fdb * pow2(127));
    lemma_pow2_adds(22, 127);
    lemma_pow2_pos(127);
}

/// A sample of 16 bits becomes its part of 32767.
pub proof fn law_sample_is_its_part(x: i16)
    ensures
        scaled_sample(x).is_finite(),
        0x10_0000 * apart(32767 * scaled_sample(x).value(), x * one()) <= size(x as int) * one(),
{
    let o = one();
    let n: nat = if x < 0 {
        -x as nat
    } else {
        x as nat
    };
    let a = if x < 0 {
        negated(of_whole(n))
    } else {
        of_whole(n)
    };
    let s = quotient(num(ONE), num(LARGEST_SAMPLE));
    lemma_one_is_large();
    lemma_bounds();
    lemma_measures();
    lemma_whole(n);
    assert(n * o == size(x as int) * o && (-(n * o)) == (-n) * o) by (nonlinear_arith)
        requires
            n == size(x as int),
    ;
    assert(a.value() == x * o);
    assert(o * o < (32767 * o) * pow2(224)) by (nonlinear_arith)
        requires
            o < pow2(224),
            o > 0,
    ;
    lemma_quotient_is_finite(num(ONE), num(LARGEST_SAMPLE));
    law_quotient_is_near(num(ONE), num(LARGEST_SAMPLE));
    let sv = s.value();
    assert(0x100_0000 * apart(32767 * sv, o) <= o + 0x80_0000 * 32767) by (nonlinear_arith)
        requires
            0x100_0000 * apart(sv * (32767 * o), o * o) <= size(o * o) + 0x80_0000 * (32767 * o),
            o > 0,
    {
        let y = 32767 * sv - o;
        assert(sv * (32767 * o) - o * o == y * o);
        assert(size(y * o) == size(y) * o);
        assert(size(o * o) == o * o);
        assert((0x100_0000 * size(y)) * o <= (o + 0x80_0000 * 32767) * o);
    }
    let xv = x as int;
    let av = a.value();
    assert(size(xv * o) <= 32768 * o) by (nonlinear_arith)
        requires
            size(xv) <= 32768,
            o > 0,
    ;
    lemma_size_times(av, sv, 32768 * o, o);
    assert((32768 * o) * o < o * pow2(224)) by (nonlinear_arith)
        requires
            0x10_0000_0000_0000 * o <= pow2(224),
            o > 0,
    ;
    lemma_product_is_finite(a, s);
    law_product_is_near(a, s);
    let y = scaled_sample(x).value();
    let xs = xv * sv;
    assert(av * sv == xs * o) by (nonlinear_arith)
        requires
            av == xv * o,
            xs == xv * sv,
    ;
    let k = size(xs);
    assert(size(xs * o) == k * o) by (nonlinear_arith)
        requires
            k == size(xs),
            o > 0,
    ;
    lemma_divided_in_parts(y, xs, o, 0x100_0000, k, 0x80_0000);
    lemma_times(32767 * sv, o, xv, 0x100_0000, o + 0x80_0000 * 32767, size(xv));
    let sx = size(xv);
    let xo = sx * o;
    assert((32767 * sv) * xv == 32767 * xs && o * xv == xv * o && (o + 0x80_0000 * 32767) * sx
        <= 2 * xo && size(xv * o) == xo) by (nonlinear_arith)
        requires
            xs == xv * sv,
            xo == sx * o,
            sx == size(xv),
            0x80_0000 * 32767 <= o,
    ;
    if sx == 0 {
        assert(xs == 0) by (nonlinear_arith)
            requires
                xs == xv * sv,
                xv == 0,
        ;
        lemma_zero_sample(a, s);
    } else {
        assert(xo >= o) by (nonlinear_arith)
            requires
                xo == sx * o,
                sx >= 1,
                o > 0,
        ;
    }
}

/// Nothing times something is nothing.
proof fn lemma_zero_sample(a: Single, b: Single)
    requires
        a.is_finite(),
        b.is_finite(),
        a.value() == 0,
    ensures
        product(a, b).value() == 0,
{
    lemma_zero_units();
    lemma_units_order(0, a.magnitude());
    lemma_zero_product(a, b);
}

/// The window at a sample is half of what the cosine of its angle lacks to 1.
pub proof fn law_window_is_a_raised_cosine(cosine: Single)
    requires
        cosine.is_finite(),
        -one() <= cosine.value() <= one(),
    ensures
        ({
            let w = difference(num(HALF), product(num(HALF), cosine));
            &&& w.is_finite()
            &&& 0x40_0000 * apart(2 * w.value(), one() - cosine.value()) <= one()
        }),
{
    let o = one();
    let h = num(HALF).value();
    let c = cosine.value();
    let p = product(num(HALF), cosine);
    lemma_one_is_large();
    lemma_bounds();
    lemma_size_times(h, c, h, o);
    assert(h * o < o * pow2(224)) by (nonlinear_arith)
        requires
            2 * h == o,
            o < pow2(224),
            o > 0,
    ;
    lemma_product_is_finite(num(HALF), cosine);
    law_product_is_near(num(HALF), cosine);
    let v = p.value();
    assert(0x100_0000 * apart(2 * v, c) <= o + 0x100_0000) by (nonlinear_arith)
        requires
            0x100_0000 * apart(v * o, h * c) <= size(h * c) + 0x80_0000 * o,
            2 * h == o,
            size(h * c) <= h * o,
            o > 0,
    {
        let x = 2 * v - c;
        assert(v * o - h * c == h * x);
        assert(size(h * x) == h * size(x));
        assert(0x100_0000 * (h * size(x)) <= h * (o + 0x100_0000));
    }
    lemma_modest_sum(num(HALF), negated(p));
}

/// The angle at a sample is its part of a whole turn: none at the first sample, a whole turn
/// at the last.
pub proof fn law_angle_is_its_part(n: nat)
    requires
        n < FFT_SIZE,
    ensures
        ({
            let turn = 2 * num(PI).value();
            &&& angle_at(n).is_finite()
            &&& 0x10_0000 * apart(1023 * angle_at(n).value(), n * turn) <= n * turn + one()
        }),
{
    let o = one();
    lemma_one_is_large();
    lemma_bounds();
    lemma_measures();
    lemma_whole(n);
    let pi = num(PI).value();
    let two_pi = product(num(TWO), num(PI));
    lemma_size_times(2 * o, pi, 2 * o, 4 * o);
    assert((2 * o) * (4 * o) < o * pow2(224)) by (nonlinear_arith)
        requires
            0x10_0000_0000_0000 * o <= pow2(224),
            o > 0,
    ;
    lemma_product_is_finite(num(TWO), num(PI));
    law_product_is_near(num(TWO), num(PI));
    let t = two_pi.value();
    assert(0x100_0000 * apart(t, 2 * pi) <= 2 * pi + 0x80_0000) by {
        assert((2 * o) * pi == (2 * pi) * o && size((2 * pi) * o) == (2 * pi) * o)
            by (nonlinear_arith)
            requires
                pi >= 0,
                o > 0,
        ;
        lemma_divided_in_parts(t, 2 * pi, o, 0x100_0000, 2 * pi, 0x80_0000);
    }
    let w = of_whole(n);
    let no = n * o;
    assert(0 <= no <= 1024 * o) by (nonlinear_arith)
        requires
            no == n * o,
            0 <= n <= 1024,
            o > 0,
    ;
    lemma_size_times(t, no, 9 * o, 1024 * o);
    assert((9 * o) * (1024 * o) < o * pow2(224)) by (nonlinear_arith)
        requires
            0x10_0000_0000_0000 * o <= pow2(224),
            o > 0,
    ;
    lemma_product_is_finite(two_pi, w);
    law_product_is_near(two_pi, w);
    let p = product(two_pi, w);
    let nt = n * t;
    assert(t * no == nt * o && nt >= 0 && nt * o >= 0 && nt <= 1024 * (9 * o)) by (nonlinear_arith)
        requires
            nt == n * t,
            no == n * o,
            0 <= t <= 9 * o,
            0 <= n <= 1024,
            o > 0,
    ;
    lemma_divided_in_parts(p.value(), nt, o, 0x100_0000, nt, 0x80_0000);
    assert(size(p.value()) * o < (1023 * o) * pow2(224)) by (nonlinear_arith)
        requires
            size(p.value()) <= 0x1_0000 * o,
            0x10_0000_0000_0000 * o <= pow2(224),
            o > 0,
    ;
    lemma_quotient_is_finite(p, num(LAST_SAMPLE));
    law_quotient_is_near(p, num(LAST_SAMPLE));
    let a = angle_at(n).value();
    let pv = p.value();
    assert(0x100_0000 * apart(1023 * a, pv) <= size(pv) + 0x80_0000 * 1023) by {
        assert(a * (1023 * o) == (1023 * a) * o && size(pv * o) == size(pv) * o)
            by (nonlinear_arith)
            requires
                o > 0,
        ;
        lemma_divided_in_parts(1023 * a, pv, o, 0x100_0000, size(pv), 0x80_0000int * 1023);
    }
    lemma_times(t, 2 * pi, n as int, 0x100_0000, 2 * pi + 0x80_0000, n as int);
    let turns = n * (2 * pi);
    assert((2 * pi + 0x80_0000) * n == turns + 0x80_0000 * n) by (nonlinear_arith)
        requires
            turns == n * (2 * pi),
    ;
}

/// Each sample is multiplied by the window at its place.
pub proof fn law_samples_are_windowed(h: Seq<Single>, window: Seq<Single>, i: int)
    requires
        0 <= i < FFT_SIZE,
        is_modest(h[i]),
        window[i].is_finite(),
        0 <= window[i].value() <= one(),
    ensures
        ({
            let w = windowed_samples(h, window);
            let exact = h[i].value() * window[i].value();
            &&& w.len() == FFT_SIZE
            &&& w[i].is_finite()
            &&& 0x100_0000 * apart(w[i].value() * one(), exact) <= size(exact) + 0x80_0000
                * one()
        }),
{
    let o = one();
    lemma_one_is_large();
    lemma_bounds();
    lemma_size_times(h[i].value(), window[i].value(), pow2(200) as int, o);
    assert(pow2(200) * o < o * pow2(224)) by (nonlinear_arith)
        requires
            pow2(224) == 0x100_0000 * pow2(200),
            pow2(200) > 0,
            o > 0,
    ;
    lemma_product_is_finite(h[i], window[i]);
    law_product_is_near(h[i], window[i]);
}

/// What the root in the gain is taken of is the magnitude in relation to the denominator,
/// and 2.
pub proof fn law_gain_argument_is_the_relation(mag: Single, denominator: Single)
    requires
        is_modest(mag),
        is_modest(denominator),
        0 <= mag.value(),
        one() <= 0x10_0000 * denominator.value(),
    ensures
        ({
            let a = gain_argument(mag, denominator);
            let exact = mag.value() * one() + 2 * (one() * denominator.value());
            &&& a.is_finite()
            &&& 0x40_0000 * apart(a.value() * denominator.value(), exact) <= exact
        }),
{
    let o = one();
    let m = mag.value();
    let d = denominator.value();
    let q = quotient(mag, denominator);
    lemma_one_is_large();
    lemma_bounds();
    lemma_measures();
    let mo = m * o;
    let od = o * d;
    assert(size(m) * o < size(d) * pow2(224) && mo >= 0) by (nonlinear_arith)
        requires
            0 <= m < pow2(200),
            o <= 0x10_0000 * d,
            pow2(224) == 0x100_0000 * pow2(200),
            mo == m * o,
            o > 0,
            d > 0,
    {
        assert(m * o <= pow2(200) * (0x10_0000 * d));
    }
    lemma_quotient_is_finite(mag, denominator);
    law_quotient_is_near(mag, denominator);
    let qv = q.value();
    let qd = qv * d;
    assert(0 <= qv + 1 && size(qv) < 0x40_0000 * pow2(200)) by (nonlinear_arith)
        requires
            0x100_0000 * apart(qd, mo) <= mo + 0x80_0000 * d,
            qd == qv * d,
            mo == m * o,
            0 <= m < pow2(200),
            0 < o <= 0x10_0000 * d,
            pow2(200) >= 1,
            d > 0,
    {
        assert(mo <= pow2(200) * (0x10_0000 * d));
        assert(qd <= 2 * (pow2(200) * (0x10_0000 * d)) + d);
        assert(qv <= 2 * (pow2(200) * 0x10_0000) + 1) by {
            assert(qv * d <= (2 * (pow2(200) * 0x10_0000) + 1) * d);
        }
        assert(qd >= -d);
    }
    lemma_modest_sum(q, num(PCEN_DELTA));
    let a = gain_argument(mag, denominator).value();
    lemma_times(a, qv + 2 * o, d, 0x100_0000, size(qv + 2 * o) + 0x80_0000, d);
    assert((qv + 2 * o) * d == qd + 2 * od && (size(qv + 2 * o) + 0x80_0000) * d <= qd + 2 * od
        + 0x80_0002 * d && 0x1_0000_0000 * d <= od) by (nonlinear_arith)
        requires
            qd == qv * d,
            od == o * d,
            0 <= qv + 1,
            0x1_0000_0000 <= o,
            d > 0,
    ;
}

/// Where a frequency lies among the bins.
proof fn lemma_bin_of(hz: Single, rate: Single)
    requires
        hz.is_finite(),
        one() <= hz.value() <= 0x4000 * one(),
        rate.is_finite(),
        one() <= rate.value() <= 0x100_0000 * one(),
    ensures
        ({
            let q = quotient(hz, quotient(rate, num(SPECTRUM)));
            &&& q.is_finite()
            &&& 0 < q.value() < 0x800_0000 * one()
            &&& 0x40_0000 * apart(q.value() * rate.value(), 1024 * (hz.value() * one())) <= 1024
                * (hz.value() * one())
        }),
{
    let o = one();
    let r = rate.value();
    let f = hz.value();
    let bin = quotient(rate, num(SPECTRUM));
    lemma_one_is_large();
    lemma_bounds();
    lemma_measures();
    assert(size(r) * o < (1024 * o) * pow2(224)) by (nonlinear_arith)
        requires
            0 <= r <= 0x100_0000 * o,
            0x10_0000_0000_0000 * o <= pow2(224),
            o > 0,
    ;
    lemma_quotient_is_finite(rate, num(SPECTRUM));
    law_quotient_is_near(rate, num(SPECTRUM));
    let b = bin.value();
    assert(0x100_0000 * apart(1024 * b, r) <= r + 0x80_0000 * 1024) by {
        assert(b * (1024 * o) == (1024 * b) * o && size(r * o) == r * o) by (nonlinear_arith)
            requires
                r >= 0,
                o > 0,
        ;
        lemma_divided_in_parts(1024 * b, r, o, 0x100_0000, r, 0x80_0000int * 1024);
    }
    assert(2048 * b >= o);
    assert(size(f) * o < size(b) * pow2(224)) by (nonlinear_arith)
        requires
            0 <= f <= 0x4000 * o,
            2048 * b >= o,
            0x10_0000_0000_0000 * o <= pow2(224),
            o > 0,
    {
        assert(f * o <= (0x4000 * o) * (2048 * b));
        assert((0x4000 * o) * (2048 * b) == (0x200_0000 * o) * b);
        assert((0x200_0000 * o) * b < pow2(224) * b);
    }
    lemma_quotient_is_finite(hz, bin);
    law_quotient_is_near(hz, bin);
    let q = quotient(hz, bin).value();
    let fo = f * o;
    let qb = q * b;
    let qr = q * r;
    assert(fo >= o * o && fo <= 0x4000 * (o * o) && 0x1_0000_0000_0000 * o <= o * o)
        by (nonlinear_arith)
        requires
            fo == f * o,
            o <= f <= 0x4000 * o,
            0x1_0000_0000_0000 <= o,
    ;
    assert(b <= 0x8000 * o);
    assert(qb > 0);
    assert(0 < q < 0x800_0000 * o) by (nonlinear_arith)
        requires
            qb == q * b,
            0 < qb,
            qb < 2 * fo,
            fo <= 0x4000 * (o * o),
            2048 * b >= o,
            b > 0,
            o > 0,
    {
        if q >= 0x800_0000 * o {
            assert(q * (2048 * b) >= (0x800_0000 * o) * (2048 * b));
            assert((0x800_0000 * o) * (2048 * b) >= (0x800_0000 * o) * o);
            assert(2048 * qb >= 0x800_0000 * (o * o));
            assert(2048 * qb < 4096 * (0x4000 * (o * o)));
        }
    }
    lemma_times(1024 * b, r, q, 0x100_0000, r + 0x80_0000 * 1024, q);
    assert(q * (1024 * b) == 1024 * qb && (r + 0x80_0000 * 1024) * q == qr + 0x2_0000_0000 * q
        && 0x1_0000_0000_0000 * q <= qr) by (nonlinear_arith)
        requires
            qb == q * b,
            qr == q * r,
            0x1_0000_0000_0000 <= r,
            q > 0,
    ;
    assert(0x100_0000 * apart(1024 * qb, qr) <= qr + 0x2_0000_0000 * q);
    assert(0x100_0000 * apart(qb, fo) <= fo + 0x80_0000 * b);
    assert(0x2_0000_0000 * b <= fo);
}

/// The bins of a band cover its frequencies: the band begins in the bin in which its lowest
/// frequency lies, and ends with the one in which its highest lies, but for the lowest and
/// the highest bin of the spectrum, which no band has. Bin `k` lies at `k` 1024ths of the
/// sample rate.
pub proof fn law_bins_cover_the_band(rate: Single, b: nat)
    requires
        rate.is_finite(),
        one() <= rate.value() <= 0x100_0000 * one(),
        b < 4,
    ensures
        ({
            let lo = bins_of(rate, b).0 as int;
            let hi = bins_of(rate, b).1 as int;
            let low = 1024 * band_hz(b).0.value();
            let high = 1024 * band_hz(b).1.value();
            let r = rate.value();
            &&& 1 <= lo
            &&& 1 < lo ==> 0x20_0000 * (lo * r - low) <= low
            &&& 0x20_0000 * (low - (lo + 1) * r) <= low
            &&& hi < NUM_BINS
            &&& hi < NUM_BINS - 1 ==> 0x20_0000 * (high - hi * r) <= high
            &&& 0x20_0000 * ((hi - 1) * r - high) <= high
        }),
{
    let o = one();
    lemma_one_is_large();
    law_bands_in_hertz(b);
    let (low, high) = band_hz(b);
    let r = rate.value();
    lemma_bin_of(low, rate);
    lemma_bin_of(high, rate);
    let bin = quotient(rate, num(SPECTRUM));
    assert((1024 * low.value()) * o == 1024 * (low.value() * o) && (1024 * high.value()) * o
        == 1024 * (high.value() * o)) by (nonlinear_arith);
    lemma_edges_of(quotient(low, bin), r, 1024 * low.value());
    lemma_edges_of(quotient(high, bin), r, 1024 * high.value());
    let t = truncated(quotient(low, bin), usize::MAX as nat) as int;
    let h = raised(quotient(high, bin), usize::MAX as nat) as int;
    let lo = bins_of(rate, b).0 as int;
    let hi = bins_of(rate, b).1 as int;
    assert((t + 1) * r <= (lo + 1) * r && (hi - 1) * r <= (h - 1) * r) by (nonlinear_arith)
        requires
            t <= lo,
            hi <= h,
            r > 0,
    ;
}

/// The whole numbers round a place `q` among the bins of width `r`, of which the frequency is
/// `f`.
proof fn lemma_edges_of(q: Single, r: int, f: int)
    requires
        q.is_finite(),
        0 < q.value() < 0x800_0000 * one(),
        0 < r,
        0 <= f,
        0x40_0000 * apart(q.value() * r, f * one()) <= f * one(),
    ensures
        ({
            let lo = truncated(q, usize::MAX as nat) as int;
            let hi = raised(q, usize::MAX as nat) as int;
            &&& 0x20_0000 * (lo * r - f) <= f
            &&& 0x20_0000 * (f - (lo + 1) * r) <= f
            &&& 0x20_0000 * (f - hi * r) <= f
            &&& 0x20_0000 * ((hi - 1) * r - f) <= f
        }),
{
    let o = one();
    let max = usize::MAX as nat;
    lemma_one_is_large();
    assert(0x800_0000 * o <= max * o && max * o <= (max + 1) * o) by (nonlinear_arith)
        requires
            0x800_0000 <= max,
            o > 0,
    ;
    law_truncated_is_the_whole_part(q, max);
    law_raised_is_the_next_whole(q, max);
    let lo = truncated(q, max) as int;
    let hi = raised(q, max) as int;
    let v = q.value();
    lemma_edge_times(lo, v, r, f, o);
    lemma_edge_times(hi - 1, v, r, f, o);
}

/// A place between two whole numbers, as a frequency.
proof fn lemma_edge_times(k: int, v: int, r: int, f: int, o: int)
    requires
        k * o <= v <= (k + 1) * o,
        0 < r,
        0 <= f,
        o > 0,
        0x40_0000 * apart(v * r, f * o) <= f * o,
    ensures
        0x20_0000 * (k * r - f) <= f,
        0x20_0000 * (f - (k + 1) * r) <= f,
{
    assert(0x20_0000 * (k * r - f) <= f && 0x20_0000 * (f - (k + 1) * r) <= f)
        by (nonlinear_arith)
        requires
            k * o <= v <= (k + 1) * o,
            0 < r,
            0 <= f,
            o > 0,
            0x40_0000 * apart(v * r, f * o) <= f * o,
    {
        assert((k * o) * r <= v * r);
        assert(v * r <= ((k + 1) * o) * r);
        assert((k * o) * r == (k * r) * o);
        assert(((k + 1) * o) * r == ((k + 1) * r) * o);
        assert((0x40_0000 * (k * r - f)) * o <= f * o);
        assert((0x40_0000 * (f - (k + 1) * r)) * o <= f * o);
    }
}

/// The bands reach from 20 to 200 Hz, to 2 kHz, to 5 kHz and to 10 kHz.
pub proof fn law_bands_in_hertz(b: nat)
    requires
        b < 4,
    ensures
        ({
            let (low, high) = band_hz(b);
            &&& low.is_finite() && high.is_finite()
            &&& one() <= low.value() <= 0x4000 * one()
            &&& one() <= high.value() <= 0x4000 * one()
            &&& low.value() == (if b == 0 {
                20int
            } else if b == 1 {
                200int
            } else if b == 2 {
                2000
            } else {
                5000
            }) * one()
            &&& high.value() == (if b == 0 {
                200int
            } else if b == 1 {
                2000
            } else if b == 2 {
                5000
            } else {
                10000
            }) * one()
        }),
{
    lemma2_to64();
    lemma_one_is_large();
    lemma_whole_constant(HZ_20, 20, 19);
    lemma_whole_constant(HZ_200, 200, 16);
    lemma_whole_constant(HZ_2000, 2000, 13);
    lemma_whole_constant(HZ_5000, 5000, 11);
    lemma_whole_constant(HZ_10000, 10000, 10);
}

} // verus!
