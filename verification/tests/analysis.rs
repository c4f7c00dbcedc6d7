use sound_dir::analyzer::{scale_samples, window_angle, window_value, Analyzer};
use sound_dir::bands::{band_bins, band_level};
use sound_dir::channel::{ChannelState, FFT_SIZE, NUM_BINS};
use sound_dir::gain::{gain_denominator, gain_floor, gain_root, gain_value, Power};
use sound_dir::number::single::Single;

fn s(x: f32) -> Single {
    Single { bits: x.to_bits() }
}

fn f(x: Single) -> f32 {
    f32::from_bits(x.bits)
}

fn power(base: f32, exponent: f32) -> Power {
    Power { base: s(base), exponent: s(exponent) }
}

fn singles(xs: &[f32]) -> Vec<Single> {
    xs.iter().map(|x| s(*x)).collect()
}

fn ones() -> Vec<Single> {
    vec![s(1.0); FFT_SIZE]
}

/// Hands `data` to the analysis and returns after how many samples spectra were due.
fn hops(a: &mut Analyzer, data: &Vec<Single>) -> Vec<usize> {
    let mut due = Vec::new();
    let mut at = 0;
    while let Some(next) = a.process(data, at) {
        due.push(next);
        at = next;
    }
    due
}

#[test]
fn window_is_a_raised_cosine() {
    for n in 0..FFT_SIZE {
        let angle = 2.0 * std::f32::consts::PI * n as f32 / (FFT_SIZE - 1) as f32;
        assert_eq!(f(window_angle(n as u32)), angle);
        assert_eq!(f(window_value(s(angle.cos()))), 0.5 - 0.5 * angle.cos());
    }
    assert_eq!(f(window_value(s(1.0))), 0.0);
    assert_eq!(f(window_value(s(-1.0))), 1.0);
}

#[test]
fn gain_of_a_bin() {
    for (mag, m) in [(0.0f32, 0.0f32), (0.5, 0.3), (30.0, 2.0), (1e-8, 4.0)] {
        let denominator = (1e-6f32 + m).powf(0.98);
        let native = (mag / denominator + 2.0).powf(0.5) - 2.0f32.powf(0.5);
        assert_eq!(gain_denominator(s(m)), power(1e-6f32 + m, 0.98));
        let root = gain_root(s(mag), s(denominator));
        assert_eq!(root, power(mag / denominator + 2.0, 0.5));
        assert_eq!(gain_floor(), power(2.0, 0.5));
        let gain = gain_value(s(f(root.base).powf(0.5)), s(2.0f32.powf(0.5)));
        assert_eq!(f(gain), native);
    }
}

#[test]
fn samples_of_sixteen_bits() {
    let data = vec![0i16, 1, -1, 100, -12345, i16::MAX, i16::MIN];
    let scaled = scale_samples(&data);
    let scale = 1.0 / i16::MAX as f32;
    assert_eq!(scaled.len(), data.len());
    for (x, d) in scaled.iter().zip(&data) {
        assert_eq!(f(*x), *d as f32 * scale);
    }
    assert_eq!(f(scaled[5]), 1.0);
    assert!(-2.0 < f(scaled[6]) && f(scaled[6]) < -1.0);
}

#[test]
fn channel_keeps_the_latest_samples_in_order() {
    let mut c = ChannelState::new();
    for i in 0..FFT_SIZE + 10 {
        c.push(s(i as f32));
    }
    let out = c.windowed(&ones());
    for i in 0..FFT_SIZE {
        assert_eq!(f(out[i]), (i + 10) as f32);
    }
}

#[test]
fn silence_before_the_first_samples() {
    let mut c = ChannelState::new();
    c.push(s(3.0));
    let window: Vec<Single> = (0..FFT_SIZE).map(|i| s(i as f32)).collect();
    let out = c.windowed(&window);
    assert_eq!(f(out[FFT_SIZE - 2]), 0.0);
    assert_eq!(f(out[FFT_SIZE - 1]), 3.0 * 1023.0);
}

#[test]
fn magnitudes_are_smoothed_after_the_first() {
    let mut c = ChannelState::new();
    let first: Vec<Single> = (0..NUM_BINS).map(|k| s(k as f32 * 0.1)).collect();
    let band = c.smooth(&first, 10, 20);
    assert_eq!(band, first[10..20].to_vec());
    assert_eq!(c.pcen_m[10..20], first[10..20]);
    assert_eq!(f(c.pcen_m[9]), 0.0);
    assert_eq!(f(c.pcen_m[20]), 0.0);
    c.pcen_init = true;
    let second = vec![s(5.0); NUM_BINS];
    let band = c.smooth(&second, 10, 20);
    for k in 10..20 {
        let native = (1.0 - 0.025f32) * (k as f32 * 0.1) + 0.025f32 * 5.0;
        assert_eq!(f(band[k - 10]), native);
        assert_eq!(f(c.pcen_m[k]), native);
    }
}

#[test]
fn smoothing_an_empty_band_does_nothing() {
    let mut c = ChannelState::new();
    let mags = vec![s(1.0); NUM_BINS];
    assert!(c.smooth(&mags, 5, 5).is_empty());
    assert!(c.smooth(&mags, 7, 5).is_empty());
    assert_eq!(c.pcen_m, vec![s(0.0); NUM_BINS]);
}

fn native_bins(sample_rate: f32, b: usize) -> (usize, usize) {
    let hz = [(20.0f32, 200.0f32), (200.0, 2000.0), (2000.0, 5000.0), (5000.0, 10000.0)];
    let bin_hz = sample_rate / 1024.0;
    let lo = ((hz[b].0 / bin_hz) as usize).max(1);
    let hi = ((hz[b].1 / bin_hz).ceil() as usize).min(512);
    (lo, hi)
}

#[test]
fn bins_of_the_bands() {
    let expected = [(1, 5), (4, 43), (42, 107), (106, 214)];
    for b in 0..4 {
        assert_eq!(band_bins(s(48000.0), b), expected[b]);
    }
    for rate in [8000.0f32, 10000.0, 11025.0, 16000.0, 44100.0, 96000.0, 192000.0, 1e30] {
        for b in 0..4 {
            assert_eq!(band_bins(s(rate), b), native_bins(rate, b));
        }
    }
    for rate in [0.0f32, -1.0, f32::NAN, f32::INFINITY] {
        for b in 0..4 {
            assert_eq!(band_bins(s(rate), b), native_bins(rate, b));
        }
    }
}

#[test]
fn bands_meet_where_the_highest_is_within_the_spectrum() {
    for rate in [9990.0f32, 10000.0, 22050.0, 48000.0, 4e9, f32::MAX] {
        for b in 0..4 {
            let (lo, hi) = band_bins(s(rate), b);
            assert!(lo <= hi);
            if b < 3 {
                let next = band_bins(s(rate), b + 1).0;
                assert!(next <= hi && hi <= next + 1);
            }
        }
    }
    let (lo, hi) = band_bins(s(8000.0), 3);
    assert!(lo > hi);
}

/// Energy and direction of a band, with native numbers.
fn native_level(l: &[f32], r: &[f32], lg: &[f32], rg: &[f32], lo: usize, hi: usize) -> (f32, f32) {
    let (mut energy, mut num, mut den) = (0.0f32, 0.0f32, 0.0f32);
    for k in lo..hi {
        let e = (lg[k - lo] + rg[k - lo]) * 0.5;
        energy += e;
        let mag = l[k] + r[k];
        if mag > 1e-9 {
            num += (r[k] - l[k]) / mag * e;
            den += e;
        }
    }
    let count = (hi - lo).max(1) as f32;
    let dir = if den > 1e-9 { (num / den).clamp(-1.0, 1.0) } else { 0.0 };
    (energy / count, dir)
}

#[test]
fn level_of_a_band() {
    let l: Vec<f32> = (0..NUM_BINS).map(|k| (k % 13) as f32 * 0.07).collect();
    let r: Vec<f32> = (0..NUM_BINS).map(|k| (k % 7) as f32 * 0.11).collect();
    let lg: Vec<f32> = (0..40).map(|k| (k % 5) as f32 * 0.3).collect();
    let rg: Vec<f32> = (0..40).map(|k| (k % 3) as f32 * 0.2).collect();
    let (energy, direction) =
        band_level(&singles(&l), &singles(&r), &singles(&lg), &singles(&rg), 60, 100);
    let native = native_level(&l, &r, &lg, &rg, 60, 100);
    assert_eq!((f(energy), f(direction)), native);
}

#[test]
fn level_of_an_empty_band_is_nothing() {
    let mags = vec![s(1.0); NUM_BINS];
    let (energy, direction) = band_level(&mags, &mags, &vec![], &vec![], 5, 5);
    assert_eq!((f(energy), f(direction)), (0.0, 0.0));
}

#[test]
fn level_of_silence_is_nothing() {
    let mags = vec![s(0.0); NUM_BINS];
    let gains = vec![s(0.0); 10];
    let (energy, direction) = band_level(&mags, &mags, &gains, &gains, 5, 15);
    assert_eq!((f(energy), f(direction)), (0.0, 0.0));
}

#[test]
fn sound_on_one_side_points_there() {
    let silent = vec![s(0.0); NUM_BINS];
    let heard: Vec<Single> = (0..NUM_BINS).map(|k| s(0.01 + k as f32 * 0.3)).collect();
    let gains: Vec<Single> = (0..30).map(|k| s(0.2 + k as f32 * 0.07)).collect();
    let quiet = vec![s(0.0); 30];
    let (_, right) = band_level(&silent, &heard, &quiet, &gains, 20, 50);
    assert_eq!(f(right), 1.0);
    let (_, left) = band_level(&heard, &silent, &gains, &quiet, 20, 50);
    assert_eq!(f(left), -1.0);
    let (energy, both) = band_level(&heard, &heard, &gains, &gains, 20, 50);
    assert_eq!(f(both), 0.0);
    assert!(f(energy) > 0.0);
}

#[test]
fn spectra_are_due_at_every_hop() {
    let mut a = Analyzer::new(s(48000.0), 2, ones());
    let data = vec![s(0.0); 2 * 2000];
    assert_eq!(hops(&mut a, &data), vec![2 * 1024, 2 * 1280, 2 * 1536, 2 * 1792]);
    assert_eq!(a.samples_until_hop, 255 - 208);
}

#[test]
fn batches_do_not_matter() {
    let data: Vec<Single> = (0..3 * 1500).map(|i| s(i as f32)).collect();
    let mut whole = Analyzer::new(s(48000.0), 3, ones());
    let mut parts = Analyzer::new(s(48000.0), 3, ones());
    let n = hops(&mut whole, &data).len();
    let mut m = 0;
    for part in data.chunks(3 * 70) {
        m += hops(&mut parts, &part.to_vec()).len();
    }
    assert_eq!(n, m);
    assert_eq!(whole.samples_until_hop, parts.samples_until_hop);
    assert_eq!(whole.windowed_left(), parts.windowed_left());
    assert_eq!(whole.windowed_right(), parts.windowed_right());
}

#[test]
fn first_two_channels_are_taken() {
    let data: Vec<Single> = (0..6 * 1024).map(|i| s(i as f32)).collect();
    let mut a = Analyzer::new(s(48000.0), 6, ones());
    assert_eq!(hops(&mut a, &data), vec![6 * 1024]);
    let (l, r) = (a.windowed_left(), a.windowed_right());
    for i in 0..1024 {
        assert_eq!(f(l[i]), (6 * i) as f32);
        assert_eq!(f(r[i]), (6 * i + 1) as f32);
    }
}

#[test]
fn one_channel_is_both() {
    let data: Vec<Single> = (0..1024).map(|i| s(i as f32)).collect();
    let mut a = Analyzer::new(s(48000.0), 1, ones());
    assert_eq!(hops(&mut a, &data), vec![1024]);
    assert_eq!(a.windowed_left(), a.windowed_right());
    assert_eq!(f(a.windowed_left()[1023]), 1023.0);
}

#[test]
fn short_last_frame_is_taken() {
    let data: Vec<Single> = (0..6 * 1023 + 2).map(|i| s(i as f32)).collect();
    let mut a = Analyzer::new(s(48000.0), 6, ones());
    assert_eq!(a.process(&data, 0), Some(data.len()));
    assert_eq!(f(a.windowed_right()[1023]), (6 * 1023 + 1) as f32);
}

#[test]
fn hop_publishes_the_bands() {
    let mut a = Analyzer::new(s(48000.0), 2, ones());
    assert_eq!(a.band_bins, [(1, 5), (4, 43), (42, 107), (106, 214)]);
    let silent = vec![s(0.0); NUM_BINS];
    let heard = vec![s(2.0); NUM_BINS];
    let bands = a.smooth_bands(&silent, &heard);
    let mut gains = Vec::new();
    for b in 0..4 {
        let (lo, hi) = a.band_bins[b];
        assert_eq!(bands[b].0, vec![s(0.0); hi - lo]);
        assert_eq!(bands[b].1, vec![s(2.0); hi - lo]);
        gains.push((vec![s(0.0); hi - lo], vec![s(0.5); hi - lo]));
    }
    assert!(!a.left.pcen_init && !a.right.pcen_init);
    a.finish_hop(&silent, &heard, &gains);
    for b in 0..4 {
        assert_eq!(f(a.output.load_energy(b)), 0.25);
        assert_eq!(f(a.output.load_direction(b)), 1.0);
    }
    assert!(a.left.pcen_init && a.right.pcen_init);
}

#[test]
fn shared_bins_are_smoothed_twice() {
    let mut a = Analyzer::new(s(48000.0), 2, ones());
    let loud = vec![s(2.0); NUM_BINS];
    let silent = vec![s(0.0); NUM_BINS];
    let none: Vec<(Vec<Single>, Vec<Single>)> = a
        .band_bins
        .iter()
        .map(|(lo, hi)| (vec![s(0.0); hi - lo], vec![s(0.0); hi - lo]))
        .collect();
    a.smooth_bands(&loud, &loud);
    a.finish_hop(&loud, &loud, &none);
    let bands = a.smooth_bands(&silent, &loud);
    let once = (1.0 - 0.025f32) * 2.0 + 0.025f32 * 0.0;
    let twice = (1.0 - 0.025f32) * once + 0.025f32 * 0.0;
    // bin 4 ends the first band and starts the second
    assert_eq!(f(bands[0].0[0]), once);
    assert_eq!(f(bands[0].0[3]), once);
    assert_eq!(f(bands[1].0[0]), twice);
    assert_eq!(f(a.left.pcen_m[4]), twice);
    assert_eq!(f(a.left.pcen_m[5]), once);
    assert_eq!(f(a.left.pcen_m[300]), 0.0);
}

#[test]
fn louder_side_attracts() {
    let soft: Vec<Single> = (0..NUM_BINS).map(|k| s(0.1 * (k % 9) as f32)).collect();
    let loud: Vec<Single> =
        (0..NUM_BINS).map(|k| s(0.1 * (k % 9) as f32 + 0.05 * (k % 4) as f32)).collect();
    let gains: Vec<Single> = (0..40).map(|k| s(0.01 * k as f32)).collect();
    let (_, right) = band_level(&soft, &loud, &gains, &gains, 100, 140);
    assert!(0.0 < f(right) && f(right) <= 1.0);
    let (_, left) = band_level(&loud, &soft, &gains, &gains, 100, 140);
    assert_eq!(f(left), -f(right));
}

#[test]
fn gain_follows_the_magnitude() {
    let base = |mag: f32, den: f32| f(gain_root(s(mag), s(den)).base);
    assert!(base(0.5, 2.0) <= base(0.6, 2.0));
    assert!(base(0.5, 2.0) <= base(0.5, 1.9));
    assert_eq!(base(0.0, 3.0), 2.0);
    assert_eq!(base(3e38, 1e-30), f32::INFINITY);
}

#[test]
fn smoothed_magnitudes_lie_between() {
    for old in [0.0f32, 1e-44, 1e-6, 0.3, 1.0, 700.0, 3e30] {
        for mag in [0.0f32, 1e-44, 2e-6, 0.3, 5.0, 3e30] {
            let mut c = ChannelState::new();
            c.pcen_init = true;
            c.pcen_m[7] = s(old);
            let mut mags = vec![s(0.0); NUM_BINS];
            mags[7] = s(mag);
            let m = f(c.smooth(&mags, 7, 8)[0]) as f64;
            let (low, high) = (old.min(mag) as f64, old.max(mag) as f64);
            let slack = |x: f64| x / 4194304.0 + 2.0 * 1.401298464324817e-45;
            assert!(low - slack(low) <= m && m <= high + slack(high));
            let mean = (523449152.0 * old as f64 + 13421773.0 * mag as f64) / 536870912.0;
            assert!((m - mean).abs() <= slack(mean));
        }
    }
}

#[test]
fn exchanged_sides_mirror_the_levels() {
    let l: Vec<Single> = (0..NUM_BINS).map(|k| s((k % 13) as f32 * 0.07)).collect();
    let r: Vec<Single> = (0..NUM_BINS).map(|k| s((k % 7) as f32 * 0.11)).collect();
    let lg: Vec<Single> = (0..40).map(|k| s((k % 5) as f32 * 0.3)).collect();
    let rg: Vec<Single> = (0..40).map(|k| s((k % 3) as f32 * 0.2)).collect();
    let (energy, direction) = band_level(&l, &r, &lg, &rg, 60, 100);
    let (other, opposite) = band_level(&r, &l, &rg, &lg, 60, 100);
    assert_eq!(energy, other);
    assert_eq!(f(opposite), -f(direction));
    assert!(f(direction) != 0.0);
}

#[test]
fn exchanged_frames_exchange_the_channels() {
    let data: Vec<Single> = (0..2 * 1500).map(|i| s((i * 7 % 31) as f32)).collect();
    let swapped: Vec<Single> = (0..data.len()).map(|i| data[i ^ 1]).collect();
    let mut a = Analyzer::new(s(48000.0), 2, ones());
    let mut b = Analyzer::new(s(48000.0), 2, ones());
    assert_eq!(hops(&mut a, &data), hops(&mut b, &swapped));
    assert_eq!(a.windowed_left(), b.windowed_right());
    assert_eq!(a.windowed_right(), b.windowed_left());
    let (l, r) = (vec![s(0.25); NUM_BINS], vec![s(0.75); NUM_BINS]);
    let a_bands = a.smooth_bands(&l, &r);
    let b_bands = b.smooth_bands(&r, &l);
    let turned = |v: &Vec<(Vec<Single>, Vec<Single>)>| -> Vec<(Vec<Single>, Vec<Single>)> {
        v.iter().map(|(x, y)| (y.clone(), x.clone())).collect()
    };
    assert_eq!(turned(&a_bands), b_bands);
    a.finish_hop(&l, &r, &a_bands);
    b.finish_hop(&r, &l, &b_bands);
    for i in 0..4 {
        assert_eq!(a.output.load_energy(i), b.output.load_energy(i));
        assert_eq!(f(a.output.load_direction(i)), -f(b.output.load_direction(i)));
        assert_eq!(f(a.output.load_direction(i)), 0.5);
    }
}

#[test]
fn levels_are_finite_and_within_their_ends() {
    let l: Vec<Single> = (0..NUM_BINS).map(|k| s((k % 5) as f32 * 3e37)).collect();
    let r: Vec<Single> = (0..NUM_BINS).map(|k| s((k % 3) as f32 * 1.7e38)).collect();
    let gains: Vec<Single> = (0..500).map(|k| s((k % 2) as f32 * 1099511627776.0)).collect();
    let (energy, direction) = band_level(&l, &r, &gains, &gains, 5, 505);
    assert!(f(energy).is_finite() && f(energy) >= 0.0);
    assert!((-1.0..=1.0).contains(&f(direction)));
}

#[test]
fn level_of_a_band_past_the_spectrum_is_nothing() {
    let mags = vec![s(1.0); NUM_BINS];
    let (energy, direction) = band_level(&mags, &mags, &vec![], &vec![], 600, 512);
    assert_eq!((f(energy), f(direction)), (0.0, 0.0));
}

#[test]
fn hop_of_a_stream_without_the_highest_band() {
    let mut a = Analyzer::new(s(8000.0), 2, ones());
    assert_eq!(a.band_bins, [(2, 26), (25, 256), (256, 512), (640, 512)]);
    let silent = vec![s(0.0); NUM_BINS];
    let heard = vec![s(2.0); NUM_BINS];
    let bands = a.smooth_bands(&silent, &heard);
    assert!(bands[3].0.is_empty() && bands[3].1.is_empty());
    a.finish_hop(&silent, &heard, &bands);
    for b in 0..3 {
        assert_eq!(f(a.output.load_energy(b)), 1.0);
        assert_eq!(f(a.output.load_direction(b)), 1.0);
    }
    assert_eq!(f(a.output.load_energy(3)), 0.0);
    assert_eq!(f(a.output.load_direction(3)), 0.0);
}

#[test]
fn window_values_lie_between_nothing_and_all() {
    for i in -1000..=1000 {
        let w = f(window_value(s(i as f32 / 1000.0)));
        assert!((0.0..=1.0).contains(&w));
    }
}

#[test]
fn largest_magnitudes_stay_where_they_are() {
    let mut c = ChannelState::new();
    c.pcen_init = true;
    c.pcen_m[7] = s(1048576.0);
    let mags = vec![s(1048576.0); NUM_BINS];
    assert_eq!(f(c.smooth(&mags, 7, 8)[0]), 1048576.0);
}

#[test]
fn gain_is_not_negative() {
    for mag in [0.0f32, 1e-30, 0.7, 1e6, 3e38] {
        for m in [0.0f32, 1e-3, 40.0, 1e6] {
            let denominator = f(gain_denominator(s(m)).base).powf(0.98);
            let argument = f(gain_root(s(mag), s(denominator)).base);
            assert!(argument >= 2.0);
            if argument.is_finite() {
                let root = argument.powf(0.5);
                let gain = f(gain_value(s(root), s(2.0f32.powf(0.5))));
                assert!(0.0 <= gain && gain <= root);
            }
        }
    }
}

/// The magnitudes of the spectrum of `samples`.
fn spectrum(samples: &[Single]) -> Vec<Single> {
    let turn = 2.0 * std::f64::consts::PI / FFT_SIZE as f64;
    let table: Vec<(f64, f64)> =
        (0..FFT_SIZE).map(|i| (i as f64 * turn).sin_cos()).collect();
    let x: Vec<f64> = samples.iter().map(|v| f(*v) as f64).collect();
    (0..NUM_BINS)
        .map(|k| {
            let (mut re, mut im) = (0.0, 0.0);
            for (n, v) in x.iter().enumerate() {
                let (sin, cos) = table[k * n % FFT_SIZE];
                re += v * cos;
                im -= v * sin;
            }
            s((re * re + im * im).sqrt() as f32)
        })
        .collect()
}

fn gain(mag: Single, smoothed: Single) -> Single {
    let power = |p: Power| s(f(p.base).powf(f(p.exponent)));
    let root = gain_root(mag, power(gain_denominator(smoothed)));
    gain_value(power(root), power(gain_floor()))
}

/// Runs an analysis over `data`, and checks the levels of every hop.
fn run(a: &mut Analyzer, data: &Vec<Single>) -> usize {
    let (mut at, mut count) = (0, 0);
    while let Some(next) = a.process(data, at) {
        at = next;
        count += 1;
        let (l, r) = (spectrum(&a.windowed_left()), spectrum(&a.windowed_right()));
        let bands = a.smooth_bands(&l, &r);
        let gains: Vec<(Vec<Single>, Vec<Single>)> = (0..4)
            .map(|b| {
                let lo = a.band_bins[b].0;
                let of = |mags: &Vec<Single>, m: &Vec<Single>| -> Vec<Single> {
                    m.iter().enumerate().map(|(i, x)| gain(mags[lo + i], *x)).collect()
                };
                (of(&l, &bands[b].0), of(&r, &bands[b].1))
            })
            .collect();
        a.finish_hop(&l, &r, &gains);
        for b in 0..4 {
            let energy = f(a.output.load_energy(b));
            assert!(energy.is_finite() && energy >= 0.0);
            assert!((-1.0..=1.0).contains(&f(a.output.load_direction(b))));
        }
    }
    count
}

#[test]
fn streams_give_levels_and_their_exchange_mirrors_them() {
    let window: Vec<Single> = (0..FFT_SIZE as u32)
        .map(|n| window_value(s(f(window_angle(n)).cos())))
        .collect();
    let data: Vec<Single> = (0..2 * 1400)
        .map(|i| {
            let t = (i / 2) as f32;
            if i % 2 == 0 { s((t * 0.31).sin()) } else { s(0.4 * (t * 0.02 + 1.0).cos()) }
        })
        .collect();
    let swapped: Vec<Single> = (0..data.len()).map(|i| data[i ^ 1]).collect();
    let mut a = Analyzer::new(s(48000.0), 2, window.clone());
    let mut b = Analyzer::new(s(48000.0), 2, window);
    assert_eq!(run(&mut a, &data), 2);
    assert_eq!(run(&mut b, &swapped), 2);
    for i in 0..4 {
        assert_eq!(a.output.load_energy(i), b.output.load_energy(i));
        assert_eq!(f(a.output.load_direction(i)), -f(b.output.load_direction(i)));
    }
    // the high tone is on the left, the low one on the right
    assert!(f(a.output.load_direction(2)) < 0.0);
    assert!(f(a.output.load_direction(0)) > 0.0);
}
