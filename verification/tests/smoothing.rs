use sound_dir::levels::BandLevels;
use sound_dir::number::single::Single;
use sound_dir::smoothing::{exponents_of, Decays, Smoothing};

fn s(x: f32) -> Single {
    Single { bits: x.to_bits() }
}

fn f(x: Single) -> f32 {
    f32::from_bits(x.bits)
}

fn decays(sensitivity: f32, elapsed: f32) -> Decays {
    let e = exponents_of(s(sensitivity), s(elapsed));
    Decays {
        direction: s(f(e.direction).exp()),
        attack: s(f(e.attack).exp()),
        release: s(f(e.release).exp()),
        scale_attack: s(f(e.scale_attack).exp()),
        scale_release: s(f(e.scale_release).exp()),
    }
}

#[test]
fn levels_are_stored_per_band() {
    let mut levels = BandLevels::new();
    for b in 0..4 {
        assert_eq!(f(levels.load_energy(b)), 0.0);
        assert_eq!(f(levels.load_direction(b)), 0.0);
    }
    levels.store_energy(2, s(0.75));
    levels.store_direction(1, s(-0.5));
    assert_eq!(f(levels.load_energy(2)), 0.75);
    assert_eq!(f(levels.load_energy(1)), 0.0);
    assert_eq!(f(levels.load_direction(1)), -0.5);
    assert_eq!(f(levels.load_direction(2)), 0.0);
}

#[test]
fn exponents_of_a_frame() {
    let dt: f32 = 0.016;
    for sensitivity in [0.0f32, 0.3, 0.7, 1.0] {
        let e = exponents_of(s(sensitivity), s(dt));
        assert_eq!(f(e.direction), -dt / (0.060 - 0.050 * sensitivity));
        assert_eq!(f(e.attack), -dt / (0.045 - 0.035 * sensitivity));
        assert_eq!(f(e.release), -dt / (0.220 - 0.140 * sensitivity));
        assert_eq!(f(e.scale_attack), -dt / 0.10);
        assert_eq!(f(e.scale_release), -dt / 6.0);
    }
}

#[test]
fn long_frames_and_odd_speeds_are_bounded() {
    let long = exponents_of(s(0.5), s(7.0));
    assert_eq!(long, exponents_of(s(0.5), s(0.1)));
    assert_eq!(exponents_of(s(-3.0), s(0.01)), exponents_of(s(0.0), s(0.01)));
    assert_eq!(exponents_of(s(40.0), s(0.01)), exponents_of(s(1.0), s(0.01)));
}

#[test]
fn higher_speed_is_faster() {
    let slow = exponents_of(s(0.0), s(0.016));
    let fast = exponents_of(s(1.0), s(0.016));
    assert!(f(fast.direction) < f(slow.direction));
    assert!(f(fast.attack) < f(slow.attack));
    assert!(f(fast.release) < f(slow.release));
    assert_eq!(fast.scale_attack, slow.scale_attack);
}

#[test]
fn starts_silent() {
    let m = Smoothing::new();
    assert_eq!(m.direction, [s(0.0); 4]);
    assert_eq!(m.energy, [s(0.0); 4]);
    assert_eq!(f(m.scale), 0.5);
}

#[test]
fn follows_levels_as_native_numbers_do() {
    let mut m = Smoothing::new();
    let mut energy = [0.0f32; 4];
    let mut direction = [0.0f32; 4];
    let mut scale = 0.5f32;
    for step in 0..40 {
        let mut levels = BandLevels::new();
        let dt = 0.004 + 0.003 * (step % 7) as f32;
        let d = decays(0.7, dt);
        let (attack, release) = (1.0 - f(d.attack), 1.0 - f(d.release));
        let turn = 1.0 - f(d.direction);
        for b in 0..4 {
            let e = if (step / 5 + b) % 3 == 0 { 0.9 } else { 0.05 * b as f32 };
            let dir = if (step + b) % 2 == 0 { 1.0 } else { -0.3 };
            levels.store_energy(b, s(e));
            levels.store_direction(b, s(dir));
            let alpha = if e > energy[b] { attack } else { release };
            energy[b] += alpha * (e - energy[b]);
            direction[b] += turn * (dir - direction[b]);
        }
        let mut peak = 0.0f32;
        for e in energy {
            peak = peak.max(e);
        }
        let target = peak.max(0.15);
        let (grow, shrink) = (1.0 - f(d.scale_attack), 1.0 - f(d.scale_release));
        scale += if target > scale { grow } else { shrink } * (target - scale);
        m.advance(&levels, d);
        for b in 0..4 {
            assert_eq!(f(m.energy[b]), energy[b]);
            assert_eq!(f(m.direction[b]), direction[b]);
        }
        assert_eq!(f(m.scale), scale);
    }
}

#[test]
fn steady_sound_stays_and_no_time_moves_nothing() {
    let mut m = Smoothing::new();
    let mut levels = BandLevels::new();
    levels.store_energy(0, s(0.4));
    levels.store_direction(0, s(-0.8));
    for _ in 0..2000 {
        m.advance(&levels, decays(1.0, 0.1));
    }
    let settled = m;
    m.advance(&levels, decays(1.0, 0.1));
    assert_eq!(m.energy, settled.energy);
    assert_eq!(m.direction, settled.direction);

    let still = Decays {
        direction: s(1.0),
        attack: s(1.0),
        release: s(1.0),
        scale_attack: s(1.0),
        scale_release: s(1.0),
    };
    levels.store_energy(0, s(7.0));
    levels.store_direction(0, s(1.0));
    m.advance(&levels, still);
    assert_eq!(m.energy, settled.energy);
    assert_eq!(m.direction, settled.direction);
}

#[test]
fn values_move_towards_their_targets() {
    let mut m = Smoothing::new();
    let mut levels = BandLevels::new();
    levels.store_energy(3, s(1.0));
    levels.store_direction(3, s(1.0));
    let mut last = 0.0;
    for _ in 0..10 {
        m.advance(&levels, decays(0.5, 0.01));
        assert!(last < f(m.energy[3]) && f(m.energy[3]) <= 1.0);
        last = f(m.energy[3]);
    }
    levels.store_energy(3, s(0.0));
    m.advance(&levels, decays(0.5, 0.01));
    assert!(0.0 <= f(m.energy[3]) && f(m.energy[3]) < last);
}

#[test]
fn old_values_fade_at_every_speed() {
    for sensitivity in [-1.0f32, 0.0, 0.25, 0.5, 0.99, 1.0, 7.0] {
        for elapsed in [0.0f32, 1e-6, 0.016, 0.1, 3.0] {
            let e = exponents_of(s(sensitivity), s(elapsed));
            let all = [e.direction, e.attack, e.release, e.scale_attack, e.scale_release];
            assert!(all.iter().all(|x| f(*x) <= 0.0));
        }
    }
}

#[test]
fn time_constants_lie_between_their_ends() {
    let dt = 0.01f32;
    for i in 0..=20 {
        let e = exponents_of(s(i as f32 * 0.05), s(dt));
        let tau = -dt / f(e.direction);
        assert!((0.0099..=0.0601).contains(&tau));
        let tau = -dt / f(e.attack);
        assert!((0.0099..=0.0451).contains(&tau));
        let tau = -dt / f(e.release);
        assert!((0.0799..=0.2201).contains(&tau));
    }
}

#[test]
fn values_do_not_pass_their_targets() {
    let cases = [
        (0.0f32, 1.0f32),
        (1.0, 0.0),
        (-1.0, 1.5 / 16777216.0),
        (0.3, 0.30000004),
        (0.0, f32::from_bits(1)),
        (-2.5, 1e30),
        (1e-40, -1e-41),
    ];
    for (from, to) in cases {
        let mut last = f64::INFINITY;
        for decay in [1.0f32, 0.9, 0.5, 1e-3, 4.6e-5, 1.0 / 4194304.0] {
            let mut m = Smoothing::new();
            m.direction[0] = s(from);
            let mut levels = BandLevels::new();
            levels.store_direction(0, s(to));
            let mut d = decays(0.5, 0.01);
            d.direction = s(decay);
            m.advance(&levels, d);
            let e = f(m.direction[0]);
            assert!(from.min(to) <= e && e <= from.max(to));
            let left = (to as f64 - e as f64).abs();
            assert!(left <= last);
            last = left;
        }
    }
}

#[test]
fn without_a_decay_a_target_may_be_passed() {
    let mut m = Smoothing::new();
    m.direction[0] = s(-1.0);
    let mut levels = BandLevels::new();
    let target = 1.5f32 / 16777216.0;
    levels.store_direction(0, s(target));
    let mut d = decays(0.5, 0.01);
    d.direction = s(0.0);
    m.advance(&levels, d);
    assert!(f(m.direction[0]) > target);
}

#[test]
fn higher_speed_ends_nearer() {
    let mut levels = BandLevels::new();
    levels.store_energy(1, s(0.8));
    levels.store_direction(1, s(-0.6));
    levels.store_energy(2, s(0.0));
    let mut last = [f32::INFINITY; 3];
    for i in 0..=10 {
        let mut m = Smoothing::new();
        m.energy[2] = s(0.9);
        m.advance(&levels, decays(i as f32 * 0.1, 0.016));
        let left =
            [0.8 - f(m.energy[1]), f(m.direction[1]) + 0.6, f(m.energy[2])];
        for k in 0..3 {
            assert!(0.0 <= left[k] && left[k] <= last[k]);
        }
        last = left;
    }
}

#[test]
fn exponents_are_bounded() {
    for i in 0..=20 {
        for elapsed in [0.0f32, 0.02, 0.1, 9.0, f32::INFINITY] {
            let e = exponents_of(s(i as f32 * 0.05), s(elapsed));
            for x in [e.direction, e.attack, e.release, e.scale_attack, e.scale_release] {
                assert!(-11.0 <= f(x) && f(x) <= 0.0);
            }
        }
    }
}
