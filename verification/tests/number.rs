use sound_dir::number::single::Single;

fn s(x: f32) -> Single {
    Single { bits: x.to_bits() }
}

fn f(x: Single) -> f32 {
    f32::from_bits(x.bits)
}

/// Same number; any NaN stands for every other.
fn agrees(ours: Single, native: f32) -> bool {
    if native.is_nan() {
        f(ours).is_nan()
    } else {
        ours.bits == native.to_bits()
    }
}

/// A fixed stream of bit patterns.
struct Stream(u64);

impl Stream {
    fn next(&mut self) -> u32 {
        self.0 ^= self.0 << 13;
        self.0 ^= self.0 >> 7;
        self.0 ^= self.0 << 17;
        (self.0 >> 16) as u32
    }
}

fn special() -> Vec<f32> {
    vec![
        0.0,
        -0.0,
        1.0,
        -1.0,
        0.5,
        1.5,
        2.0,
        3.0,
        0.1,
        -0.1,
        16777215.0,
        16777216.0,
        f32::MAX,
        -f32::MAX,
        f32::MIN_POSITIVE,
        f32::from_bits(1),
        f32::from_bits(0x8000_0001),
        f32::from_bits(0x007f_ffff),
        f32::from_bits(0x0080_0001),
        f32::INFINITY,
        f32::NEG_INFINITY,
        f32::NAN,
        f32::EPSILON,
        1.0e-20,
        -3.0e-30,
        7.0e25,
    ]
}

fn pairs() -> Vec<(f32, f32)> {
    let mut out = Vec::new();
    for &a in &special() {
        for &b in &special() {
            out.push((a, b));
        }
    }
    let mut r = Stream(0x9e37_79b9_7f4a_7c15);
    for _ in 0..200_000 {
        let a = r.next();
        let b = r.next();
        out.push((f32::from_bits(a), f32::from_bits(b)));
        // near exponents, where cancellation and ties happen
        let c = (b & 0x807f_ffff) | (a & 0x7f80_0000);
        out.push((f32::from_bits(a), f32::from_bits(c)));
        let d = c.wrapping_add((b % 27) << 23);
        out.push((f32::from_bits(a), f32::from_bits(d)));
        // few significant bits, so that ties are frequent
        out.push((f32::from_bits(a & 0xfff0_0000), f32::from_bits(d & 0xffff_f001)));
    }
    out
}

#[test]
fn sums_agree_with_the_machine() {
    for (a, b) in pairs() {
        assert!(agrees(s(a).plus(s(b)), a + b), "{} + {}", a, b);
        assert!(agrees(s(a).minus(s(b)), a - b), "{} - {}", a, b);
    }
}

#[test]
fn products_agree_with_the_machine() {
    for (a, b) in pairs() {
        assert!(agrees(s(a).times(s(b)), a * b), "{} * {}", a, b);
    }
}

#[test]
fn quotients_agree_with_the_machine() {
    for (a, b) in pairs() {
        assert!(agrees(s(a).over(s(b)), a / b), "{} / {}", a, b);
    }
}

#[test]
fn roots_agree_with_the_machine() {
    for (a, b) in pairs() {
        assert!(agrees(s(a).sqrt(), a.sqrt()), "sqrt {}", a);
        assert!(agrees(s(b.abs()).sqrt(), b.abs().sqrt()), "sqrt {}", b.abs());
    }
}

#[test]
fn comparisons_agree_with_the_machine() {
    for (a, b) in pairs() {
        assert_eq!(s(a).lt(s(b)), a < b, "{} < {}", a, b);
        assert_eq!(s(a).le(s(b)), a <= b, "{} <= {}", a, b);
        if !a.is_nan() || !b.is_nan() {
            assert!(f(s(a).max(s(b))) == a.max(b), "max {} {}", a, b);
            assert!(f(s(a).min(s(b))) == a.min(b), "min {} {}", a, b);
        }
        assert_eq!(f(s(a).abs()).to_bits(), a.abs().to_bits());
        assert_eq!(f(s(a).neg()).to_bits(), (-a).to_bits());
        if a <= b {
            assert!(agrees(s(0.5).clamp(s(a), s(b)), 0.5f32.clamp(a, b)));
            assert!(agrees(s(f32::NAN).clamp(s(a), s(b)), f32::NAN));
        }
    }
}

#[test]
fn conversions_agree_with_the_machine() {
    for (a, b) in pairs() {
        for x in [a, b] {
            assert_eq!(s(x).to_u8(), x as u8, "{} as u8", x);
            assert_eq!(s(x).to_usize(), x as usize, "{} as usize", x);
            assert_eq!(s(x).ceil_to_usize(), x.ceil() as usize, "ceil {}", x);
        }
        let n = a.to_bits() >> (b.to_bits() % 32);
        assert_eq!(Single::from_u32(n).bits, (n as f32).to_bits(), "{}", n);
    }
    for v in i16::MIN..=i16::MAX {
        assert_eq!(Single::from_i16(v).bits, (v as f32).to_bits(), "{}", v);
    }
    assert_eq!(Single::from_u32(u32::MAX).bits, (u32::MAX as f32).to_bits());
}

#[test]
fn small_terms_are_lost() {
    let big = s(1073741824.0);
    assert_eq!(big.plus(s(63.0)), big);
    assert_eq!(big.minus(s(31.0)), big);
    assert_ne!(big.plus(s(65.0)), big);
    assert_ne!(big.minus(s(33.0)), big);
}
