use sound_dir::analyzer::{HOP_SIZE, LARGEST_SAMPLE, LAST_SAMPLE, PI};
use sound_dir::bands::{
    HALF_SPECTRUM, HZ_10000, HZ_20, HZ_200, HZ_2000, HZ_5000, LEAST_BIN, SPECTRUM, TINY,
};
use sound_dir::bounds::{HALF_RANGE, LARGE_KEPT, LARGE_MAG, LARGE_SCALE, LARGE_TAKEN};
use sound_dir::channel::{FFT_SIZE, NUM_BINS, PCEN_S};
use sound_dir::display::{FALLBACK_HEIGHT, FALLBACK_WIDTH};
use sound_dir::easing::{ELEVEN, LEAST_DECAY, LONG_TIME, MINUS_ELEVEN, SHORT_CONSTANT};
use sound_dir::gain::{PCEN_ALPHA, PCEN_DELTA, PCEN_EPS, PCEN_R, REST};
use sound_dir::layout::{
    ALPHA_GROWTH, BALL_GROWTH, BALL_SHARE, FAINT, FAINTEST_BALL, FULL_ALPHA, MAX_TRACK, MIN_SCALE,
    MIN_TRACK_LENGTH, SMALLEST_BALL, THREE,
};
use sound_dir::middle::{BOTH_ENDS, WHOLE_FROM};
use sound_dir::number::constants::{
    EIGHT, EIGHTEEN, FOUR, FOURTEEN, HALF, MINUS_ONE, ONE, ONE_AND_HALF, SIXTEEN, TEN, TWELVE,
    TWENTY_FOUR, TWO,
};
use sound_dir::overlay::PASSTHROUGH_FRAME;
use sound_dir::paint::{GROUND_ALPHA, MIN_OPACITY};
use sound_dir::range::LARGE_GAIN;
use sound_dir::room::{FAR, NEXT_FAR};
use sound_dir::settings::{
    CLOSE, DEFAULT_HEIGHT, DEFAULT_OPACITY, DEFAULT_SENSITIVITY, DEFAULT_WIDTH, MAX_HEIGHT,
    MAX_SLIDER_WIDTH, MAX_WIDTH, MIN_HEIGHT, MIN_WIDTH,
};
use sound_dir::smoothing::{
    ATTACK_SLOW, ATTACK_SPAN, DIRECTION_SLOW, DIRECTION_SPAN, LEAST_SCALE, LONGEST_FRAME,
    RELEASE_SLOW, RELEASE_SPAN, SCALE_ATTACK, SCALE_RELEASE,
};
use sound_dir::tray::{DOT_SHARE, OUTER_SHARE, RING_SHARE};

fn f(bits: u32) -> f32 {
    f32::from_bits(bits)
}

#[test]
fn round_numbers() {
    assert_eq!(f(HALF), 0.5);
    assert_eq!(f(ONE), 1.0);
    assert_eq!(f(MINUS_ONE), -1.0);
    assert_eq!(f(ONE_AND_HALF), 1.5);
    assert_eq!(f(TWO), 2.0);
    assert_eq!(f(THREE), 3.0);
    assert_eq!(f(FOUR), 4.0);
    assert_eq!(f(EIGHT), 8.0);
    assert_eq!(f(TEN), 10.0);
    assert_eq!(f(TWELVE), 12.0);
    assert_eq!(f(FOURTEEN), 14.0);
    assert_eq!(f(SIXTEEN), 16.0);
    assert_eq!(f(EIGHTEEN), 18.0);
    assert_eq!(f(TWENTY_FOUR), 24.0);
}

#[test]
fn numbers_of_the_analysis() {
    assert_eq!(FFT_SIZE, 1024);
    assert_eq!(NUM_BINS, FFT_SIZE / 2 + 1);
    assert_eq!(HOP_SIZE, 256);
    assert_eq!(f(SPECTRUM), FFT_SIZE as f32);
    assert_eq!(f(LAST_SAMPLE), (FFT_SIZE - 1) as f32);
    assert_eq!(f(HALF_SPECTRUM), (NUM_BINS - 1) as f32);
    assert_eq!(f(LEAST_BIN), 10000.0 / 1024.0);
    assert_eq!(f(HZ_20), 20.0);
    assert_eq!(f(HZ_200), 200.0);
    assert_eq!(f(HZ_2000), 2000.0);
    assert_eq!(f(HZ_5000), 5000.0);
    assert_eq!(f(HZ_10000), 10000.0);
    assert_eq!(f(TINY), 1e-9);
    assert_eq!(f(PI), std::f32::consts::PI);
    assert_eq!(f(PCEN_S), 0.025);
    assert_eq!(f(PCEN_EPS), 1e-6);
    assert_eq!(f(PCEN_ALPHA), 0.98);
    assert_eq!(f(PCEN_DELTA), 2.0);
    assert_eq!(f(PCEN_R), 0.5);
    assert_eq!(f(REST), 1.0 - 0.025);
    assert_eq!(f(LARGE_GAIN), 1099511627776.0);
    assert_eq!(f(LARGEST_SAMPLE), i16::MAX as f32);
}

#[test]
fn numbers_of_the_strip() {
    assert_eq!(f(MAX_TRACK), 36.0);
    assert_eq!(f(MIN_TRACK_LENGTH), 80.0);
    assert_eq!(f(BALL_SHARE), 0.45);
    assert_eq!(f(MIN_SCALE), 1e-3);
    assert_eq!(f(FAINT), 0.02);
    assert_eq!(f(SMALLEST_BALL), 3.5);
    assert_eq!(f(BALL_GROWTH), 6.0);
    assert_eq!(f(FAINTEST_BALL), 180.0);
    assert_eq!(f(ALPHA_GROWTH), 75.0);
    assert_eq!(f(FULL_ALPHA), 255.0);
    assert_eq!(f(MIN_OPACITY), 0.20);
    assert_eq!(f(GROUND_ALPHA), 170.0);
    assert_eq!(f(OUTER_SHARE), 0.46);
    assert_eq!(f(RING_SHARE), 0.18);
    assert_eq!(f(DOT_SHARE), 0.55);
}

#[test]
fn numbers_of_the_settings() {
    assert_eq!(f(DEFAULT_WIDTH), 620.0);
    assert_eq!(f(DEFAULT_HEIGHT), 116.0);
    assert_eq!(f(DEFAULT_OPACITY), 0.95);
    assert_eq!(f(DEFAULT_SENSITIVITY), 0.7);
    assert_eq!(f(MIN_WIDTH), 280.0);
    assert_eq!(f(MAX_WIDTH), 1600.0);
    assert_eq!(f(MAX_SLIDER_WIDTH), 1400.0);
    assert_eq!(f(FAR), 536870912.0);
    assert_eq!(f(NEXT_FAR), 536870976.0);
    assert_eq!(f(MIN_HEIGHT), 60.0);
    assert_eq!(f(MAX_HEIGHT), 240.0);
    assert_eq!(f(CLOSE), 0.001);
    assert_eq!(f(FALLBACK_WIDTH), 1920.0);
    assert_eq!(f(FALLBACK_HEIGHT), 1080.0);
    assert_eq!(PASSTHROUGH_FRAME, 5);
}

#[test]
fn numbers_of_the_smoothing() {
    assert_eq!(f(LONGEST_FRAME), 0.1);
    assert_eq!(f(DIRECTION_SLOW), 0.060);
    assert_eq!(f(DIRECTION_SPAN), 0.050);
    assert_eq!(f(ATTACK_SLOW), 0.045);
    assert_eq!(f(ATTACK_SPAN), 0.035);
    assert_eq!(f(RELEASE_SLOW), 0.220);
    assert_eq!(f(RELEASE_SPAN), 0.140);
    assert_eq!(f(SCALE_ATTACK), 0.10);
    assert_eq!(f(SCALE_RELEASE), 6.0);
    assert_eq!(f(LEAST_SCALE), 0.15);
    assert_eq!(f(ELEVEN), 11.0);
    assert_eq!(f(MINUS_ELEVEN), -11.0);
    assert_eq!(f(LEAST_DECAY), 1.0 / 4194304.0);
    assert!(f(LEAST_DECAY) < (-11.0f32).exp());
    assert_eq!(f(SHORT_CONSTANT), 0.009765625);
    assert_eq!(f(LONG_TIME), 0.107421875);
}

#[test]
fn numbers_of_the_laws() {
    assert_eq!(f(BOTH_ENDS), 36.0);
    assert_eq!(f(WHOLE_FROM), 8388608.0);
    assert_eq!(f(HALF_RANGE), 16384.0);
    assert_eq!(f(LARGE_SCALE), 1.0 / 16384.0);
    assert_eq!(f(LARGE_MAG), 1048576.0);
    assert_eq!(f(LARGE_KEPT), (1.0 - 0.025f32) * 1048576.0);
    assert_eq!(f(LARGE_KEPT), 1022361.625);
    assert_eq!(f(LARGE_TAKEN), 0.025f32 * 1048576.0);
}
