use sound_dir::display::{window_size, Display};
use sound_dir::number::single::Single;

fn s(x: f32) -> Single {
    Single { bits: x.to_bits() }
}

fn display(width: u32, height: u32, scale: f32, is_primary: bool) -> Display {
    Display { width, height, scale_factor: s(scale), is_primary }
}

#[test]
fn no_display_falls_back() {
    assert_eq!(window_size(&vec![]), (s(1920.0), s(1080.0)));
}

#[test]
fn first_primary_display_is_taken() {
    let displays = vec![
        display(800, 600, 1.0, false),
        display(2560, 1440, 1.25, true),
        display(3840, 2160, 2.0, true),
    ];
    assert_eq!(window_size(&displays), (s(2560.0 / 1.25), s(1440.0 / 1.25)));
}

#[test]
fn first_display_is_taken_without_a_primary() {
    let displays = vec![display(800, 600, 1.5, false), display(2560, 1440, 1.0, false)];
    assert_eq!(window_size(&displays), (s(800.0 / 1.5), s(400.0)));
}

#[test]
fn scale_factor_that_is_not_positive_counts_as_one() {
    for scale in [0.0, -0.0, -2.0, f32::NAN] {
        let displays = vec![display(1366, 768, scale, true)];
        assert_eq!(window_size(&displays), (s(1366.0), s(768.0)));
    }
}
