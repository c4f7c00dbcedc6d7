use sound_dir::color::{band_color, opaque, with_alpha, Rgba};

#[test]
fn band_colors() {
    assert_eq!(band_color(0), Rgba { r: 80, g: 170, b: 255, a: 255 });
    assert_eq!(band_color(1), Rgba { r: 80, g: 240, b: 130, a: 255 });
    assert_eq!(band_color(2), Rgba { r: 255, g: 110, b: 50, a: 255 });
    assert_eq!(band_color(3), Rgba { r: 255, g: 230, b: 90, a: 255 });
    assert_eq!(band_color(9), band_color(3));
}

#[test]
fn alpha_scales_channels_down() {
    let c = with_alpha(band_color(0), 32);
    assert_eq!(c, Rgba { r: 10, g: 21, b: 32, a: 32 });
    assert_eq!(with_alpha(opaque(255, 1, 128), 254), Rgba { r: 254, g: 0, b: 127, a: 254 });
}

#[test]
fn alpha_of_the_color_itself_is_ignored() {
    let c = Rgba { r: 200, g: 100, b: 50, a: 7 };
    assert_eq!(with_alpha(c, 255), Rgba { r: 200, g: 100, b: 50, a: 255 });
}

#[test]
fn ends_of_the_fade() {
    for b in 0..4 {
        assert_eq!(with_alpha(band_color(b), 255), band_color(b));
        assert_eq!(with_alpha(band_color(b), 0), Rgba { r: 0, g: 0, b: 0, a: 0 });
    }
}

#[test]
fn faded_colors_are_premultiplied() {
    for b in 0..4 {
        for a in 0..=255u8 {
            let c = with_alpha(band_color(b), a);
            assert!(c.r <= a && c.g <= a && c.b <= a && c.a == a);
        }
    }
}
