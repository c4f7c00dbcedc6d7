use sound_dir::color::{band_color, with_alpha, Rgba};
use sound_dir::layout::{
    alpha_of_ball, count_shown, edges_of, energy_share, lay_tracks, radius_of_ball, range_of_ball,
    smoothstep, x_of_ball, Edges,
};
use sound_dir::number::single::Single;
use sound_dir::paint::{paint_glass_strip, paint_strip, resize_handle, Scene, Shape};
use sound_dir::settings::Placement;

fn s(x: f32) -> Single {
    Single { bits: x.to_bits() }
}

fn f(x: Single) -> f32 {
    f32::from_bits(x.bits)
}

fn edges(left: f32, top: f32, right: f32, bottom: f32) -> Edges {
    Edges { left: s(left), top: s(top), right: s(right), bottom: s(bottom) }
}

fn placement(x: f32, y: f32, width: f32, height: f32) -> Placement {
    Placement { x: s(x), y: s(y), width: s(width), height: s(height) }
}

fn scene(p: Placement, show: [bool; 4], energy: [f32; 4], direction: [f32; 4]) -> Scene {
    Scene {
        strip: edges_of(p.x, p.y, p.width, p.height),
        tracks: lay_tracks(p, &show),
        show_band: show,
        opacity: s(0.95),
        ball_size: s(1.0),
        direction: direction.map(s),
        energy: energy.map(s),
        scale: s(0.5),
    }
}

fn line(x0: f32, y0: f32, x1: f32, y1: f32, width: f32, color: Rgba) -> Shape {
    Shape::Line { x0: s(x0), y0: s(y0), x1: s(x1), y1: s(y1), width: s(width), color }
}

fn pale(a: u8) -> Rgba {
    Rgba { r: 255, g: 255, b: 255, a }
}

#[test]
fn step_is_smooth() {
    assert_eq!(f(smoothstep(s(0.0), s(1.0), s(-1.0))), 0.0);
    assert_eq!(f(smoothstep(s(0.0), s(1.0), s(2.0))), 1.0);
    assert_eq!(f(smoothstep(s(0.0), s(1.0), s(0.5))), 0.5);
    for (e0, e1, x) in [(0.2f32, 0.8f32, 0.3f32), (-1.0, 3.0, 0.7), (5.0, 1.0, 2.0)] {
        let t = ((x - e0) / (e1 - e0)).clamp(0.0, 1.0);
        assert_eq!(f(smoothstep(s(e0), s(e1), s(x))), t * t * (3.0 - 2.0 * t));
    }
}

#[test]
fn shown_bands_are_counted() {
    assert_eq!(count_shown(&[true; 4]), 4);
    assert_eq!(count_shown(&[false, true, false, false]), 1);
    assert_eq!(count_shown(&[false; 4]), 0);
}

#[test]
fn tracks_of_the_default_strip() {
    let t = lay_tracks(placement(650.0, 16.0, 620.0, 116.0), &[true; 4]);
    assert_eq!(f(t.height), 20.0);
    assert_eq!(f(t.length), 584.0);
    assert_eq!(f(t.left), 668.0);
    assert_eq!(f(t.top), 28.0);
    assert_eq!(f(t.max_radius), 20.0f32 * 0.45);
}

#[test]
fn tracks_have_bounded_heights() {
    let low = lay_tracks(placement(0.0, 0.0, 280.0, 60.0), &[true; 4]);
    assert_eq!(f(low.height), 8.0);
    assert_eq!(f(low.max_radius), 8.0f32 * 0.45);
    let high = lay_tracks(placement(0.0, 0.0, 280.0, 240.0), &[true, false, false, false]);
    assert_eq!(f(high.height), 36.0);
    assert_eq!(f(high.max_radius), 16.0);
    let none = lay_tracks(placement(0.0, 0.0, 280.0, 60.0), &[false; 4]);
    assert_eq!(f(none.height), 36.0);
}

#[test]
fn tracks_have_a_least_length() {
    let t = lay_tracks(placement(0.0, 0.0, 90.0, 60.0), &[true; 4]);
    assert_eq!(f(t.length), 80.0);
}

#[test]
fn balls_are_not_larger_than_their_tracks() {
    for height in [60.0, 61.5, 90.0, 116.0, 240.0] {
        for show in [[true; 4], [true, true, false, false], [false; 4]] {
            let t = lay_tracks(placement(0.0, 0.0, 620.0, height), &show);
            assert!(2.0 * f(t.max_radius) <= f(t.height));
        }
    }
}

#[test]
fn shares_lie_between_nothing_and_all() {
    assert_eq!(f(energy_share(s(0.25), s(0.5))), 0.5);
    assert_eq!(f(energy_share(s(7.0), s(0.5))), 1.0);
    assert_eq!(f(energy_share(s(-1.0), s(0.5))), 0.0);
    assert_eq!(f(energy_share(s(0.0005), s(0.0))), 0.0005f32 / 1e-3);
}

#[test]
fn size_and_alpha_of_a_ball() {
    let share = 0.36f32;
    assert_eq!(f(radius_of_ball(s(share), s(1.0), s(16.0))), 3.5 + 6.0 * share.sqrt());
    assert_eq!(f(radius_of_ball(s(share), s(9.0), s(16.0))), 16.0);
    let native = ((180.0 + 75.0 * share) * 0.95f32).clamp(0.0, 255.0) as u8;
    assert_eq!(alpha_of_ball(s(share), s(0.95)), native);
    assert_eq!(alpha_of_ball(s(1.0), s(1.0)), 255);
    assert_eq!(alpha_of_ball(s(1.0), s(3.0)), 255);
    assert_eq!(alpha_of_ball(s(1.0), s(-3.0)), 0);
}

#[test]
fn ball_follows_the_direction() {
    let p = placement(650.0, 16.0, 620.0, 116.0);
    let strip = edges_of(p.x, p.y, p.width, p.height);
    let t = lay_tracks(p, &[true; 4]);
    let at = |d: f32, r: f32| f(x_of_ball(strip, t, s(d), s(r)));
    assert_eq!(at(0.0, 5.0), 960.0);
    assert_eq!(at(-1.0, 5.0), 668.0);
    assert_eq!(at(1.0, 5.0), 1252.0);
    assert_eq!(at(-8.0, 5.0), at(-1.0, 5.0));
    assert_eq!(at(0.5, 5.0), 668.0 + 584.0 * 0.75);
    let mut last = 0.0;
    for i in 0..=40 {
        let x = at(-1.0 + i as f32 * 0.05, 9.0);
        assert!(last <= x);
        last = x;
    }
}

#[test]
fn ball_keeps_off_the_edges() {
    let strip = edges(100.0, 0.0, 200.0, 50.0);
    let t = lay_tracks(placement(100.0, 0.0, 100.0, 60.0), &[true; 4]);
    let (lo, hi) = range_of_ball(strip, s(30.0));
    assert_eq!((f(lo), f(hi)), (132.0, 168.0));
    assert_eq!(f(x_of_ball(strip, t, s(-1.0), s(30.0))), 132.0);
    assert_eq!(f(x_of_ball(strip, t, s(1.0), s(30.0))), 168.0);
}

#[test]
fn ground_of_the_strip() {
    let strip = edges(10.0, 20.0, 300.0, 100.0);
    for (opacity, alpha) in [(0.95f32, 161), (1.0, 170), (0.5, 85), (0.0, 34), (9.0, 170)] {
        assert_eq!(
            paint_glass_strip(strip, s(opacity), false),
            vec![Shape::Fill {
                edges: strip,
                rounding: s(4.0),
                color: Rgba { r: 10, g: 11, b: 13, a: alpha },
            }]
        );
    }
}

#[test]
fn corners_mark_an_edited_strip() {
    let shapes = paint_glass_strip(edges(10.0, 20.0, 300.0, 100.0), s(1.0), true);
    let c = pale(200);
    assert_eq!(
        shapes[1..].to_vec(),
        vec![
            line(10.0, 20.0, 24.0, 20.0, 1.5, c),
            line(10.0, 20.0, 10.0, 34.0, 1.5, c),
            line(300.0, 20.0, 286.0, 20.0, 1.5, c),
            line(300.0, 20.0, 300.0, 34.0, 1.5, c),
            line(10.0, 100.0, 24.0, 100.0, 1.5, c),
            line(10.0, 100.0, 10.0, 86.0, 1.5, c),
            line(300.0, 100.0, 286.0, 100.0, 1.5, c),
            line(300.0, 100.0, 300.0, 86.0, 1.5, c),
        ]
    );
}

#[test]
fn shapes_of_a_locked_strip() {
    let p = placement(650.0, 16.0, 620.0, 116.0);
    let sc = scene(p, [true, false, true, true], [0.5, 0.5, 0.005, 0.0], [1.0, 0.0, 0.0, 0.0]);
    assert!(sc.balls_fit());
    let shapes = paint_strip(&sc, false);
    let h = ((92.0f32 - 8.0) / 3.0).clamp(8.0, 36.0);
    let y0 = 28.0 + h * 0.5;
    let y1 = 28.0 + (h + 4.0) + h * 0.5;
    let y2 = 28.0 + (h + 4.0) + (h + 4.0) + h * 0.5;
    let r = (3.5f32 + 6.0).min((h * 0.45).min(16.0));
    let alpha = ((180.0f32 + 75.0) * 0.95) as u8;
    assert_eq!(
        shapes,
        vec![
            Shape::Fill {
                edges: edges(650.0, 16.0, 1270.0, 132.0),
                rounding: s(4.0),
                color: Rgba { r: 10, g: 11, b: 13, a: 161 },
            },
            line(960.0, 26.0, 960.0, 122.0, 1.0, pale(55)),
            line(668.0, y0, 1252.0, y0, 1.0, with_alpha(band_color(0), 32)),
            Shape::Disc {
                x: s(1252.0),
                y: s(y0),
                radius: s(r),
                color: with_alpha(band_color(0), alpha),
            },
            line(668.0, y1, 1252.0, y1, 1.0, with_alpha(band_color(2), 32)),
            line(668.0, y2, 1252.0, y2, 1.0, with_alpha(band_color(3), 32)),
        ]
    );
}

#[test]
fn handle_of_an_edited_strip() {
    let p = placement(100.0, 50.0, 300.0, 80.0);
    let sc = scene(p, [false; 4], [0.0; 4], [0.0; 4]);
    assert_eq!(resize_handle(sc.strip), edges(382.0, 112.0, 398.0, 128.0));
    let shapes = paint_strip(&sc, true);
    let n = shapes.len();
    assert_eq!(n, 9 + 1 + 3);
    let c = pale(200);
    assert_eq!(
        shapes[n - 3..].to_vec(),
        vec![
            line(397.0, 127.0, 397.0, 127.0, 1.5, c),
            line(393.0, 127.0, 397.0, 123.0, 1.5, c),
            line(389.0, 127.0, 397.0, 119.0, 1.5, c),
        ]
    );
}

#[test]
fn hidden_bands_are_not_seen() {
    let p = placement(100.0, 50.0, 300.0, 80.0);
    let show = [true, false, true, false];
    let a = scene(p, show, [0.3, 0.0, 0.4, 0.0], [0.1, 0.0, -0.5, 0.0]);
    let b = scene(p, show, [0.3, 0.5, 0.4, 0.2], [0.1, -1.0, -0.5, 1.0]);
    assert_eq!(paint_strip(&a, false), paint_strip(&b, false));
    let none = scene(p, [false; 4], [0.5; 4], [0.0; 4]);
    assert_eq!(paint_strip(&none, false).len(), 2);
}

#[test]
fn placed_balls_fit_and_stay_on_the_strip() {
    for width in [280.0f32, 620.0, 1600.0] {
        for height in [60.0f32, 116.0, 240.0] {
            for x in [0.0f32, 0.1, 333.3, 5000.7] {
                let p = placement(x, 10.0, width, height);
                for d in [-1.0, 0.3, 1.0] {
                    let mut sc = scene(p, [true; 4], [0.5; 4], [d; 4]);
                    sc.ball_size = s(2.0);
                    assert!(sc.balls_fit());
                    for shape in paint_strip(&sc, false) {
                        if let Shape::Disc { x: cx, radius, .. } = shape {
                            assert!(f(cx) - f(radius) >= x);
                            assert!(f(cx) + f(radius) <= x + width);
                        }
                    }
                }
            }
        }
    }
}

#[test]
fn narrow_strips_have_no_room_for_large_balls() {
    let p = placement(0.0, 0.0, 280.0, 240.0);
    let mut sc = scene(p, [true, false, false, false], [0.5; 4], [0.0; 4]);
    sc.ball_size = s(2.0);
    sc.strip = edges(0.0, 0.0, 20.0, 240.0);
    assert!(!sc.balls_fit());
    sc.energy = [s(0.0); 4];
    assert!(sc.balls_fit());
}

#[test]
fn balls_stay_within_the_height_of_the_strip() {
    for height in [60.0f32, 60.5, 75.3, 116.0, 240.0] {
        for y in [0.0f32, 16.0, 1000.7, 900000.0] {
            for show in [[true; 4], [true, true, true, false], [false, true, false, false]] {
                let p = placement(5.0, y, 620.0, height);
                let mut sc = scene(p, show, [0.5; 4], [0.0; 4]);
                sc.ball_size = s(9.0);
                let mut balls = 0;
                for shape in paint_strip(&sc, false) {
                    if let Shape::Disc { y: cy, radius, .. } = shape {
                        assert!(f(cy) - f(radius) >= y);
                        assert!(f(cy) + f(radius) <= y + height);
                        balls += 1;
                    }
                }
                assert_eq!(balls, count_shown(&show));
            }
        }
    }
}

#[test]
fn balls_fit_wherever_the_strip_is_placed() {
    for x in [0.0f32, 5.3e8, 536870912.0, 1.07e9, 4.3e9, 1e12, 1e30, f32::MAX] {
        for width in [280.0f32, 281.7, 1600.0] {
            for ball_size in [1.0f32, 2.0, 1e9, 0.0, -3.0, f32::NEG_INFINITY, f32::NAN] {
                let p = placement(x, 10.0, width, 240.0);
                let mut sc = scene(p, [true, false, false, false], [0.5; 4], [0.0; 4]);
                sc.ball_size = s(ball_size);
                assert!(sc.balls_fit());
            }
        }
    }
}

/// How far a ball of a sound from neither side is from the middle line.
fn off_the_middle(x: f32, width: f32, r: f32) -> f32 {
    let p = placement(x, 0.0, width, 100.0);
    let strip = edges_of(p.x, p.y, p.width, p.height);
    let ball = f(x_of_ball(strip, lay_tracks(p, &[true; 4]), s(0.0), s(r)));
    (ball - (x + (x + width)) / 2.0).abs()
}

#[test]
fn ball_of_neither_side_is_in_the_middle() {
    assert_eq!(off_the_middle(650.0, 620.0, 9.0), 0.0);
    for i in 0..400 {
        let width = 280.0 + i as f32 * 3.3;
        for x in [0.0f32, 0.3, 1000.7, 65536.4, 4194304.0, 8387000.5 - width] {
            assert!(off_the_middle(x, width, 16.0) < 1.0);
        }
        for x in [8388608.0f32 - 100.0, 8388608.0, 12345678.0, 16775000.0] {
            assert!(off_the_middle(x, width, 3.5) <= 1.0);
        }
    }
    assert_eq!(off_the_middle(8388608.0, 281.4, 9.0), 1.0);
}
