use sound_dir::hotkey::HotkeyDef;
use sound_dir::number::single::Single;
use sound_dir::settings::{dragged, place, resized, settings_eq, Edit, Placement, Settings};

fn s(x: f32) -> Single {
    Single { bits: x.to_bits() }
}

fn f(x: Single) -> f32 {
    f32::from_bits(x.bits)
}

fn placement(x: f32, y: f32, width: f32, height: f32) -> Placement {
    Placement { x: s(x), y: s(y), width: s(width), height: s(height) }
}

#[test]
fn default_settings() {
    let d = Settings::default();
    assert_eq!(f(d.pos_x), -1.0);
    assert_eq!(f(d.pos_y), 16.0);
    assert_eq!(f(d.width), 620.0);
    assert_eq!(f(d.height), 116.0);
    assert_eq!(f(d.opacity), 0.95);
    assert_eq!(f(d.ball_size), 1.0);
    assert_eq!(f(d.sensitivity), 0.7);
    assert_eq!(d.show_band, [true; 4]);
    assert!(d.hotkey.same(&HotkeyDef::default()));
}

#[test]
fn settings_equal_themselves_and_their_copies() {
    let d = Settings::default();
    assert!(settings_eq(&d, &d));
    assert!(settings_eq(&d, &d.copy()));
    assert!(settings_eq(&d.copy(), &d));
}

#[test]
fn small_changes_are_none() {
    let a = Settings::default();
    let mut b = a.copy();
    b.pos_y = s(16.0005);
    assert!(settings_eq(&a, &b));
    assert!(settings_eq(&b, &a));
    b.pos_y = s(16.002);
    assert!(!settings_eq(&a, &b));
    assert!(!settings_eq(&b, &a));
}

#[test]
fn every_part_counts() {
    let a = Settings::default();
    let change: [fn(&mut Settings); 9] = [
        |b| b.pos_x = s(0.0),
        |b| b.pos_y = s(17.0),
        |b| b.width = s(621.0),
        |b| b.height = s(115.0),
        |b| b.opacity = s(0.5),
        |b| b.ball_size = s(2.0),
        |b| b.sensitivity = s(0.0),
        |b| b.show_band[2] = false,
        |b| b.hotkey.shift = true,
    ];
    for c in change {
        let mut b = a.copy();
        c(&mut b);
        assert!(!settings_eq(&a, &b));
    }
}

#[test]
fn settings_that_are_no_numbers_never_equal() {
    for x in [f32::NAN, f32::INFINITY] {
        let mut a = Settings::default();
        a.opacity = s(x);
        assert!(!settings_eq(&a, &a.copy()));
    }
}

#[test]
fn negative_position_is_the_middle() {
    let p = place(placement(-1.0, 16.0, 620.0, 116.0), s(1920.0), s(1080.0));
    assert_eq!(p, placement(650.0, 16.0, 620.0, 116.0));
}

#[test]
fn strip_is_kept_on_the_screen() {
    let p = place(placement(5000.0, 5000.0, 620.0, 116.0), s(1920.0), s(1080.0));
    assert_eq!(p, placement(1300.0, 940.0, 620.0, 116.0));
    let q = place(placement(10.0, -3.0, 620.0, 116.0), s(1920.0), s(1080.0));
    assert_eq!(q, placement(10.0, 0.0, 620.0, 116.0));
}

#[test]
fn sizes_are_kept_within_bounds() {
    let p = place(placement(0.0, 0.0, 1.0, 1000.0), s(1920.0), s(1080.0));
    assert_eq!(p, placement(0.0, 0.0, 280.0, 240.0));
    let q = place(placement(0.0, 0.0, 9999.0, 1.0), s(1920.0), s(1080.0));
    assert_eq!(q, placement(0.0, 0.0, 1600.0, 60.0));
}

#[test]
fn middle_is_taken_before_the_width_is_bounded() {
    let p = place(placement(-1.0, 0.0, 100.0, 100.0), s(1000.0), s(1000.0));
    assert_eq!(p, placement(450.0, 0.0, 280.0, 100.0));
}

#[test]
fn small_screens_leave_no_room_to_move() {
    let p = place(placement(50.0, 50.0, 620.0, 116.0), s(300.0), s(100.0));
    assert_eq!(p, placement(0.0, 0.0, 620.0, 116.0));
}

#[test]
fn placing_again_changes_nothing() {
    for p in [
        placement(-1.0, 16.0, 620.0, 116.0),
        placement(700.5, 33.3, 33.0, 500.0),
        placement(1e9, -1e9, 0.1, 0.1),
    ] {
        let once = place(p, s(1366.0), s(768.0));
        assert_eq!(place(once, s(1366.0), s(768.0)), once);
    }
}

#[test]
fn dragging_moves() {
    let p = dragged(placement(10.0, 20.0, 620.0, 116.0), s(1.5), s(-30.0));
    assert_eq!(p, placement(11.5, -10.0, 620.0, 116.0));
}

#[test]
fn dragging_the_corner_resizes_within_bounds() {
    let p = placement(10.0, 20.0, 620.0, 116.0);
    assert_eq!(resized(p, s(4.5), s(-6.0)), placement(10.0, 20.0, 624.5, 110.0));
    assert_eq!(resized(p, s(5000.0), s(-500.0)), placement(10.0, 20.0, 1600.0, 60.0));
    assert_eq!(resized(p, s(-5000.0), s(500.0)), placement(10.0, 20.0, 280.0, 240.0));
}

#[test]
fn placement_can_be_read_and_written() {
    let mut d = Settings::default();
    assert_eq!(d.get_placement(), placement(-1.0, 16.0, 620.0, 116.0));
    d.set_placement(placement(1.0, 2.0, 300.0, 70.0));
    assert_eq!(d.get_placement(), placement(1.0, 2.0, 300.0, 70.0));
    assert_eq!(f(d.opacity), 0.95);
}

#[test]
fn edits_of_the_strip() {
    let mut a = Settings::default();
    a.opacity = s(0.5);
    a.set_placement(placement(10.0, 20.0, 620.0, 116.0));
    a.edit(Edit::Move { dx: s(1.0), dy: s(2.0) });
    assert_eq!(a.get_placement(), placement(11.0, 22.0, 620.0, 116.0));
    a.edit(Edit::Resize { dx: s(10.0), dy: s(-1000.0) });
    assert_eq!(a.get_placement(), placement(11.0, 22.0, 630.0, 60.0));
    a.edit(Edit::Width(s(1350.0)));
    a.edit(Edit::Height(s(200.0)));
    assert_eq!(a.get_placement(), placement(11.0, 22.0, 1350.0, 200.0));
    a.edit(Edit::Width(s(1500.0)));
    a.edit(Edit::Height(s(1.0)));
    assert_eq!(a.get_placement(), placement(11.0, 22.0, 1400.0, 60.0));
    assert_eq!(f(a.opacity), 0.5);
    a.edit(Edit::Reset);
    assert!(settings_eq(&a, &Settings::default()));
}
