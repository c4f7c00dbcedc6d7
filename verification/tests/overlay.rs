use egui::Key;
use global_hotkey::hotkey::Code;
use sound_dir::hotkey::{HotkeyDef, KeyEvent};
use sound_dir::levels::BandLevels;
use sound_dir::number::single::Single;
use sound_dir::overlay::{
    band_name, hotkey_button, menu_choice, panel_requests, reset_settings, EditChange,
    HotkeyChange, MenuChoice, OverlayApp, Requests, TrayIds,
};
use sound_dir::paint::paint_strip;
use sound_dir::settings::{settings_eq, Edit, Settings};
use sound_dir::smoothing::Decays;

fn s(x: f32) -> Single {
    Single { bits: x.to_bits() }
}

fn f(x: Single) -> f32 {
    f32::from_bits(x.bits)
}

fn nothing() -> Requests {
    Requests { capture: false, refresh: false, lock: false }
}

/// An overlay whose hotkey has been registered.
fn running() -> OverlayApp {
    let mut app = OverlayApp::new(Settings::default());
    let change = app.refresh_hotkey();
    grant(&mut app, change);
    app
}

fn grant(app: &mut OverlayApp, change: HotkeyChange) {
    if let Some(h) = change.register {
        app.hotkey_registered(h, true);
    }
}

fn is_key(change: &HotkeyChange, code: Code) -> bool {
    match change.register {
        Some(h) => h.key == code,
        None => false,
    }
}

#[test]
fn starts_visible_and_locked() {
    let app = OverlayApp::new(Settings::default());
    assert!(app.visible && !app.edit_mode && !app.needs_save && !app.awaiting_hotkey);
    assert_eq!(app.frame_count, 0);
    assert!(app.current_hotkey.is_none());
    assert!(app.is_shown());
}

#[test]
fn hotkey_is_asked_for_at_the_start() {
    let mut app = OverlayApp::new(Settings::default());
    let change = app.refresh_hotkey();
    assert!(change.unregister.is_none());
    assert!(is_key(&change, Code::KeyH));
    app.hotkey_registered(change.register.unwrap(), false);
    assert!(app.current_hotkey.is_none());
    app.hotkey_registered(change.register.unwrap(), true);
    assert!(app.current_hotkey.is_some());
    let again = app.refresh_hotkey();
    assert!(again.unregister.is_some());
    assert!(app.current_hotkey.is_none());
}

#[test]
fn menu_entries_by_id() {
    let ids = TrayIds {
        edit_id: "1".to_string(),
        reset_id: "2".to_string(),
        quit_id: "3".to_string(),
    };
    assert_eq!(menu_choice(&ids, "1"), MenuChoice::Edit);
    assert_eq!(menu_choice(&ids, "2"), MenuChoice::Reset);
    assert_eq!(menu_choice(&ids, "3"), MenuChoice::Quit);
    assert_eq!(menu_choice(&ids, "4"), MenuChoice::Other);
    assert_eq!(menu_choice(&ids, ""), MenuChoice::Other);
}

#[test]
fn edit_entry_toggles_the_edit_mode() {
    let mut app = running();
    let on = app.menu_event(MenuChoice::Edit);
    assert!(app.edit_mode);
    assert_eq!(on.passthrough, Some(false));
    assert!(!on.save && !on.close && on.hotkey.is_none());
    app.awaiting_hotkey = true;
    app.needs_save = true;
    let off = app.menu_event(MenuChoice::Edit);
    assert!(!app.edit_mode && !app.awaiting_hotkey && !app.needs_save);
    assert_eq!(off.passthrough, Some(true));
    assert!(off.save);
}

#[test]
fn edit_mode_is_left_only_once() {
    let mut app = running();
    assert_eq!(app.set_edit_mode(false), EditChange { passthrough: None, save: false });
    assert_eq!(app.set_edit_mode(true), EditChange { passthrough: Some(false), save: false });
    assert_eq!(app.set_edit_mode(true), EditChange { passthrough: None, save: false });
    assert_eq!(app.set_edit_mode(false), EditChange { passthrough: Some(true), save: false });
}

#[test]
fn reset_entry_brings_the_defaults_back() {
    let mut app = running();
    app.settings.pos_x = s(99.0);
    app.settings.hotkey.key = "F9".to_string();
    let out = app.menu_event(MenuChoice::Reset);
    assert!(settings_eq(&app.settings, &Settings::default()));
    assert!(settings_eq(&app.settings, &reset_settings()));
    assert_eq!(f(app.settings.pos_x), -1.0);
    assert!(out.save && !out.close && out.passthrough.is_none());
    assert!(!app.needs_save);
    let change = out.hotkey.unwrap();
    assert!(change.unregister.is_some());
    assert!(is_key(&change, Code::KeyH));
}

#[test]
fn quit_entry_saves_and_closes() {
    let mut app = running();
    let out = app.menu_event(MenuChoice::Quit);
    assert!(out.close && !out.save);
    app.needs_save = true;
    let out = app.menu_event(MenuChoice::Quit);
    assert!(out.close && out.save && !app.needs_save);
}

#[test]
fn other_entry_does_nothing() {
    let mut app = running();
    app.needs_save = true;
    let out = app.menu_event(MenuChoice::Other);
    assert!(!out.close && !out.save && out.hotkey.is_none() && out.passthrough.is_none());
    assert!(app.needs_save);
}

#[test]
fn hotkey_hides_and_shows() {
    let mut app = running();
    let id = app.current_hotkey.unwrap().id;
    app.hotkey_event(id, true);
    assert!(!app.visible && !app.is_shown());
    app.hotkey_event(id, false);
    app.hotkey_event(id + 1, true);
    assert!(!app.visible);
    app.set_edit_mode(true);
    assert!(app.is_shown());
    app.set_edit_mode(false);
    app.hotkey_event(id, true);
    assert!(app.visible);
}

#[test]
fn no_hotkey_hides_nothing() {
    let mut app = OverlayApp::new(Settings::default());
    app.hotkey_event(0, true);
    assert!(app.visible);
}

fn press(key: Key, ctrl: bool) -> KeyEvent {
    KeyEvent { key, pressed: true, ctrl, alt: false, shift: false }
}

#[test]
fn keys_are_captured_only_when_awaited() {
    let mut app = running();
    assert!(app.capture_hotkey(&vec![press(Key::T, true)]).is_none());
    assert!(app.settings.hotkey.same(&HotkeyDef::default()));
    app.set_edit_mode(true);
    app.awaiting_hotkey = true;
    assert!(app.capture_hotkey(&vec![press(Key::T, false)]).is_none());
    assert!(app.awaiting_hotkey);
    let change = app.capture_hotkey(&vec![press(Key::T, true)]).unwrap();
    assert!(!app.awaiting_hotkey && app.needs_save);
    assert_eq!(app.settings.hotkey.key, "T");
    assert!(app.settings.hotkey.ctrl && !app.settings.hotkey.alt);
    assert!(change.unregister.is_some());
    assert!(is_key(&change, Code::KeyT));
}

#[test]
fn escape_ends_the_capture() {
    let mut app = running();
    app.set_edit_mode(true);
    app.awaiting_hotkey = true;
    assert!(app.capture_hotkey(&vec![press(Key::Escape, false)]).is_none());
    assert!(!app.awaiting_hotkey && !app.needs_save);
    assert!(app.settings.hotkey.same(&HotkeyDef::default()));
}

#[test]
fn mouse_is_let_through_from_the_sixth_frame_on() {
    let mut app = running();
    for i in 0..10u64 {
        let passthrough = app.begin_frame();
        assert_eq!(passthrough, if i == 5 { Some(true) } else { None });
        assert_eq!(app.frame_count, i + 1);
    }
    let mut edited = running();
    edited.set_edit_mode(true);
    for _ in 0..5 {
        edited.begin_frame();
    }
    assert_eq!(edited.begin_frame(), Some(false));
}

#[test]
fn follows_the_levels() {
    let mut app = running();
    let mut levels = BandLevels::new();
    levels.store_energy(1, s(0.8));
    levels.store_direction(1, s(-1.0));
    let half = Decays {
        direction: s(0.5),
        attack: s(0.5),
        release: s(0.5),
        scale_attack: s(0.5),
        scale_release: s(0.5),
    };
    app.follow(&levels, half);
    assert_eq!(f(app.smoothing.energy[1]), 0.4);
    assert_eq!(f(app.smoothing.direction[1]), -0.5);
    assert_eq!(f(app.smoothing.scale), 0.5 + 0.5 * (0.4 - 0.5));
    let e = app.frame_exponents(s(0.02));
    assert_eq!(f(e.direction), -0.02 / (0.060 - 0.050 * 0.7f32));
}

#[test]
fn first_frame_centers_the_strip() {
    let mut app = running();
    let settings = app.frame_settings(s(1920.0), s(1080.0));
    assert_eq!(f(settings.pos_x), 650.0);
    let out = app.finish_frame(settings, nothing());
    assert!(app.needs_save && !out.edit.save && out.hotkey.is_none());
    assert_eq!(f(app.settings.pos_x), 650.0);
}

#[test]
fn quiet_frames_save_nothing() {
    let mut app = running();
    let settings = app.frame_settings(s(1920.0), s(1080.0));
    app.finish_frame(settings, nothing());
    app.flush_save();
    for _ in 0..3 {
        let settings = app.frame_settings(s(1920.0), s(1080.0));
        app.finish_frame(settings, nothing());
        assert!(!app.needs_save);
    }
}

#[test]
fn lock_saves_what_was_changed() {
    let mut app = running();
    app.set_edit_mode(true);
    let mut settings = app.settings.copy();
    settings.width = s(700.0);
    let out = app.finish_frame(settings, Requests { capture: false, refresh: false, lock: true });
    assert_eq!(out.edit, EditChange { passthrough: Some(true), save: true });
    assert!(!app.edit_mode && !app.needs_save);
    assert_eq!(f(app.settings.width), 700.0);
    assert!(!app.flush_save());
}

#[test]
fn capture_is_asked_for_and_ended_by_the_lock() {
    let mut app = running();
    app.set_edit_mode(true);
    let settings = app.settings.copy();
    app.finish_frame(settings, Requests { capture: true, refresh: false, lock: false });
    assert!(app.awaiting_hotkey);
    let settings = app.settings.copy();
    app.finish_frame(settings, Requests { capture: false, refresh: false, lock: true });
    assert!(!app.awaiting_hotkey && !app.edit_mode);
}

#[test]
fn switching_the_hotkey_off_gives_it_back() {
    let mut app = running();
    app.set_edit_mode(true);
    let mut settings = app.settings.copy();
    settings.hotkey.enabled = false;
    let out = app.finish_frame(settings, Requests { capture: false, refresh: true, lock: false });
    let change = out.hotkey.unwrap();
    assert!(change.unregister.is_some() && change.register.is_none());
    assert!(app.current_hotkey.is_none() && app.needs_save);
}

#[test]
fn unsaved_settings_are_saved_once() {
    let mut app = running();
    assert!(!app.flush_save());
    app.needs_save = true;
    assert!(app.flush_save());
    assert!(!app.flush_save());
}

#[test]
fn scene_of_a_frame() {
    let mut app = running();
    let mut levels = BandLevels::new();
    levels.store_energy(0, s(0.5));
    let at_once = Decays {
        direction: s(0.0),
        attack: s(0.0),
        release: s(0.0),
        scale_attack: s(0.0),
        scale_release: s(0.0),
    };
    app.follow(&levels, at_once);
    let settings = app.frame_settings(s(1920.0), s(1080.0));
    let scene = app.scene(&settings);
    assert!(scene.balls_fit());
    assert_eq!(f(scene.strip.right), 1270.0);
    assert_eq!(f(scene.tracks.height), 20.0);
    assert_eq!(paint_strip(&scene, false).len(), 2 + 4 + 1);
}

#[test]
fn texts_of_the_panel() {
    let d = HotkeyDef::default();
    assert_eq!(hotkey_button(false, &d), "Ctrl + Alt + H");
    assert_eq!(hotkey_button(true, &d), "press keys… (Esc to cancel)");
    assert_eq!(band_name(0), "ROAR    20-200 Hz");
    assert_eq!(band_name(1), "STEPS  200-2k Hz");
    assert_eq!(band_name(2), "SHOTS  2k-5k Hz");
    assert_eq!(band_name(3), "CLINK  5k-10k Hz");
}

#[test]
fn requests_of_the_panel() {
    for bits in 0..32u32 {
        let on = |k: u32| bits & (1 << k) != 0;
        let asked = panel_requests(on(0), on(1), on(2), on(3), on(4));
        assert_eq!(asked.capture, on(1) && !on(0));
        assert_eq!(asked.refresh, on(2) != on(3));
        assert_eq!(asked.lock, on(4));
    }
}

#[test]
fn sizes_stay_within_bounds_over_frames() {
    let edits = [
        Edit::Resize { dx: s(9e9), dy: s(-9e9) },
        Edit::Width(s(f32::INFINITY)),
        Edit::Move { dx: s(1e9), dy: s(f32::NAN) },
        Edit::Height(s(-5.0)),
        Edit::Reset,
        Edit::Resize { dx: s(f32::NEG_INFINITY), dy: s(3.5) },
    ];
    for (width, height) in [(1.0f32, 1e9f32), (620.0, 116.0), (279.9995, 240.0004), (-5.0, 0.0)] {
        let mut app = running();
        app.settings.width = s(width);
        app.settings.height = s(height);
        for edit in edits {
            let mut settings = app.frame_settings(s(1920.0), s(1080.0));
            settings.edit(edit);
            app.finish_frame(settings, nothing());
            let (w, h) = (f(app.settings.width), f(app.settings.height));
            assert!(280.0 - 0.001 < w && w < 1600.0 + 0.001);
            assert!(60.0 - 0.001 < h && h < 240.0 + 0.001);
        }
    }
}

#[test]
fn small_corrections_are_not_stored() {
    let mut app = running();
    let settings = app.frame_settings(s(1920.0), s(1080.0));
    app.finish_frame(settings, nothing());
    app.settings.width = s(279.9995);
    let settings = app.frame_settings(s(1920.0), s(1080.0));
    assert_eq!(f(settings.width), 280.0);
    app.finish_frame(settings, nothing());
    assert_eq!(f(app.settings.width), 279.9995);
}
