use egui::Key;
use global_hotkey::hotkey::{Code, Modifiers};
use sound_dir::hotkey::{
    build_hotkey, capture, hotkey_label, hotkey_on, Capture, HotkeyDef, KeyEvent,
};
use sound_dir::keys::{code_of_name, egui_key_to_str, key_str_to_code, same_text};

fn def(ctrl: bool, alt: bool, shift: bool, key: &str) -> HotkeyDef {
    HotkeyDef { enabled: true, ctrl, alt, shift, key: key.to_string() }
}

fn press(key: Key, ctrl: bool, alt: bool, shift: bool) -> KeyEvent {
    KeyEvent { key, pressed: true, ctrl, alt, shift }
}

fn named_keys() -> Vec<(Key, &'static str, Code)> {
    vec![
        (Key::A, "A", Code::KeyA),
        (Key::B, "B", Code::KeyB),
        (Key::C, "C", Code::KeyC),
        (Key::D, "D", Code::KeyD),
        (Key::E, "E", Code::KeyE),
        (Key::F, "F", Code::KeyF),
        (Key::G, "G", Code::KeyG),
        (Key::H, "H", Code::KeyH),
        (Key::I, "I", Code::KeyI),
        (Key::J, "J", Code::KeyJ),
        (Key::K, "K", Code::KeyK),
        (Key::L, "L", Code::KeyL),
        (Key::M, "M", Code::KeyM),
        (Key::N, "N", Code::KeyN),
        (Key::O, "O", Code::KeyO),
        (Key::P, "P", Code::KeyP),
        (Key::Q, "Q", Code::KeyQ),
        (Key::R, "R", Code::KeyR),
        (Key::S, "S", Code::KeyS),
        (Key::T, "T", Code::KeyT),
        (Key::U, "U", Code::KeyU),
        (Key::V, "V", Code::KeyV),
        (Key::W, "W", Code::KeyW),
        (Key::X, "X", Code::KeyX),
        (Key::Y, "Y", Code::KeyY),
        (Key::Z, "Z", Code::KeyZ),
        (Key::Num0, "0", Code::Digit0),
        (Key::Num1, "1", Code::Digit1),
        (Key::Num2, "2", Code::Digit2),
        (Key::Num3, "3", Code::Digit3),
        (Key::Num4, "4", Code::Digit4),
        (Key::Num5, "5", Code::Digit5),
        (Key::Num6, "6", Code::Digit6),
        (Key::Num7, "7", Code::Digit7),
        (Key::Num8, "8", Code::Digit8),
        (Key::Num9, "9", Code::Digit9),
        (Key::F1, "F1", Code::F1),
        (Key::F2, "F2", Code::F2),
        (Key::F3, "F3", Code::F3),
        (Key::F4, "F4", Code::F4),
        (Key::F5, "F5", Code::F5),
        (Key::F6, "F6", Code::F6),
        (Key::F7, "F7", Code::F7),
        (Key::F8, "F8", Code::F8),
        (Key::F9, "F9", Code::F9),
        (Key::F10, "F10", Code::F10),
        (Key::F11, "F11", Code::F11),
        (Key::F12, "F12", Code::F12),
        (Key::Space, "Space", Code::Space),
        (Key::Enter, "Enter", Code::Enter),
        (Key::Tab, "Tab", Code::Tab),
        (Key::ArrowUp, "Up", Code::ArrowUp),
        (Key::ArrowDown, "Down", Code::ArrowDown),
        (Key::ArrowLeft, "Left", Code::ArrowLeft),
        (Key::ArrowRight, "Right", Code::ArrowRight),
        (Key::Insert, "Insert", Code::Insert),
        (Key::Delete, "Delete", Code::Delete),
        (Key::Home, "Home", Code::Home),
        (Key::End, "End", Code::End),
        (Key::PageUp, "PageUp", Code::PageUp),
        (Key::PageDown, "PageDown", Code::PageDown),
    ]
}

#[test]
fn every_key_is_written_and_found_again() {
    for (key, name, code) in named_keys() {
        assert_eq!(egui_key_to_str(key), Some(name));
        assert_eq!(key_str_to_code(name), Some(code));
        assert_eq!(key_str_to_code(&name.to_lowercase()), Some(code));
        assert_eq!(code_of_name(&name.to_uppercase()), Some(code));
    }
}

#[test]
fn keys_have_names_and_codes_of_their_own() {
    let keys = named_keys();
    for (i, (_, name, code)) in keys.iter().enumerate() {
        assert_eq!(key_str_to_code(&name.to_uppercase()), Some(*code));
        for (_, other, other_code) in &keys[i + 1..] {
            assert!(name != other && code != other_code);
        }
    }
}

#[test]
fn other_keys_are_not_written() {
    for key in [Key::Escape, Key::Backspace, Key::Minus, Key::F13, Key::F20] {
        assert_eq!(egui_key_to_str(key), None);
    }
}

#[test]
fn unknown_names_have_no_code() {
    for name in ["", "F13", "AB", "Escape", "spac", "PAGE UP", " A", "я"] {
        assert_eq!(key_str_to_code(name), None);
    }
    assert_eq!(code_of_name("a"), None);
}

#[test]
fn names_are_uppercased_as_text() {
    assert_eq!(key_str_to_code("pAgEuP"), Some(Code::PageUp));
    // a letter whose upper case is two plain letters is no plain letter itself
    assert_eq!(key_str_to_code("ß"), None);
    // the small dotless letter has a plain upper case
    assert_eq!(key_str_to_code("ı"), Some(Code::KeyI));
    assert_eq!(key_str_to_code("ſpace"), Some(Code::Space));
}

#[test]
fn texts_are_compared_letter_by_letter() {
    assert!(same_text("", ""));
    assert!(same_text("héllo", "héllo"));
    assert!(!same_text("hello", "hellO"));
    assert!(!same_text("hello", "hell"));
    assert!(!same_text("", "a"));
}

#[test]
fn default_hotkey() {
    let d = HotkeyDef::default();
    assert!(d.same(&def(true, true, false, "H")));
    assert!(d.copy().same(&d));
    assert!(!d.same(&def(true, true, false, "h")));
    assert!(!d.same(&def(true, true, true, "H")));
}

#[test]
fn labels() {
    assert_eq!(hotkey_label(&HotkeyDef::default()), "Ctrl + Alt + H");
    assert_eq!(hotkey_label(&def(true, true, true, "F5")), "Ctrl + Alt + Shift + F5");
    assert_eq!(hotkey_label(&def(false, false, true, "Up")), "Shift + Up");
    assert_eq!(hotkey_label(&def(false, false, false, "7")), "7");
    assert_eq!(hotkey_label(&def(true, true, true, "")), "(none)");
}

#[test]
fn hotkey_of_the_default_definition() {
    let h = build_hotkey(&HotkeyDef::default()).unwrap();
    assert_eq!(h.key, Code::KeyH);
    assert_eq!(h.mods, Modifiers::CONTROL | Modifiers::ALT);
    assert_eq!(h.id, (0x9 << 16) | Code::KeyH as u32);
    assert_eq!(h.id(), h.id);
}

#[test]
fn hotkeys_of_all_modifiers() {
    for bits in 0..8u32 {
        let (ctrl, alt, shift) = (bits & 1 != 0, bits & 2 != 0, bits & 4 != 0);
        let h = build_hotkey(&def(ctrl, alt, shift, "F12")).unwrap();
        let mut mods = Modifiers::empty();
        let mut number = 0;
        if ctrl {
            mods |= Modifiers::CONTROL;
            number += 0x8;
        }
        if alt {
            mods |= Modifiers::ALT;
            number += 0x1;
        }
        if shift {
            mods |= Modifiers::SHIFT;
            number += 0x200;
        }
        assert_eq!(h.mods, mods);
        assert_eq!(h.key, Code::F12);
        assert_eq!(h.id, number * 0x1_0000 + Code::F12 as u32);
    }
}

#[test]
fn no_hotkey_where_off_or_unknown() {
    let mut d = HotkeyDef::default();
    d.enabled = false;
    assert!(build_hotkey(&d).is_none());
    assert!(build_hotkey(&def(true, false, false, "")).is_none());
    assert!(build_hotkey(&def(true, false, false, "Escape")).is_none());
    assert!(hotkey_on(&HotkeyDef::default(), None).is_none());
    assert!(hotkey_on(&d, Some(Code::KeyH)).is_none());
    assert!(hotkey_on(&HotkeyDef::default(), Some(Code::KeyH)).is_some());
}

#[test]
fn different_hotkeys_have_different_ids() {
    let mut ids = Vec::new();
    for (_, name, _) in named_keys() {
        for bits in 0..8u32 {
            let d = def(bits & 1 != 0, bits & 2 != 0, bits & 4 != 0, name);
            ids.push(build_hotkey(&d).unwrap().id);
        }
    }
    let n = ids.len();
    ids.sort();
    ids.dedup();
    assert_eq!(ids.len(), n);
}

fn chosen(c: Option<Capture>) -> HotkeyDef {
    match c {
        Some(Capture::Chosen(d)) => d,
        _ => panic!("nothing was chosen"),
    }
}

#[test]
fn capture_takes_the_first_that_decides() {
    let events = vec![
        press(Key::Q, false, false, false),
        KeyEvent { key: Key::R, pressed: false, ctrl: true, alt: false, shift: false },
        press(Key::Backspace, true, false, false),
        press(Key::T, true, false, true),
        press(Key::Escape, false, false, false),
    ];
    assert!(chosen(capture(&events)).same(&def(true, false, true, "T")));
}

#[test]
fn capture_is_cancelled_by_escape() {
    let events = vec![press(Key::Escape, true, true, true), press(Key::T, true, false, false)];
    assert!(matches!(capture(&events), Some(Capture::Cancelled)));
    let released = vec![KeyEvent {
        key: Key::Escape,
        pressed: false,
        ctrl: false,
        alt: false,
        shift: false,
    }];
    assert!(capture(&released).is_none());
}

#[test]
fn capture_waits_for_a_modifier() {
    assert!(capture(&vec![]).is_none());
    assert!(capture(&vec![press(Key::T, false, false, false)]).is_none());
    assert!(chosen(capture(&vec![press(Key::T, false, true, false)]))
        .same(&def(false, true, false, "T")));
}

#[test]
fn captured_hotkeys_can_be_registered() {
    for (key, _, code) in named_keys() {
        let d = chosen(capture(&vec![press(key, false, true, true)]));
        let h = build_hotkey(&d).unwrap();
        assert_eq!(h.key, code);
        assert_eq!(h.mods, Modifiers::ALT | Modifiers::SHIFT);
    }
}
