//! The hotkey that hides and shows the overlay: its definition in the settings,
//! its label, its capture from the keyboard and its registration.
use crate::keys::{
    ascii_upper, code_named, egui_key_to_str, is_ascii_text, key_code, key_str_to_code, key_text,
    law_written_key_is_itself, same_text, uppercase_text,
};
use egui::Key;
use global_hotkey::hotkey::{Code, HotKey, Modifiers};
use vstd::prelude::*;

verus! {

/// A set of modifier keys, as the hotkey service holds it.
#[verifier::external_type_specification]
#[verifier::external_body]
pub struct ExModifiers(Modifiers);

/// A hotkey, as the hotkey service takes it.
#[verifier::external_type_specification]
pub struct ExHotKey(HotKey);

/// The hotkey as the settings hold it. An empty key stands for none.
#[derive(Debug)]
pub struct HotkeyDef {
    pub enabled: bool,
    pub ctrl: bool,
    pub alt: bool,
    pub shift: bool,
    pub key: String,
}

/// The definition with the given parts.
pub open spec fn is_def(
    d: HotkeyDef,
    enabled: bool,
    ctrl: bool,
    alt: bool,
    shift: bool,
    key: Seq<char>,
) -> bool {
    d.enabled == enabled && d.ctrl == ctrl && d.alt == alt && d.shift == shift && d.key@ == key
}

/// Whether two definitions have the same parts.
pub open spec fn same_def(a: HotkeyDef, b: HotkeyDef) -> bool {
    is_def(a, b.enabled, b.ctrl, b.alt, b.shift, b.key@)
}

impl Default for HotkeyDef {
    /// Ctrl + Alt + H.
    fn default() -> (d: Self)
        ensures
            is_def(d, true, true, true, false, "H"@),
    {
        HotkeyDef { enabled: true, ctrl: true, alt: true, shift: false, key: "H".to_string() }
    }
}

impl HotkeyDef {
    /// A definition with the same parts.
    pub fn copy(&self) -> (d: HotkeyDef)
        ensures
            same_def(d, *self),
    {
        HotkeyDef {
            enabled: self.enabled,
            ctrl: self.ctrl,
            alt: self.alt,
            shift: self.shift,
            key: self.key.clone(),
        }
    }

    /// Whether the other definition has the same parts.
    pub fn same(&self, other: &HotkeyDef) -> (r: bool)
        ensures
            r == same_def(*self, *other),
    {
        self.enabled == other.enabled && self.ctrl == other.ctrl && self.alt == other.alt
            && self.shift == other.shift && same_text(self.key.as_str(), other.key.as_str())
    }
}

/// `text` where `present`, nothing otherwise.
pub open spec fn part(present: bool, text: Seq<char>) -> Seq<char> {
    if present {
        text
    } else {
        Seq::empty()
    }
}

/// What the settings panel shows of a hotkey, such as `Ctrl + Alt + H`.
pub open spec fn label_of(h: HotkeyDef) -> Seq<char> {
    if h.key@.len() == 0 {
        "(none)"@
    } else {
        part(h.ctrl, "Ctrl + "@) + part(h.alt, "Alt + "@) + part(h.shift, "Shift + "@) + h.key@
    }
}

pub fn hotkey_label(h: &HotkeyDef) -> (label: String)
    ensures
        label@ == label_of(*h),
{
    if h.key.as_str().unicode_len() == 0 {
        return "(none)".to_string();
    }
    let mut s: String = String::new();
    if h.ctrl {
        s.append("Ctrl + ");
    }
    if h.alt {
        s.append("Alt + ");
    }
    if h.shift {
        s.append("Shift + ");
    }
    s.append(h.key.as_str());
    assert(s@ =~= label_of(*h));
    s
}

/// The set of modifier keys with the given members.
pub uninterp spec fn modifier_set(ctrl: bool, alt: bool, shift: bool) -> Modifiers;

/// The number by which the hotkey service tells modifier sets apart.
pub open spec fn modifier_number(ctrl: bool, alt: bool, shift: bool) -> int {
    (if ctrl {
        0x8int
    } else {
        0
    }) + (if alt {
        0x1int
    } else {
        0
    }) + (if shift {
        0x200int
    } else {
        0
    })
}

/// The hotkey on the key `code` with the given modifiers.
pub open spec fn is_hotkey(h: HotKey, ctrl: bool, alt: bool, shift: bool, code: Code) -> bool {
    &&& h.key == code
    &&& h.mods == modifier_set(ctrl, alt, shift)
    &&& h.id == modifier_number(ctrl, alt, shift) * 0x1_0000 + code as u32
}

/// `HotKey::new` on a set of `CONTROL`, `ALT` and `SHIFT`. Claimed of it: the key is
/// the one given, the set of modifiers depends on the three flags alone, and the
/// identifier holds the modifiers' bits above the sixteen bits of the key's number.
#[verifier::external_body]
fn new_hotkey(ctrl: bool, alt: bool, shift: bool, code: Code) -> (h: HotKey)
    ensures
        h.key == code,
        h.mods == modifier_set(ctrl, alt, shift),
        h.id == modifier_number(ctrl, alt, shift) * 0x1_0000 + code as u32,
{
    let mut mods = Modifiers::empty();
    mods.set(Modifiers::CONTROL, ctrl);
    mods.set(Modifiers::ALT, alt);
    mods.set(Modifiers::SHIFT, shift);
    HotKey::new(Some(mods), code)
}

/// What is registered for a definition whose key is `code`: nothing where the
/// hotkey is off or its key is unknown.
pub open spec fn registers(def: HotkeyDef, code: Option<Code>, h: Option<HotKey>) -> bool {
    match h {
        Some(k) => def.enabled && code is Some && is_hotkey(
            k,
            def.ctrl,
            def.alt,
            def.shift,
            code->0,
        ),
        None => !def.enabled || code is None,
    }
}

/// The hotkey of a definition whose key has been looked up.
pub fn hotkey_on(def: &HotkeyDef, code: Option<Code>) -> (h: Option<HotKey>)
    ensures
        registers(*def, code, h),
{
    if !def.enabled {
        return None;
    }
    match code {
        Some(c) => Some(new_hotkey(def.ctrl, def.alt, def.shift, c)),
        None => None,
    }
}

pub fn build_hotkey(def: &HotkeyDef) -> (h: Option<HotKey>)
    ensures
        registers(*def, code_named(uppercase_text(def.key@)), h),
        is_ascii_text(def.key@) ==> registers(*def, code_named(ascii_upper(def.key@)), h),
{
    if !def.enabled {
        return None;
    }
    let code: Option<Code> = key_str_to_code(def.key.as_str());
    hotkey_on(def, code)
}

/// A key that went down or up, with the modifiers held at that moment.
#[derive(Clone, Copy, Debug)]
pub struct KeyEvent {
    pub key: Key,
    pub pressed: bool,
    pub ctrl: bool,
    pub alt: bool,
    pub shift: bool,
}

impl KeyEvent {
    /// Whether the event ends the capture: Escape, or a key that can be written
    /// together with at least one modifier, so that no plain letter is taken.
    pub open spec fn decides(self) -> bool {
        self.pressed && (self.key == Key::Escape || ((self.ctrl || self.alt || self.shift)
            && key_text(self.key) is Some))
    }
}

/// How a capture ends.
#[derive(Debug)]
pub enum Capture {
    Cancelled,
    Chosen(HotkeyDef),
}

/// What the deciding event makes of the capture.
pub open spec fn captures(ev: KeyEvent, c: Capture) -> bool {
    match c {
        Capture::Cancelled => ev.key == Key::Escape,
        Capture::Chosen(d) => ev.key != Key::Escape && key_text(ev.key) is Some && is_def(
            d,
            true,
            ev.ctrl,
            ev.alt,
            ev.shift,
            key_text(ev.key)->0,
        ),
    }
}

/// The first deciding event is at `i`.
pub open spec fn first_deciding(events: Seq<KeyEvent>, i: int) -> bool {
    &&& 0 <= i < events.len()
    &&& events[i].decides()
    &&& forall|j: int| 0 <= j < i ==> !(#[trigger] events[j]).decides()
}

/// What the key events of one frame make of a capture that is under way.
pub fn capture(events: &Vec<KeyEvent>) -> (c: Option<Capture>)
    ensures
        c is None ==> forall|j: int| 0 <= j < events@.len() ==> !(#[trigger] events@[j]).decides(),
        c is Some ==> exists|i: int|
            #[trigger] first_deciding(events@, i) && captures(events@[i], c->0),
{
    let mut i: usize = 0;
    while i < events.len()
        invariant
            i <= events.len(),
            forall|j: int| 0 <= j < i ==> !(#[trigger] events@[j]).decides(),
        decreases events.len() - i,
    {
        let ev: KeyEvent = events[i];
        if ev.pressed {
            if matches!(ev.key, Key::Escape) {
                assert(first_deciding(events@, i as int));
                return Some(Capture::Cancelled);
            }
            if ev.ctrl || ev.alt || ev.shift {
                match egui_key_to_str(ev.key) {
                    Some(text) => {
                        assert(first_deciding(events@, i as int));
                        return Some(
                            Capture::Chosen(
                                HotkeyDef {
                                    enabled: true,
                                    ctrl: ev.ctrl,
                                    alt: ev.alt,
                                    shift: ev.shift,
                                    key: text.to_string(),
                                },
                            ),
                        );
                    },
                    None => {},
                }
            }
        }
        i = i + 1;
    }
    None
}

/// A captured hotkey can always be registered, and what is registered is the key
/// that was pressed, with the modifiers that were held.
pub proof fn law_captured_hotkey_registers(ev: KeyEvent, d: HotkeyDef, h: Option<HotKey>)
    requires
        captures(ev, Capture::Chosen(d)),
        is_ascii_text(d.key@) ==> registers(d, code_named(ascii_upper(d.key@)), h),
    ensures
        h is Some,
        key_code(ev.key) == Some(h->0.key),
        is_hotkey(h->0, ev.ctrl, ev.alt, ev.shift, h->0.key),
{
    law_written_key_is_itself(ev.key);
}

/// Hotkeys with different keys or modifiers have different identifiers, so an event
/// is never taken for that of another hotkey.
pub proof fn law_hotkey_ids_differ(
    a: HotKey,
    b: HotKey,
    ctrl: bool,
    alt: bool,
    shift: bool,
    code: Code,
    ctrl2: bool,
    alt2: bool,
    shift2: bool,
    code2: Code,
)
    requires
        is_hotkey(a, ctrl, alt, shift, code),
        is_hotkey(b, ctrl2, alt2, shift2, code2),
        a.id == b.id,
    ensures
        ctrl == ctrl2,
        alt == alt2,
        shift == shift2,
        code == code2,
{
    assert((code as u32) < 0x1_0000);
}

/// The label of a hotkey ends in its key, and each modifier adds its name in front of what
/// the label is without it.
pub proof fn law_label_names_each_part(h: HotkeyDef)
    requires
        h.key@.len() > 0,
    ensures
        !h.ctrl && !h.alt && !h.shift ==> label_of(h) == h.key@,
        h.ctrl ==> label_of(h) == "Ctrl + "@ + label_of(HotkeyDef { ctrl: false, ..h }),
        !h.ctrl && h.alt ==> label_of(h) == "Alt + "@ + label_of(HotkeyDef { alt: false, ..h }),
        !h.ctrl && !h.alt && h.shift ==> label_of(h) == "Shift + "@ + h.key@,
{
    assert(!h.ctrl && !h.alt && !h.shift ==> label_of(h) =~= h.key@);
    assert(h.ctrl ==> label_of(h) =~= "Ctrl + "@ + label_of(HotkeyDef { ctrl: false, ..h }));
    assert(!h.ctrl && h.alt ==> label_of(h) =~= "Alt + "@ + label_of(
        HotkeyDef { alt: false, ..h },
    ));
    assert(!h.ctrl && !h.alt && h.shift ==> label_of(h) =~= "Shift + "@ + h.key@);
}

/// A hotkey is registered exactly where it is on and its key is known, on that key, and
/// another key or other modifiers register another hotkey.
pub proof fn law_registered_as_defined(
    a: HotkeyDef,
    b: HotkeyDef,
    code: Option<Code>,
    other: Option<Code>,
    h: Option<HotKey>,
    k: Option<HotKey>,
)
    requires
        registers(a, code, h),
        registers(b, other, k),
    ensures
        h is Some <==> a.enabled && code is Some,
        h is Some ==> h->0.key == code->0,
        h is Some && k is Some && h->0.id == k->0.id ==> a.ctrl == b.ctrl && a.alt == b.alt
            && a.shift == b.shift && code == other,
{
    if h is Some && k is Some && h->0.id == k->0.id {
        law_hotkey_ids_differ(
            h->0,
            k->0,
            a.ctrl,
            a.alt,
            a.shift,
            code->0,
            b.ctrl,
            b.alt,
            b.shift,
            other->0,
        );
    }
}

/// Only a key that goes down ends a capture, and a key without a modifier only if it is
/// Escape; Escape cancels, and any other key is taken with exactly the modifiers held.
pub proof fn law_capture_takes_what_is_held(ev: KeyEvent, c: Capture)
    requires
        ev.decides(),
        captures(ev, c),
    ensures
        ev.pressed,
        c is Cancelled <==> ev.key == Key::Escape,
        c matches Capture::Chosen(d) ==> d.enabled && d.ctrl == ev.ctrl && d.alt == ev.alt
            && d.shift == ev.shift && (ev.ctrl || ev.alt || ev.shift) && Some(d.key@) == key_text(
            ev.key,
        ),
{
}

} // verus!
