//! The overlay from frame to frame: what the user does to it, and what the program
//! around it is to do in turn.
use crate::approach::follows;
use crate::hotkey::{
    build_hotkey, capture, captures, first_deciding, hotkey_label, label_of, registers, Capture,
    HotkeyDef, KeyEvent,
};
use crate::keys::{ascii_upper, code_named, is_ascii_text, same_text, uppercase_text};
use crate::layout::{edges, edges_of, lay_tracks, shown_before, tracks};
use crate::levels::{BandLevels, BANDS};
use crate::number::constants::HALF;
use crate::number::single::{num, Single};
use crate::paint::Scene;
use crate::settings::{
    close_settings, edited_by, is_default, is_number, law_edits_keep_sizes, law_kept_sizes,
    law_placed_within_bounds, nearly_sized, numbers_within, place, placed, same_choices,
    same_settings, settings_eq, sized, Edit, Placement, Settings, CLOSE,
};
use crate::smoothing::{
    eased, eased_energy, eased_scale, exponents, exponents_of, Decays, Exponents, Smoothing,
};
use global_hotkey::hotkey::HotKey;
use vstd::prelude::*;

verus! {

/// The frame in which the window first lets the mouse through; before it the window
/// may not be there yet.
pub const PASSTHROUGH_FRAME: u64 = 5;

/// Hotkeys to give back and to ask for, in this order.
#[derive(Clone, Copy, Debug)]
pub struct HotkeyChange {
    pub unregister: Option<HotKey>,
    pub register: Option<HotKey>,
}

/// The change that puts the hotkey of a definition in the place of `current`.
pub open spec fn rebinds(def: HotkeyDef, current: Option<HotKey>, c: HotkeyChange) -> bool {
    &&& c.unregister == current
    &&& registers(def, code_named(uppercase_text(def.key@)), c.register)
    &&& is_ascii_text(def.key@) ==> registers(
        def,
        code_named(ascii_upper(def.key@)),
        c.register,
    )
}

/// What a change of the edit mode asks for: whether the mouse is let through, where
/// that changes, and whether the settings are saved.
#[derive(Clone, Copy, Debug, PartialEq, Eq, Structural)]
pub struct EditChange {
    pub passthrough: Option<bool>,
    pub save: bool,
}

/// The identifiers of the entries of the tray menu.
#[derive(Debug)]
pub struct TrayIds {
    pub edit_id: String,
    pub reset_id: String,
    pub quit_id: String,
}

/// An entry of the tray menu.
#[derive(Clone, Copy, Debug, PartialEq, Eq, Structural)]
pub enum MenuChoice {
    Edit,
    Reset,
    Quit,
    Other,
}

/// The entry with an identifier.
pub open spec fn choice_of(ids: TrayIds, id: Seq<char>) -> MenuChoice {
    if id == ids.edit_id@ {
        MenuChoice::Edit
    } else if id == ids.reset_id@ {
        MenuChoice::Reset
    } else if id == ids.quit_id@ {
        MenuChoice::Quit
    } else {
        MenuChoice::Other
    }
}

pub fn menu_choice(ids: &TrayIds, id: &str) -> (choice: MenuChoice)
    ensures
        choice == choice_of(*ids, id@),
        choice is Edit <==> id@ == ids.edit_id@,
        choice is Reset ==> id@ == ids.reset_id@,
        choice is Quit ==> id@ == ids.quit_id@,
        choice is Other <==> id@ != ids.edit_id@ && id@ != ids.reset_id@ && id@ != ids.quit_id@,
{
    if same_text(id, ids.edit_id.as_str()) {
        MenuChoice::Edit
    } else if same_text(id, ids.reset_id.as_str()) {
        MenuChoice::Reset
    } else if same_text(id, ids.quit_id.as_str()) {
        MenuChoice::Quit
    } else {
        MenuChoice::Other
    }
}

/// What an entry of the tray menu asks for, in the order of the fields.
#[derive(Clone, Copy, Debug)]
pub struct MenuOutcome {
    pub passthrough: Option<bool>,
    pub hotkey: Option<HotkeyChange>,
    pub save: bool,
    pub close: bool,
}

/// What the user asked for in the settings panel.
#[derive(Clone, Copy, Debug)]
pub struct Requests {
    /// A new hotkey is to be captured.
    pub capture: bool,
    /// The hotkey was switched on or off.
    pub refresh: bool,
    /// The strip is to be locked again.
    pub lock: bool,
}

/// What the user asks for with the buttons of the settings panel: a click on the hotkey
/// asks for a new one unless one is awaited already, and switching the hotkey on or off
/// asks to register it anew.
pub fn panel_requests(
    awaiting: bool,
    hotkey_clicked: bool,
    enabled_before: bool,
    enabled_after: bool,
    lock_clicked: bool,
) -> (asked: Requests)
    ensures
        asked.capture == (hotkey_clicked && !awaiting),
        asked.refresh == (enabled_before != enabled_after),
        asked.lock == lock_clicked,
{
    Requests {
        capture: hotkey_clicked && !awaiting,
        refresh: enabled_before != enabled_after,
        lock: lock_clicked,
    }
}

/// What the end of a frame asks for, in the order of the fields.
#[derive(Clone, Copy, Debug)]
pub struct FrameOutcome {
    pub hotkey: Option<HotkeyChange>,
    pub edit: EditChange,
}

/// Whether a hotkey event is a press of the hotkey that is registered.
pub open spec fn is_press(current: Option<HotKey>, id: u32, pressed: bool) -> bool {
    pressed && current is Some && current->0.id == id
}

/// No change of the settings is lost: after a step, what has changed since the settings
/// were last saved is saved by it, or still noted as unsaved.
pub open spec fn keeps_settings(before: OverlayApp, after: OverlayApp, saved: bool) -> bool {
    (before.needs_save || after.settings != before.settings) ==> saved || after.needs_save
}

/// The settings that a reset puts in place of the others.
pub fn reset_settings() -> (s: Settings)
    ensures
        is_default(s),
{
    Settings::default()
}

/// What the button in the settings panel says.
pub open spec fn button_text(awaiting: bool, def: HotkeyDef) -> Seq<char> {
    if awaiting {
        "press keys… (Esc to cancel)"@
    } else {
        label_of(def)
    }
}

pub fn hotkey_button(awaiting: bool, def: &HotkeyDef) -> (text: String)
    ensures
        text@ == button_text(awaiting, *def),
{
    if awaiting {
        "press keys… (Esc to cancel)".to_string()
    } else {
        hotkey_label(def)
    }
}

/// What the settings panel calls a band.
pub open spec fn name_of_band(b: nat) -> Seq<char> {
    if b == 0 {
        "ROAR    20-200 Hz"@
    } else if b == 1 {
        "STEPS  200-2k Hz"@
    } else if b == 2 {
        "SHOTS  2k-5k Hz"@
    } else {
        "CLINK  5k-10k Hz"@
    }
}

pub fn band_name(b: usize) -> (name: &'static str)
    requires
        b < BANDS,
    ensures
        name@ == name_of_band(b as nat),
{
    match b {
        0 => "ROAR    20-200 Hz",
        1 => "STEPS  200-2k Hz",
        2 => "SHOTS  2k-5k Hz",
        _ => "CLINK  5k-10k Hz",
    }
}

/// The state of the overlay.
pub struct OverlayApp {
    pub smoothing: Smoothing,
    pub frame_count: u64,
    pub settings: Settings,
    pub edit_mode: bool,
    pub needs_save: bool,
    pub visible: bool,
    pub awaiting_hotkey: bool,
    pub current_hotkey: Option<HotKey>,
}

impl OverlayApp {
    /// A hotkey is awaited only while the strip is edited.
    pub open spec fn wf(self) -> bool {
        self.awaiting_hotkey ==> self.edit_mode
    }

    /// What is shown of the sound, and how many frames there were, is the same.
    pub open spec fn same_picture(self, other: OverlayApp) -> bool {
        self.smoothing == other.smoothing && self.frame_count == other.frame_count
    }

    /// The overlay before its first frame: visible, locked, with no hotkey registered
    /// yet. `refresh_hotkey` says which one to register.
    pub fn new(settings: Settings) -> (app: Self)
        ensures
            app.wf(),
            app.settings == settings,
            app.smoothing.direction@ == Seq::new(4, |b: int| num(0)),
            app.smoothing.energy@ == Seq::new(4, |b: int| num(0)),
            app.smoothing.scale == num(HALF),
            app.frame_count == 0,
            !app.edit_mode,
            !app.needs_save,
            app.visible,
            !app.awaiting_hotkey,
            app.current_hotkey is None,
    {
        OverlayApp {
            smoothing: Smoothing::new(),
            frame_count: 0,
            settings,
            edit_mode: false,
            needs_save: false,
            visible: true,
            awaiting_hotkey: false,
            current_hotkey: None,
        }
    }

    /// Whether the settings are to be saved now; from here on they count as saved.
    pub fn flush_save(&mut self) -> (save: bool)
        ensures
            save == old(self).needs_save,
            *final(self) == (OverlayApp { needs_save: false, ..*old(self) }),
    {
        let save: bool = self.needs_save;
        self.needs_save = false;
        save
    }

    /// The overlay in or out of the edit mode. Leaving it ends the wait for a hotkey and
    /// saves what has not been saved.
    pub open spec fn with_edit_mode(self, on: bool) -> OverlayApp {
        if self.edit_mode == on {
            self
        } else if on {
            OverlayApp { edit_mode: true, ..self }
        } else {
            OverlayApp {
                edit_mode: false,
                awaiting_hotkey: false,
                needs_save: false,
                ..self
            }
        }
    }

    /// What that change asks for.
    pub open spec fn edit_change(self, on: bool) -> EditChange {
        if self.edit_mode == on {
            EditChange { passthrough: None, save: false }
        } else {
            EditChange { passthrough: Some(!on), save: !on && self.needs_save }
        }
    }

    /// Enters or leaves the edit mode.
    pub fn set_edit_mode(&mut self, on: bool) -> (change: EditChange)
        ensures
            change == old(self).edit_change(on),
            *final(self) == old(self).with_edit_mode(on),
            old(self).wf() ==> final(self).wf(),
            final(self).edit_mode == on,
            final(self).settings == old(self).settings,
            final(self).same_picture(*old(self)),
            final(self).visible == old(self).visible,
            final(self).current_hotkey == old(self).current_hotkey,
            keeps_settings(*old(self), *final(self), change.save),
            change.passthrough is Some == (old(self).edit_mode != on),
            change.passthrough is Some ==> change.passthrough->0 != on,
            change.save ==> !on && old(self).needs_save,
            old(self).edit_mode && !on ==> !final(self).needs_save
                && !final(self).awaiting_hotkey,
    {
        if self.edit_mode == on {
            return EditChange { passthrough: None, save: false };
        }
        self.edit_mode = on;
        let mut save: bool = false;
        if !on {
            self.awaiting_hotkey = false;
            save = self.flush_save();
        }
        EditChange { passthrough: Some(!on), save }
    }

    /// Gives back the registered hotkey and asks for that of the settings.
    /// `hotkey_registered` is told whether that was granted.
    pub fn refresh_hotkey(&mut self) -> (change: HotkeyChange)
        ensures
            rebinds(old(self).settings.hotkey, old(self).current_hotkey, change),
            *final(self) == (OverlayApp { current_hotkey: None, ..*old(self) }),
    {
        let unregister: Option<HotKey> = self.current_hotkey;
        self.current_hotkey = None;
        HotkeyChange { unregister, register: build_hotkey(&self.settings.hotkey) }
    }

    /// Takes note of a hotkey that was asked for, if it was granted.
    pub fn hotkey_registered(&mut self, hotkey: HotKey, granted: bool)
        ensures
            granted ==> *final(self) == (OverlayApp {
                current_hotkey: Some(hotkey),
                ..*old(self)
            }),
            !granted ==> *final(self) == *old(self),
    {
        if granted {
            self.current_hotkey = Some(hotkey);
        }
    }

    /// An entry of the tray menu was chosen.
    pub fn menu_event(&mut self, choice: MenuChoice) -> (out: MenuOutcome)
        ensures
            old(self).wf() ==> final(self).wf(),
            final(self).same_picture(*old(self)),
            final(self).visible == old(self).visible,
            keeps_settings(*old(self), *final(self), out.save),
            out.close == (choice == MenuChoice::Quit),
            out.hotkey is Some == (choice == MenuChoice::Reset),
            choice == MenuChoice::Edit ==> {
                let on = !old(self).edit_mode;
                &&& out.passthrough == old(self).edit_change(on).passthrough
                &&& out.save == old(self).edit_change(on).save
                &&& *final(self) == old(self).with_edit_mode(on)
            },
            choice == MenuChoice::Reset ==> {
                &&& out.passthrough is None
                &&& out.save
                &&& rebinds(final(self).settings.hotkey, old(self).current_hotkey, out.hotkey->0)
                &&& is_default(final(self).settings)
                &&& !final(self).needs_save
                &&& final(self).current_hotkey is None
                &&& final(self).edit_mode == old(self).edit_mode
                &&& final(self).awaiting_hotkey == old(self).awaiting_hotkey
            },
            choice == MenuChoice::Quit ==> {
                &&& out.passthrough is None
                &&& out.save == old(self).needs_save
                &&& *final(self) == (OverlayApp { needs_save: false, ..*old(self) })
            },
            choice == MenuChoice::Other ==> {
                &&& out.passthrough is None
                &&& !out.save
                &&& *final(self) == *old(self)
            },
    {
        match choice {
            MenuChoice::Edit => {
                let on: bool = !self.edit_mode;
                let change: EditChange = self.set_edit_mode(on);
                MenuOutcome {
                    passthrough: change.passthrough,
                    hotkey: None,
                    save: change.save,
                    close: false,
                }
            },
            MenuChoice::Reset => {
                self.settings = reset_settings();
                self.needs_save = true;
                let change: HotkeyChange = self.refresh_hotkey();
                let save: bool = self.flush_save();
                MenuOutcome { passthrough: None, hotkey: Some(change), save, close: false }
            },
            MenuChoice::Quit => {
                let save: bool = self.flush_save();
                MenuOutcome { passthrough: None, hotkey: None, save, close: true }
            },
            MenuChoice::Other => MenuOutcome {
                passthrough: None,
                hotkey: None,
                save: false,
                close: false,
            },
        }
    }

    /// The overlay after a hotkey was pressed or released: a press of the registered
    /// one hides it or shows it again.
    pub open spec fn toggled(self, id: u32, pressed: bool) -> OverlayApp {
        OverlayApp {
            visible: self.visible != is_press(self.current_hotkey, id, pressed),
            ..self
        }
    }

    /// A hotkey was pressed or released.
    pub fn hotkey_event(&mut self, id: u32, pressed: bool)
        ensures
            *final(self) == old(self).toggled(id, pressed),
            final(self).visible != old(self).visible <==> pressed && old(self).current_hotkey
                is Some && old(self).current_hotkey->0.id == id,
            *final(self) == (OverlayApp { visible: final(self).visible, ..*old(self) }),
    {
        if pressed {
            match self.current_hotkey {
                Some(hotkey) => {
                    if id == hotkey.id {
                        self.visible = !self.visible;
                    }
                },
                None => {},
            }
        }
    }

    /// The key events of a frame. While a hotkey is awaited, the first that decides
    /// ends the wait: Escape leaves all as it was, another hotkey takes the place of
    /// the old one.
    pub fn capture_hotkey(&mut self, events: &Vec<KeyEvent>) -> (change: Option<HotkeyChange>)
        ensures
            old(self).wf() ==> final(self).wf(),
            final(self).same_picture(*old(self)),
            final(self).visible == old(self).visible,
            final(self).edit_mode == old(self).edit_mode,
            keeps_settings(*old(self), *final(self), false),
            !old(self).awaiting_hotkey ==> change is None && *final(self) == *old(self),
            old(self).awaiting_hotkey && (forall|j: int|
                0 <= j < events@.len() ==> !(#[trigger] events@[j]).decides()) ==> change is None
                && *final(self) == *old(self),
            forall|i: int|
                old(self).awaiting_hotkey && #[trigger] first_deciding(events@, i) ==> {
                    &&& !final(self).awaiting_hotkey
                    &&& captures(events@[i], Capture::Cancelled) ==> change is None
                        && *final(self) == (OverlayApp { awaiting_hotkey: false, ..*old(self) })
                    &&& !captures(events@[i], Capture::Cancelled) ==> {
                        &&& captures(events@[i], Capture::Chosen(final(self).settings.hotkey))
                        &&& final(self).settings == (Settings {
                            hotkey: final(self).settings.hotkey,
                            ..old(self).settings
                        })
                        &&& final(self).needs_save
                        &&& final(self).current_hotkey is None
                        &&& change is Some
                        &&& rebinds(
                            final(self).settings.hotkey,
                            old(self).current_hotkey,
                            change->0,
                        )
                    }
                },
    {
        if !self.awaiting_hotkey {
            return None;
        }
        proof {
            assert forall|i: int, k: int|
                first_deciding(events@, i) && first_deciding(events@, k) implies i == k by {
                if i < k {
                    assert(!events@[i].decides());
                } else if k < i {
                    assert(!events@[k].decides());
                }
            }
        }
        match capture(events) {
            None => {
                assert forall|i: int| !first_deciding(events@, i) by {
                    if first_deciding(events@, i) {
                        assert(events@[i].decides());
                    }
                }
                None
            },
            Some(Capture::Cancelled) => {
                self.awaiting_hotkey = false;
                None
            },
            Some(Capture::Chosen(def)) => {
                self.settings.hotkey = def;
                self.needs_save = true;
                self.awaiting_hotkey = false;
                Some(self.refresh_hotkey())
            },
        }
    }

    /// Counts a frame, and says in the first frame that can whether the mouse is let
    /// through.
    pub fn begin_frame(&mut self) -> (passthrough: Option<bool>)
        requires
            old(self).frame_count < u64::MAX,
        ensures
            passthrough == (if old(self).frame_count == PASSTHROUGH_FRAME {
                Some(!old(self).edit_mode)
            } else {
                None
            }),
            *final(self) == (OverlayApp {
                frame_count: (old(self).frame_count + 1) as u64,
                ..*old(self)
            }),
    {
        let passthrough: Option<bool> = if self.frame_count == PASSTHROUGH_FRAME {
            Some(!self.edit_mode)
        } else {
            None
        };
        self.frame_count = self.frame_count + 1;
        passthrough
    }

    /// The exponents of a frame that took `elapsed` seconds.
    pub fn frame_exponents(&self, elapsed: Single) -> (e: Exponents)
        ensures
            e == exponents(self.settings.sensitivity, elapsed),
    {
        exponents_of(self.settings.sensitivity, elapsed)
    }

    /// Follows the levels of the analysis.
    pub fn follow(&mut self, levels: &BandLevels, d: Decays)
        ensures
            final(self).smoothing.energy@ == Seq::new(
                4,
                |b: int| eased_energy(old(self).smoothing.energy@[b], levels.energy@[b], d),
            ),
            final(self).smoothing.direction@ == Seq::new(
                4,
                |b: int|
                    eased(
                        old(self).smoothing.direction@[b],
                        levels.direction@[b],
                        d.direction,
                    ),
            ),
            final(self).smoothing.scale == eased_scale(
                old(self).smoothing.scale,
                final(self).smoothing.energy@,
                d,
            ),
            *final(self) == (OverlayApp { smoothing: final(self).smoothing, ..*old(self) }),
            follows(old(self).smoothing, *levels, d, final(self).smoothing),
    {
        self.smoothing.advance(levels, d);
    }

    /// Whether the strip is drawn: a hidden one is, while it is edited.
    pub fn is_shown(&self) -> (r: bool)
        ensures
            r == (self.visible || self.edit_mode),
    {
        self.visible || self.edit_mode
    }

    /// The settings for a frame on a screen: the strip is brought onto it.
    pub fn frame_settings(&self, screen_w: Single, screen_h: Single) -> (s: Settings)
        ensures
            same_settings(
                s,
                (Settings {
                    pos_x: placed(self.settings.placement(), screen_w, screen_h).x,
                    pos_y: placed(self.settings.placement(), screen_w, screen_h).y,
                    width: placed(self.settings.placement(), screen_w, screen_h).width,
                    height: placed(self.settings.placement(), screen_w, screen_h).height,
                    ..self.settings
                }),
            ),
            s.placement() == placed(self.settings.placement(), screen_w, screen_h),
    {
        let mut s: Settings = self.settings.copy();
        let p: Placement = place(s.get_placement(), screen_w, screen_h);
        s.set_placement(p);
        s
    }

    /// What is drawn with the settings of a frame.
    pub fn scene(&self, settings: &Settings) -> (scene: Scene)
        ensures
            scene.strip == edges(
                settings.pos_x,
                settings.pos_y,
                settings.width,
                settings.height,
            ),
            scene.tracks == tracks(
                settings.placement(),
                shown_before(settings.show_band@, BANDS as nat),
            ),
            scene.show_band == settings.show_band,
            scene.opacity == settings.opacity,
            scene.ball_size == settings.ball_size,
            scene.direction == self.smoothing.direction,
            scene.energy == self.smoothing.energy,
            scene.scale == self.smoothing.scale,
    {
        Scene {
            strip: edges_of(settings.pos_x, settings.pos_y, settings.width, settings.height),
            tracks: lay_tracks(settings.get_placement(), &settings.show_band),
            show_band: settings.show_band,
            opacity: settings.opacity,
            ball_size: settings.ball_size,
            direction: self.smoothing.direction,
            energy: self.smoothing.energy,
            scale: self.smoothing.scale,
        }
    }

    /// Ends a frame with the settings that it left and what the user asked for in it.
    /// Settings that changed are taken over and saved later, at the latest when the
    /// strip is locked.
    pub fn finish_frame(&mut self, settings: Settings, asked: Requests) -> (out: FrameOutcome)
        ensures
            old(self).wf() && (asked.capture ==> old(self).edit_mode) ==> final(self).wf(),
            final(self).same_picture(*old(self)),
            final(self).visible == old(self).visible,
            keeps_settings(*old(self), *final(self), out.edit.save),
            sized(settings.placement()) ==> nearly_sized(final(self).settings.placement()),
            !same_choices(old(self).settings, settings) || !numbers_within(
                old(self).settings,
                settings,
                num(CLOSE).value(),
            ) ==> final(self).settings == settings && (final(self).needs_save || out.edit.save),
            ({
                let changed = !close_settings(old(self).settings, settings);
                let unsaved = old(self).needs_save || changed;
                let locks = asked.lock && old(self).edit_mode;
                &&& final(self).settings == (if changed {
                    settings
                } else {
                    old(self).settings
                })
                &&& final(self).edit_mode == (old(self).edit_mode && !asked.lock)
                &&& final(self).awaiting_hotkey == ((old(self).awaiting_hotkey || asked.capture)
                    && !locks)
                &&& final(self).needs_save == (unsaved && !locks)
                &&& out.edit == (EditChange {
                    passthrough: if locks {
                        Some(true)
                    } else {
                        None
                    },
                    save: locks && unsaved,
                })
                &&& out.hotkey is Some == asked.refresh
                &&& asked.refresh ==> rebinds(
                    final(self).settings.hotkey,
                    old(self).current_hotkey,
                    out.hotkey->0,
                ) && final(self).current_hotkey is None
                &&& !asked.refresh ==> final(self).current_hotkey == old(self).current_hotkey
            }),
    {
        proof {
            if sized(settings.placement()) {
                law_kept_sizes(self.settings, settings);
            }
        }
        if !settings_eq(&self.settings, &settings) {
            self.settings = settings;
            self.needs_save = true;
        }
        if asked.capture {
            self.awaiting_hotkey = true;
        }
        let hotkey: Option<HotkeyChange> = if asked.refresh {
            Some(self.refresh_hotkey())
        } else {
            None
        };
        let edit: EditChange = if asked.lock {
            self.set_edit_mode(false)
        } else {
            EditChange { passthrough: None, save: false }
        };
        FrameOutcome { hotkey, edit }
    }
}

/// The sizes over a whole frame: from finite sizes, whatever the user does to the strip
/// in it, the settings that the frame leaves have their sizes within bounds, but for less
/// than 0.001 that is not worth saving.
pub proof fn law_frame_keeps_sizes(
    before: Settings,
    screen_w: Single,
    screen_h: Single,
    edits: Seq<Edit>,
    s: Settings,
    after: Settings,
)
    requires
        before.width.is_finite(),
        before.height.is_finite(),
        forall|i: int| 0 <= i < edits.len() ==> is_number(#[trigger] edits[i]),
        s.placement() == edited_by(placed(before.placement(), screen_w, screen_h), edits),
        after == (if close_settings(before, s) {
            before
        } else {
            s
        }),
    ensures
        sized(s.placement()),
        nearly_sized(after.placement()),
{
    law_placed_within_bounds(before.placement(), screen_w, screen_h);
    law_edits_keep_sizes(placed(before.placement(), screen_w, screen_h), edits);
    law_kept_sizes(before, s);
}

/// Two presses of the hotkey leave the overlay as it was.
pub proof fn law_second_press_undoes_first(app: OverlayApp, id: u32)
    ensures
        app.toggled(id, true).toggled(id, true) == app,
{
}

/// A released hotkey, or one that is not registered, changes nothing.
pub proof fn law_other_hotkey_changes_nothing(app: OverlayApp, id: u32, pressed: bool)
    requires
        !pressed || app.current_hotkey is None || app.current_hotkey->0.id != id,
    ensures
        app.toggled(id, pressed) == app,
{
}

/// Entering the edit mode and leaving it again saves what was unsaved, ends the wait
/// for a hotkey and keeps the settings.
pub proof fn law_locked_again(app: OverlayApp)
    requires
        app.wf(),
        !app.edit_mode,
    ensures
        app.with_edit_mode(true).with_edit_mode(false) == (OverlayApp {
            needs_save: false,
            ..app
        }),
        app.with_edit_mode(true).edit_change(false).save == app.needs_save,
        app.edit_change(true).passthrough == Some(false),
        app.with_edit_mode(true).edit_change(false).passthrough == Some(true),
{
}

/// Every entry of the tray menu is found by its own identifier, where no two entries share
/// one, and nothing else is taken for an entry.
pub proof fn law_entries_are_told_apart(ids: TrayIds, id: Seq<char>)
    requires
        ids.edit_id@ != ids.reset_id@,
        ids.edit_id@ != ids.quit_id@,
        ids.reset_id@ != ids.quit_id@,
    ensures
        choice_of(ids, id) == MenuChoice::Edit <==> id == ids.edit_id@,
        choice_of(ids, id) == MenuChoice::Reset <==> id == ids.reset_id@,
        choice_of(ids, id) == MenuChoice::Quit <==> id == ids.quit_id@,
{
}

/// The edit mode is as asked for, the mouse goes through exactly out of it, and nothing
/// that was unsaved is lost on the way.
pub proof fn law_edit_mode_is_as_asked(app: OverlayApp, on: bool)
    ensures
        app.with_edit_mode(on).edit_mode == on,
        app.edit_mode == on ==> app.with_edit_mode(on) == app,
        app.edit_change(on).passthrough == (if app.edit_mode == on {
            None
        } else {
            Some(!on)
        }),
        app.with_edit_mode(on).settings == app.settings,
        app.with_edit_mode(on).visible == app.visible,
        app.with_edit_mode(on).current_hotkey == app.current_hotkey,
        app.with_edit_mode(on).same_picture(app),
        keeps_settings(app, app.with_edit_mode(on), app.edit_change(on).save),
        app.edit_change(on).save ==> app.needs_save,
{
}

/// A press of the registered hotkey shows a hidden overlay and hides a shown one, and
/// changes nothing else.
pub proof fn law_press_shows_or_hides(app: OverlayApp, id: u32)
    requires
        app.current_hotkey is Some,
        app.current_hotkey->0.id == id,
    ensures
        app.toggled(id, true).visible == !app.visible,
        app.toggled(id, true) == (OverlayApp { visible: !app.visible, ..app }),
{
}

} // verus!
