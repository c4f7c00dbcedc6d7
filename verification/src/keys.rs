//! Keys: how they are written in the settings, and which physical key a written
//! name stands for.
use egui::Key;
use global_hotkey::hotkey::Code;
use vstd::prelude::*;

verus! {

/// The keys of the user interface, as `egui` names them.
#[verifier::external_type_specification]
pub struct ExKey(Key);

/// The physical keys, as the hotkey service names them.
#[verifier::external_type_specification]
pub struct ExCode(Code);

/// How a key is written in the settings; not every key can be part of a hotkey.
pub open spec fn key_text(key: Key) -> Option<Seq<char>> {
    match key {
        Key::A => Some("A"@),
        Key::B => Some("B"@),
        Key::C => Some("C"@),
        Key::D => Some("D"@),
        Key::E => Some("E"@),
        Key::F => Some("F"@),
        Key::G => Some("G"@),
        Key::H => Some("H"@),
        Key::I => Some("I"@),
        Key::J => Some("J"@),
        Key::K => Some("K"@),
        Key::L => Some("L"@),
        Key::M => Some("M"@),
        Key::N => Some("N"@),
        Key::O => Some("O"@),
        Key::P => Some("P"@),
        Key::Q => Some("Q"@),
        Key::R => Some("R"@),
        Key::S => Some("S"@),
        Key::T => Some("T"@),
        Key::U => Some("U"@),
        Key::V => Some("V"@),
        Key::W => Some("W"@),
        Key::X => Some("X"@),
        Key::Y => Some("Y"@),
        Key::Z => Some("Z"@),
        Key::Num0 => Some("0"@),
        Key::Num1 => Some("1"@),
        Key::Num2 => Some("2"@),
        Key::Num3 => Some("3"@),
        Key::Num4 => Some("4"@),
        Key::Num5 => Some("5"@),
        Key::Num6 => Some("6"@),
        Key::Num7 => Some("7"@),
        Key::Num8 => Some("8"@),
        Key::Num9 => Some("9"@),
        Key::F1 => Some("F1"@),
        Key::F2 => Some("F2"@),
        Key::F3 => Some("F3"@),
        Key::F4 => Some("F4"@),
        Key::F5 => Some("F5"@),
        Key::F6 => Some("F6"@),
        Key::F7 => Some("F7"@),
        Key::F8 => Some("F8"@),
        Key::F9 => Some("F9"@),
        Key::F10 => Some("F10"@),
        Key::F11 => Some("F11"@),
        Key::F12 => Some("F12"@),
        Key::Space => Some("Space"@),
        Key::Enter => Some("Enter"@),
        Key::Tab => Some("Tab"@),
        Key::ArrowUp => Some("Up"@),
        Key::ArrowDown => Some("Down"@),
        Key::ArrowLeft => Some("Left"@),
        Key::ArrowRight => Some("Right"@),
        Key::Insert => Some("Insert"@),
        Key::Delete => Some("Delete"@),
        Key::Home => Some("Home"@),
        Key::End => Some("End"@),
        Key::PageUp => Some("PageUp"@),
        Key::PageDown => Some("PageDown"@),
        _ => None,
    }
}

/// The text of an optional string.
pub open spec fn text_of(s: Option<&str>) -> Option<Seq<char>> {
    match s {
        Some(t) => Some(t@),
        None => None,
    }
}

pub fn egui_key_to_str(key: Key) -> (text: Option<&'static str>)
    ensures
        text_of(text) == key_text(key),
{
    match key {
        Key::A => Some("A"),
        Key::B => Some("B"),
        Key::C => Some("C"),
        Key::D => Some("D"),
        Key::E => Some("E"),
        Key::F => Some("F"),
        Key::G => Some("G"),
        Key::H => Some("H"),
        Key::I => Some("I"),
        Key::J => Some("J"),
        Key::K => Some("K"),
        Key::L => Some("L"),
        Key::M => Some("M"),
        Key::N => Some("N"),
        Key::O => Some("O"),
        Key::P => Some("P"),
        Key::Q => Some("Q"),
        Key::R => Some("R"),
        Key::S => Some("S"),
        Key::T => Some("T"),
        Key::U => Some("U"),
        Key::V => Some("V"),
        Key::W => Some("W"),
        Key::X => Some("X"),
        Key::Y => Some("Y"),
        Key::Z => Some("Z"),
        Key::Num0 => Some("0"),
        Key::Num1 => Some("1"),
        Key::Num2 => Some("2"),
        Key::Num3 => Some("3"),
        Key::Num4 => Some("4"),
        Key::Num5 => Some("5"),
        Key::Num6 => Some("6"),
        Key::Num7 => Some("7"),
        Key::Num8 => Some("8"),
        Key::Num9 => Some("9"),
        Key::F1 => Some("F1"),
        Key::F2 => Some("F2"),
        Key::F3 => Some("F3"),
        Key::F4 => Some("F4"),
        Key::F5 => Some("F5"),
        Key::F6 => Some("F6"),
        Key::F7 => Some("F7"),
        Key::F8 => Some("F8"),
        Key::F9 => Some("F9"),
        Key::F10 => Some("F10"),
        Key::F11 => Some("F11"),
        Key::F12 => Some("F12"),
        Key::Space => Some("Space"),
        Key::Enter => Some("Enter"),
        Key::Tab => Some("Tab"),
        Key::ArrowUp => Some("Up"),
        Key::ArrowDown => Some("Down"),
        Key::ArrowLeft => Some("Left"),
        Key::ArrowRight => Some("Right"),
        Key::Insert => Some("Insert"),
        Key::Delete => Some("Delete"),
        Key::Home => Some("Home"),
        Key::End => Some("End"),
        Key::PageUp => Some("PageUp"),
        Key::PageDown => Some("PageDown"),
        _ => None,
    }
}

/// The physical key with an upper-case name.
pub open spec fn code_named(name: Seq<char>) -> Option<Code> {
    if name == "A"@ {
        Some(Code::KeyA)
    } else if name == "B"@ {
        Some(Code::KeyB)
    } else if name == "C"@ {
        Some(Code::KeyC)
    } else if name == "D"@ {
        Some(Code::KeyD)
    } else if name == "E"@ {
        Some(Code::KeyE)
    } else if name == "F"@ {
        Some(Code::KeyF)
    } else if name == "G"@ {
        Some(Code::KeyG)
    } else if name == "H"@ {
        Some(Code::KeyH)
    } else if name == "I"@ {
        Some(Code::KeyI)
    } else if name == "J"@ {
        Some(Code::KeyJ)
    } else if name == "K"@ {
        Some(Code::KeyK)
    } else if name == "L"@ {
        Some(Code::KeyL)
    } else if name == "M"@ {
        Some(Code::KeyM)
    } else if name == "N"@ {
        Some(Code::KeyN)
    } else if name == "O"@ {
        Some(Code::KeyO)
    } else if name == "P"@ {
        Some(Code::KeyP)
    } else if name == "Q"@ {
        Some(Code::KeyQ)
    } else if name == "R"@ {
        Some(Code::KeyR)
    } else if name == "S"@ {
        Some(Code::KeyS)
    } else if name == "T"@ {
        Some(Code::KeyT)
    } else if name == "U"@ {
        Some(Code::KeyU)
    } else if name == "V"@ {
        Some(Code::KeyV)
    } else if name == "W"@ {
        Some(Code::KeyW)
    } else if name == "X"@ {
        Some(Code::KeyX)
    } else if name == "Y"@ {
        Some(Code::KeyY)
    } else if name == "Z"@ {
        Some(Code::KeyZ)
    } else if name == "0"@ {
        Some(Code::Digit0)
    } else if name == "1"@ {
        Some(Code::Digit1)
    } else if name == "2"@ {
        Some(Code::Digit2)
    } else if name == "3"@ {
        Some(Code::Digit3)
    } else if name == "4"@ {
        Some(Code::Digit4)
    } else if name == "5"@ {
        Some(Code::Digit5)
    } else if name == "6"@ {
        Some(Code::Digit6)
    } else if name == "7"@ {
        Some(Code::Digit7)
    } else if name == "8"@ {
        Some(Code::Digit8)
    } else if name == "9"@ {
        Some(Code::Digit9)
    } else if name == "F1"@ {
        Some(Code::F1)
    } else if name == "F2"@ {
        Some(Code::F2)
    } else if name == "F3"@ {
        Some(Code::F3)
    } else if name == "F4"@ {
        Some(Code::F4)
    } else if name == "F5"@ {
        Some(Code::F5)
    } else if name == "F6"@ {
        Some(Code::F6)
    } else if name == "F7"@ {
        Some(Code::F7)
    } else if name == "F8"@ {
        Some(Code::F8)
    } else if name == "F9"@ {
        Some(Code::F9)
    } else if name == "F10"@ {
        Some(Code::F10)
    } else if name == "F11"@ {
        Some(Code::F11)
    } else if name == "F12"@ {
        Some(Code::F12)
    } else if name == "SPACE"@ {
        Some(Code::Space)
    } else if name == "ENTER"@ {
        Some(Code::Enter)
    } else if name == "TAB"@ {
        Some(Code::Tab)
    } else if name == "UP"@ {
        Some(Code::ArrowUp)
    } else if name == "DOWN"@ {
        Some(Code::ArrowDown)
    } else if name == "LEFT"@ {
        Some(Code::ArrowLeft)
    } else if name == "RIGHT"@ {
        Some(Code::ArrowRight)
    } else if name == "INSERT"@ {
        Some(Code::Insert)
    } else if name == "DELETE"@ {
        Some(Code::Delete)
    } else if name == "HOME"@ {
        Some(Code::Home)
    } else if name == "END"@ {
        Some(Code::End)
    } else if name == "PAGEUP"@ {
        Some(Code::PageUp)
    } else if name == "PAGEDOWN"@ {
        Some(Code::PageDown)
    } else {
        None
    }
}

/// Whether two strings hold the same text.
pub fn same_text(a: &str, b: &str) -> (r: bool)
    ensures
        r == (a@ == b@),
{
    let n: usize = a.unicode_len();
    if b.unicode_len() != n {
        return false;
    }
    let mut i: usize = 0;
    while i < n
        invariant
            n == a@.len(),
            n == b@.len(),
            i <= n,
            a@.take(i as int) == b@.take(i as int),
        decreases n - i,
    {
        if a.get_char(i) != b.get_char(i) {
            assert(a@[i as int] != b@[i as int]);
            return false;
        }
        assert(a@.take(i + 1) =~= a@.take(i as int).push(a@[i as int]));
        assert(b@.take(i + 1) =~= b@.take(i as int).push(b@[i as int]));
        i = i + 1;
    }
    assert(a@.take(n as int) =~= a@);
    assert(b@.take(n as int) =~= b@);
    true
}

/// The physical key with an upper-case name.
pub fn code_of_name(name: &str) -> (code: Option<Code>)
    ensures
        code == code_named(name@),
{
    if same_text(name, "A") {
        Some(Code::KeyA)
    } else if same_text(name, "B") {
        Some(Code::KeyB)
    } else if same_text(name, "C") {
        Some(Code::KeyC)
    } else if same_text(name, "D") {
        Some(Code::KeyD)
    } else if same_text(name, "E") {
        Some(Code::KeyE)
    } else if same_text(name, "F") {
        Some(Code::KeyF)
    } else if same_text(name, "G") {
        Some(Code::KeyG)
    } else if same_text(name, "H") {
        Some(Code::KeyH)
    } else if same_text(name, "I") {
        Some(Code::KeyI)
    } else if same_text(name, "J") {
        Some(Code::KeyJ)
    } else if same_text(name, "K") {
        Some(Code::KeyK)
    } else if same_text(name, "L") {
        Some(Code::KeyL)
    } else if same_text(name, "M") {
        Some(Code::KeyM)
    } else if same_text(name, "N") {
        Some(Code::KeyN)
    } else if same_text(name, "O") {
        Some(Code::KeyO)
    } else if same_text(name, "P") {
        Some(Code::KeyP)
    } else if same_text(name, "Q") {
        Some(Code::KeyQ)
    } else if same_text(name, "R") {
        Some(Code::KeyR)
    } else if same_text(name, "S") {
        Some(Code::KeyS)
    } else if same_text(name, "T") {
        Some(Code::KeyT)
    } else if same_text(name, "U") {
        Some(Code::KeyU)
    } else if same_text(name, "V") {
        Some(Code::KeyV)
    } else if same_text(name, "W") {
        Some(Code::KeyW)
    } else if same_text(name, "X") {
        Some(Code::KeyX)
    } else if same_text(name, "Y") {
        Some(Code::KeyY)
    } else if same_text(name, "Z") {
        Some(Code::KeyZ)
    } else if same_text(name, "0") {
        Some(Code::Digit0)
    } else if same_text(name, "1") {
        Some(Code::Digit1)
    } else if same_text(name, "2") {
        Some(Code::Digit2)
    } else if same_text(name, "3") {
        Some(Code::Digit3)
    } else if same_text(name, "4") {
        Some(Code::Digit4)
    } else if same_text(name, "5") {
        Some(Code::Digit5)
    } else if same_text(name, "6") {
        Some(Code::Digit6)
    } else if same_text(name, "7") {
        Some(Code::Digit7)
    } else if same_text(name, "8") {
        Some(Code::Digit8)
    } else if same_text(name, "9") {
        Some(Code::Digit9)
    } else if same_text(name, "F1") {
        Some(Code::F1)
    } else if same_text(name, "F2") {
        Some(Code::F2)
    } else if same_text(name, "F3") {
        Some(Code::F3)
    } else if same_text(name, "F4") {
        Some(Code::F4)
    } else if same_text(name, "F5") {
        Some(Code::F5)
    } else if same_text(name, "F6") {
        Some(Code::F6)
    } else if same_text(name, "F7") {
        Some(Code::F7)
    } else if same_text(name, "F8") {
        Some(Code::F8)
    } else if same_text(name, "F9") {
        Some(Code::F9)
    } else if same_text(name, "F10") {
        Some(Code::F10)
    } else if same_text(name, "F11") {
        Some(Code::F11)
    } else if same_text(name, "F12") {
        Some(Code::F12)
    } else if same_text(name, "SPACE") {
        Some(Code::Space)
    } else if same_text(name, "ENTER") {
        Some(Code::Enter)
    } else if same_text(name, "TAB") {
        Some(Code::Tab)
    } else if same_text(name, "UP") {
        Some(Code::ArrowUp)
    } else if same_text(name, "DOWN") {
        Some(Code::ArrowDown)
    } else if same_text(name, "LEFT") {
        Some(Code::ArrowLeft)
    } else if same_text(name, "RIGHT") {
        Some(Code::ArrowRight)
    } else if same_text(name, "INSERT") {
        Some(Code::Insert)
    } else if same_text(name, "DELETE") {
        Some(Code::Delete)
    } else if same_text(name, "HOME") {
        Some(Code::Home)
    } else if same_text(name, "END") {
        Some(Code::End)
    } else if same_text(name, "PAGEUP") {
        Some(Code::PageUp)
    } else if same_text(name, "PAGEDOWN") {
        Some(Code::PageDown)
    } else {
        None
    }
}

/// Whether a text is made of ASCII characters alone.
pub open spec fn is_ascii_text(s: Seq<char>) -> bool {
    forall|i: int| 0 <= i < s.len() ==> (#[trigger] s[i] as u32) < 128
}

pub open spec fn ascii_upper_char(c: char) -> char {
    if 'a' <= c <= 'z' {
        (c as u32 - 32) as char
    } else {
        c
    }
}

/// The text with `a` to `z` replaced by `A` to `Z`.
pub open spec fn ascii_upper(s: Seq<char>) -> Seq<char> {
    s.map_values(|c: char| ascii_upper_char(c))
}

/// The upper-case equivalent of a text, as `str::to_uppercase` gives it.
pub uninterp spec fn uppercase_text(s: Seq<char>) -> Seq<char>;

/// `str::to_uppercase`. Claimed of it: the result depends on the text alone, and
/// an ASCII text has its letters `a` to `z` replaced and nothing else changed.
#[verifier::external_body]
fn uppercase(s: &str) -> (r: String)
    ensures
        r@ == uppercase_text(s@),
        is_ascii_text(s@) ==> r@ == ascii_upper(s@),
{
    s.to_uppercase()
}

/// The physical key that a written name stands for; upper and lower case are alike.
pub fn key_str_to_code(s: &str) -> (code: Option<Code>)
    ensures
        code == code_named(uppercase_text(s@)),
        is_ascii_text(s@) ==> code == code_named(ascii_upper(s@)),
{
    let upper: String = uppercase(s);
    code_of_name(upper.as_str())
}

/// The physical key that a key of the user interface is on.
pub open spec fn key_code(key: Key) -> Option<Code> {
    match key {
        Key::A => Some(Code::KeyA),
        Key::B => Some(Code::KeyB),
        Key::C => Some(Code::KeyC),
        Key::D => Some(Code::KeyD),
        Key::E => Some(Code::KeyE),
        Key::F => Some(Code::KeyF),
        Key::G => Some(Code::KeyG),
        Key::H => Some(Code::KeyH),
        Key::I => Some(Code::KeyI),
        Key::J => Some(Code::KeyJ),
        Key::K => Some(Code::KeyK),
        Key::L => Some(Code::KeyL),
        Key::M => Some(Code::KeyM),
        Key::N => Some(Code::KeyN),
        Key::O => Some(Code::KeyO),
        Key::P => Some(Code::KeyP),
        Key::Q => Some(Code::KeyQ),
        Key::R => Some(Code::KeyR),
        Key::S => Some(Code::KeyS),
        Key::T => Some(Code::KeyT),
        Key::U => Some(Code::KeyU),
        Key::V => Some(Code::KeyV),
        Key::W => Some(Code::KeyW),
        Key::X => Some(Code::KeyX),
        Key::Y => Some(Code::KeyY),
        Key::Z => Some(Code::KeyZ),
        Key::Num0 => Some(Code::Digit0),
        Key::Num1 => Some(Code::Digit1),
        Key::Num2 => Some(Code::Digit2),
        Key::Num3 => Some(Code::Digit3),
        Key::Num4 => Some(Code::Digit4),
        Key::Num5 => Some(Code::Digit5),
        Key::Num6 => Some(Code::Digit6),
        Key::Num7 => Some(Code::Digit7),
        Key::Num8 => Some(Code::Digit8),
        Key::Num9 => Some(Code::Digit9),
        Key::F1 => Some(Code::F1),
        Key::F2 => Some(Code::F2),
        Key::F3 => Some(Code::F3),
        Key::F4 => Some(Code::F4),
        Key::F5 => Some(Code::F5),
        Key::F6 => Some(Code::F6),
        Key::F7 => Some(Code::F7),
        Key::F8 => Some(Code::F8),
        Key::F9 => Some(Code::F9),
        Key::F10 => Some(Code::F10),
        Key::F11 => Some(Code::F11),
        Key::F12 => Some(Code::F12),
        Key::Space => Some(Code::Space),
        Key::Enter => Some(Code::Enter),
        Key::Tab => Some(Code::Tab),
        Key::ArrowUp => Some(Code::ArrowUp),
        Key::ArrowDown => Some(Code::ArrowDown),
        Key::ArrowLeft => Some(Code::ArrowLeft),
        Key::ArrowRight => Some(Code::ArrowRight),
        Key::Insert => Some(Code::Insert),
        Key::Delete => Some(Code::Delete),
        Key::Home => Some(Code::Home),
        Key::End => Some(Code::End),
        Key::PageUp => Some(Code::PageUp),
        Key::PageDown => Some(Code::PageDown),
        _ => None,
    }
}

/// A key that can be captured is written in ASCII, and its written name stands for
/// the physical key it is on: what was captured is what is registered.
pub proof fn law_written_key_is_itself(key: Key)
    requires
        key_text(key) is Some,
    ensures
        is_ascii_text(key_text(key)->0),
        code_named(ascii_upper(key_text(key)->0)) == key_code(key),
        key_code(key) is Some,
{
    reveal_strlit("0");
    reveal_strlit("1");
    reveal_strlit("2");
    reveal_strlit("3");
    reveal_strlit("4");
    reveal_strlit("5");
    reveal_strlit("6");
    reveal_strlit("7");
    reveal_strlit("8");
    reveal_strlit("9");
    reveal_strlit("A");
    reveal_strlit("B");
    reveal_strlit("C");
    reveal_strlit("D");
    reveal_strlit("DELETE");
    reveal_strlit("DOWN");
    reveal_strlit("Delete");
    reveal_strlit("Down");
    reveal_strlit("E");
    reveal_strlit("END");
    reveal_strlit("ENTER");
    reveal_strlit("End");
    reveal_strlit("Enter");
    reveal_strlit("F");
    reveal_strlit("F1");
    reveal_strlit("F10");
    reveal_strlit("F11");
    reveal_strlit("F12");
    reveal_strlit("F2");
    reveal_strlit("F3");
    reveal_strlit("F4");
    reveal_strlit("F5");
    reveal_strlit("F6");
    reveal_strlit("F7");
    reveal_strlit("F8");
    reveal_strlit("F9");
    reveal_strlit("G");
    reveal_strlit("H");
    reveal_strlit("HOME");
    reveal_strlit("Home");
    reveal_strlit("I");
    reveal_strlit("INSERT");
    reveal_strlit("Insert");
    reveal_strlit("J");
    reveal_strlit("K");
    reveal_strlit("L");
    reveal_strlit("LEFT");
    reveal_strlit("Left");
    reveal_strlit("M");
    reveal_strlit("N");
    reveal_strlit("O");
    reveal_strlit("P");
    reveal_strlit("PAGEDOWN");
    reveal_strlit("PAGEUP");
    reveal_strlit("PageDown");
    reveal_strlit("PageUp");
    reveal_strlit("Q");
    reveal_strlit("R");
    reveal_strlit("RIGHT");
    reveal_strlit("Right");
    reveal_strlit("S");
    reveal_strlit("SPACE");
    reveal_strlit("Space");
    reveal_strlit("T");
    reveal_strlit("TAB");
    reveal_strlit("Tab");
    reveal_strlit("U");
    reveal_strlit("UP");
    reveal_strlit("Up");
    reveal_strlit("V");
    reveal_strlit("W");
    reveal_strlit("X");
    reveal_strlit("Y");
    reveal_strlit("Z");
    // the letters by which names of the same length are told apart
    assert("A"@[0] == 'A');
    assert("B"@[0] == 'B');
    assert("C"@[0] == 'C');
    assert("D"@[0] == 'D');
    assert("E"@[0] == 'E');
    assert("F"@[0] == 'F');
    assert("G"@[0] == 'G');
    assert("H"@[0] == 'H');
    assert("I"@[0] == 'I');
    assert("J"@[0] == 'J');
    assert("K"@[0] == 'K');
    assert("L"@[0] == 'L');
    assert("M"@[0] == 'M');
    assert("N"@[0] == 'N');
    assert("O"@[0] == 'O');
    assert("P"@[0] == 'P');
    assert("Q"@[0] == 'Q');
    assert("R"@[0] == 'R');
    assert("S"@[0] == 'S');
    assert("T"@[0] == 'T');
    assert("U"@[0] == 'U');
    assert("V"@[0] == 'V');
    assert("W"@[0] == 'W');
    assert("X"@[0] == 'X');
    assert("Y"@[0] == 'Y');
    assert("Z"@[0] == 'Z');
    assert("0"@[0] == '0');
    assert("1"@[0] == '1');
    assert("2"@[0] == '2');
    assert("3"@[0] == '3');
    assert("4"@[0] == '4');
    assert("5"@[0] == '5');
    assert("6"@[0] == '6');
    assert("7"@[0] == '7');
    assert("8"@[0] == '8');
    assert("9"@[0] == '9');
    assert("F1"@[0] == 'F' && "F1"@[1] == '1');
    assert("F2"@[0] == 'F' && "F2"@[1] == '2');
    assert("F3"@[0] == 'F' && "F3"@[1] == '3');
    assert("F4"@[0] == 'F' && "F4"@[1] == '4');
    assert("F5"@[0] == 'F' && "F5"@[1] == '5');
    assert("F6"@[0] == 'F' && "F6"@[1] == '6');
    assert("F7"@[0] == 'F' && "F7"@[1] == '7');
    assert("F8"@[0] == 'F' && "F8"@[1] == '8');
    assert("F9"@[0] == 'F' && "F9"@[1] == '9');
    assert("F10"@[0] == 'F' && "F10"@[2] == '0');
    assert("F11"@[0] == 'F' && "F11"@[2] == '1');
    assert("F12"@[0] == 'F' && "F12"@[2] == '2');
    assert("SPACE"@[0] == 'S');
    assert("ENTER"@[0] == 'E');
    assert("TAB"@[0] == 'T');
    assert("UP"@[0] == 'U');
    assert("DOWN"@[0] == 'D');
    assert("LEFT"@[0] == 'L');
    assert("RIGHT"@[0] == 'R');
    assert("INSERT"@[0] == 'I');
    assert("DELETE"@[0] == 'D');
    assert("HOME"@[0] == 'H');
    assert("END"@[0] == 'E');
    assert("PAGEUP"@[0] == 'P');
    assert("PAGEDOWN"@[0] == 'P');
    assert(ascii_upper("Space"@) =~= "SPACE"@);
    assert(ascii_upper("Enter"@) =~= "ENTER"@);
    assert(ascii_upper("Tab"@) =~= "TAB"@);
    assert(ascii_upper("Up"@) =~= "UP"@);
    assert(ascii_upper("Down"@) =~= "DOWN"@);
    assert(ascii_upper("Left"@) =~= "LEFT"@);
    assert(ascii_upper("Right"@) =~= "RIGHT"@);
    assert(ascii_upper("Insert"@) =~= "INSERT"@);
    assert(ascii_upper("Delete"@) =~= "DELETE"@);
    assert(ascii_upper("Home"@) =~= "HOME"@);
    assert(ascii_upper("End"@) =~= "END"@);
    assert(ascii_upper("PageUp"@) =~= "PAGEUP"@);
    assert(ascii_upper("PageDown"@) =~= "PAGEDOWN"@);
    let text = key_text(key)->0;
    if text.len() == 1 || text[0] == 'F' {
        assert(ascii_upper(text) =~= text);
    }
}

/// No two names stand for the same physical key.
pub proof fn law_code_has_one_name(a: Seq<char>, b: Seq<char>)
    requires
        code_named(a) is Some,
        code_named(a) == code_named(b),
    ensures
        a == b,
{
}

/// A name that stands for a physical key is in upper case already: brought to upper case
/// again, it stands for the same key.
pub proof fn law_names_are_upper_case(name: Seq<char>)
    requires
        code_named(name) is Some,
    ensures
        is_ascii_text(name),
        ascii_upper(name) == name,
{
    reveal_strlit("0");
    reveal_strlit("1");
    reveal_strlit("2");
    reveal_strlit("3");
    reveal_strlit("4");
    reveal_strlit("5");
    reveal_strlit("6");
    reveal_strlit("7");
    reveal_strlit("8");
    reveal_strlit("9");
    reveal_strlit("A");
    reveal_strlit("B");
    reveal_strlit("C");
    reveal_strlit("D");
    reveal_strlit("DELETE");
    reveal_strlit("DOWN");
    reveal_strlit("E");
    reveal_strlit("END");
    reveal_strlit("ENTER");
    reveal_strlit("F");
    reveal_strlit("F1");
    reveal_strlit("F10");
    reveal_strlit("F11");
    reveal_strlit("F12");
    reveal_strlit("F2");
    reveal_strlit("F3");
    reveal_strlit("F4");
    reveal_strlit("F5");
    reveal_strlit("F6");
    reveal_strlit("F7");
    reveal_strlit("F8");
    reveal_strlit("F9");
    reveal_strlit("G");
    reveal_strlit("H");
    reveal_strlit("HOME");
    reveal_strlit("I");
    reveal_strlit("INSERT");
    reveal_strlit("J");
    reveal_strlit("K");
    reveal_strlit("L");
    reveal_strlit("LEFT");
    reveal_strlit("M");
    reveal_strlit("N");
    reveal_strlit("O");
    reveal_strlit("P");
    reveal_strlit("PAGEDOWN");
    reveal_strlit("PAGEUP");
    reveal_strlit("Q");
    reveal_strlit("R");
    reveal_strlit("RIGHT");
    reveal_strlit("S");
    reveal_strlit("SPACE");
    reveal_strlit("T");
    reveal_strlit("TAB");
    reveal_strlit("U");
    reveal_strlit("UP");
    reveal_strlit("V");
    reveal_strlit("W");
    reveal_strlit("X");
    reveal_strlit("Y");
    reveal_strlit("Z");
    assert(ascii_upper(name) =~= name);
}

/// Case does not matter in an ASCII text: in upper case it stands for the same key.
pub proof fn law_case_does_not_matter(s: Seq<char>)
    requires
        is_ascii_text(s),
    ensures
        is_ascii_text(ascii_upper(s)),
        ascii_upper(ascii_upper(s)) == ascii_upper(s),
{
    assert(ascii_upper(ascii_upper(s)) =~= ascii_upper(s));
}

/// Two texts of which one stands for a key stand for the same key exactly where they are
/// the same in upper case.
pub proof fn law_codes_agree_with_upper_case(s: Seq<char>, t: Seq<char>)
    ensures
        code_named(uppercase_text(s)) is Some ==> (code_named(uppercase_text(s)) == code_named(
            uppercase_text(t),
        ) <==> uppercase_text(s) == uppercase_text(t)),
{
    if code_named(uppercase_text(s)) is Some && code_named(uppercase_text(s)) == code_named(
        uppercase_text(t),
    ) {
        law_code_has_one_name(uppercase_text(s), uppercase_text(t));
    }
}

} // verus!
