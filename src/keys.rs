use vstd::prelude::*;
use vstd::string::*;
use crate::text::{has_prefix, push_char, starts_with, text_eq};

verus! {

/// A key on the keyboard.
#[derive(Clone, Copy, Debug, PartialEq, Eq, Structural, Hash, PartialOrd, Ord)]
pub enum KeyCode {
    Char(char),
    Enter,
    Esc,
    Tab,
    Backspace,
    Up,
    Down,
    Left,
    Right,
    Home,
    End,
    PageUp,
    PageDown,
    Delete,
    Insert,
}

/// The modifier keys held with a key.
#[derive(Clone, Copy, Debug, PartialEq, Eq, Structural, Hash, PartialOrd, Ord)]
pub struct KeyModifiers {
    pub ctrl: bool,
    pub alt: bool,
    pub shift: bool,
}

/// One key press: a key and the modifiers held with it.
#[derive(Clone, Copy, Debug, PartialEq, Eq, Structural, Hash, PartialOrd, Ord)]
pub struct KeyEvent {
    pub code: KeyCode,
    pub modifiers: KeyModifiers,
}

/// The key that a key name stands for, without modifiers.
pub open spec fn key_code_of(s: Seq<char>) -> Option<KeyCode> {
    if s.len() == 1 {
        Some(KeyCode::Char(s[0]))
    } else if s == "space"@ {
        Some(KeyCode::Char(' '))
    } else if s == "enter"@ {
        Some(KeyCode::Enter)
    } else if s == "esc"@ {
        Some(KeyCode::Esc)
    } else if s == "tab"@ {
        Some(KeyCode::Tab)
    } else if s == "backspace"@ {
        Some(KeyCode::Backspace)
    } else if s == "up"@ {
        Some(KeyCode::Up)
    } else if s == "down"@ {
        Some(KeyCode::Down)
    } else if s == "left"@ {
        Some(KeyCode::Left)
    } else if s == "right"@ {
        Some(KeyCode::Right)
    } else if s == "home"@ {
        Some(KeyCode::Home)
    } else if s == "end"@ {
        Some(KeyCode::End)
    } else if s == "pageup"@ {
        Some(KeyCode::PageUp)
    } else if s == "pagedown"@ {
        Some(KeyCode::PageDown)
    } else if s == "delete"@ {
        Some(KeyCode::Delete)
    } else if s == "insert"@ {
        Some(KeyCode::Insert)
    } else {
        None
    }
}

/// The key press that a key text names: any number of `ctrl+`, `alt+` and
/// `shift+` prefixes, then a key name. (Each prefix is also tested to be
/// non-empty, which shows that the recursion ends.)
pub open spec fn key_event_of(s: Seq<char>) -> Option<KeyEvent>
    decreases s.len(),
{
    if has_prefix(s, "ctrl+"@) && s.len() > "ctrl+"@.len() && "ctrl+"@.len() > 0 {
        match key_event_of(s.subrange("ctrl+"@.len() as int, s.len() as int)) {
            Some(k) => Some(KeyEvent { modifiers: KeyModifiers { ctrl: true, ..k.modifiers }, ..k }),
            None => None,
        }
    } else if has_prefix(s, "alt+"@) && s.len() > "alt+"@.len() && "alt+"@.len() > 0 {
        match key_event_of(s.subrange("alt+"@.len() as int, s.len() as int)) {
            Some(k) => Some(KeyEvent { modifiers: KeyModifiers { alt: true, ..k.modifiers }, ..k }),
            None => None,
        }
    } else if has_prefix(s, "shift+"@) && s.len() > "shift+"@.len() && "shift+"@.len() > 0 {
        match key_event_of(s.subrange("shift+"@.len() as int, s.len() as int)) {
            Some(k) => Some(KeyEvent { modifiers: KeyModifiers { shift: true, ..k.modifiers }, ..k }),
            None => None,
        }
    } else {
        match key_code_of(s) {
            Some(c) => Some(KeyEvent { code: c, modifiers: KeyModifiers { ctrl: false, alt: false, shift: false } }),
            None => None,
        }
    }
}

fn parse_key_code(s: &str) -> (r: Option<KeyCode>)
    ensures
        r == key_code_of(s@),
{
    if s.unicode_len() == 1 {
        Some(KeyCode::Char(s.get_char(0)))
    } else if text_eq(s, "space") {
        Some(KeyCode::Char(' '))
    } else if text_eq(s, "enter") {
        Some(KeyCode::Enter)
    } else if text_eq(s, "esc") {
        Some(KeyCode::Esc)
    } else if text_eq(s, "tab") {
        Some(KeyCode::Tab)
    } else if text_eq(s, "backspace") {
        Some(KeyCode::Backspace)
    } else if text_eq(s, "up") {
        Some(KeyCode::Up)
    } else if text_eq(s, "down") {
        Some(KeyCode::Down)
    } else if text_eq(s, "left") {
        Some(KeyCode::Left)
    } else if text_eq(s, "right") {
        Some(KeyCode::Right)
    } else if text_eq(s, "home") {
        Some(KeyCode::Home)
    } else if text_eq(s, "end") {
        Some(KeyCode::End)
    } else if text_eq(s, "pageup") {
        Some(KeyCode::PageUp)
    } else if text_eq(s, "pagedown") {
        Some(KeyCode::PageDown)
    } else if text_eq(s, "delete") {
        Some(KeyCode::Delete)
    } else if text_eq(s, "insert") {
        Some(KeyCode::Insert)
    } else {
        None
    }
}

impl KeyEvent {
    /// Reads a key text such as `a`, `enter` or `ctrl+alt+x`.
    pub fn parse(s: &str) -> (r: Option<KeyEvent>)
        ensures
            r == key_event_of(s@),
        decreases s@.len(),
    {
        let n = s.unicode_len();
        let ctrl = "ctrl+";
        let alt = "alt+";
        let shift = "shift+";
        if starts_with(s, ctrl) && n > ctrl.unicode_len() && ctrl.unicode_len() > 0 {
            match KeyEvent::parse(s.substring_char(ctrl.unicode_len(), n)) {
                Some(k) => Some(KeyEvent { modifiers: KeyModifiers { ctrl: true, ..k.modifiers }, ..k }),
                None => None,
            }
        } else if starts_with(s, alt) && n > alt.unicode_len() && alt.unicode_len() > 0 {
            match KeyEvent::parse(s.substring_char(alt.unicode_len(), n)) {
                Some(k) => Some(KeyEvent { modifiers: KeyModifiers { alt: true, ..k.modifiers }, ..k }),
                None => None,
            }
        } else if starts_with(s, shift) && n > shift.unicode_len() && shift.unicode_len() > 0 {
            match KeyEvent::parse(s.substring_char(shift.unicode_len(), n)) {
                Some(k) => Some(KeyEvent { modifiers: KeyModifiers { shift: true, ..k.modifiers }, ..k }),
                None => None,
            }
        } else {
            match parse_key_code(s) {
                Some(c) => Some(KeyEvent { code: c, modifiers: KeyModifiers { ctrl: false, alt: false, shift: false } }),
                None => None,
            }
        }
    }
}

/// The name of a key, as `key_code_of` reads it.
pub open spec fn key_code_text(c: KeyCode) -> Seq<char> {
    match c {
        KeyCode::Char(ch) => if ch == ' ' { "space"@ } else { seq![ch] },
        KeyCode::Enter => "enter"@,
        KeyCode::Esc => "esc"@,
        KeyCode::Tab => "tab"@,
        KeyCode::Backspace => "backspace"@,
        KeyCode::Up => "up"@,
        KeyCode::Down => "down"@,
        KeyCode::Left => "left"@,
        KeyCode::Right => "right"@,
        KeyCode::Home => "home"@,
        KeyCode::End => "end"@,
        KeyCode::PageUp => "pageup"@,
        KeyCode::PageDown => "pagedown"@,
        KeyCode::Delete => "delete"@,
        KeyCode::Insert => "insert"@,
    }
}

/// The text of a key press: `ctrl+`, `alt+` and `shift+` as held, in that
/// order, then the key's name.
pub open spec fn key_event_text(k: KeyEvent) -> Seq<char> {
    (if k.modifiers.ctrl { "ctrl+"@ } else { Seq::empty() }) + (if k.modifiers.alt { "alt+"@ } else { Seq::empty() })
        + (if k.modifiers.shift { "shift+"@ } else { Seq::empty() }) + key_code_text(k.code)
}

impl KeyEvent {
    /// The key press as text, in the form that `parse` reads.
    pub fn to_text(&self) -> (r: String)
        ensures
            r@ == key_event_text(*self),
    {
        let mut s = String::new();
        if self.modifiers.ctrl {
            s.append("ctrl+");
        }
        if self.modifiers.alt {
            s.append("alt+");
        }
        if self.modifiers.shift {
            s.append("shift+");
        }
        let ghost pre = s@;
        match self.code {
            KeyCode::Char(ch) => if ch == ' ' {
                s.append("space")
            } else {
                push_char(&mut s, ch);
                assert(s@ =~= pre + seq![ch]);
            },
            KeyCode::Enter => s.append("enter"),
            KeyCode::Esc => s.append("esc"),
            KeyCode::Tab => s.append("tab"),
            KeyCode::Backspace => s.append("backspace"),
            KeyCode::Up => s.append("up"),
            KeyCode::Down => s.append("down"),
            KeyCode::Left => s.append("left"),
            KeyCode::Right => s.append("right"),
            KeyCode::Home => s.append("home"),
            KeyCode::End => s.append("end"),
            KeyCode::PageUp => s.append("pageup"),
            KeyCode::PageDown => s.append("pagedown"),
            KeyCode::Delete => s.append("delete"),
            KeyCode::Insert => s.append("insert"),
        }
        assert(s@ =~= key_event_text(*self));
        s
    }
}

/// The text of a key alone reads back as that key, with no modifiers.
proof fn lemma_key_code_round_trip(c: KeyCode)
    ensures
        key_event_of(key_code_text(c)) == Some(
            KeyEvent { code: c, modifiers: KeyModifiers { ctrl: false, alt: false, shift: false } },
        ),
{
    reveal_strlit("ctrl+");
    reveal_strlit("alt+");
    reveal_strlit("shift+");
    reveal_strlit("space");
    reveal_strlit("enter");
    reveal_strlit("esc");
    reveal_strlit("tab");
    reveal_strlit("backspace");
    reveal_strlit("up");
    reveal_strlit("down");
    reveal_strlit("left");
    reveal_strlit("right");
    reveal_strlit("home");
    reveal_strlit("end");
    reveal_strlit("pageup");
    reveal_strlit("pagedown");
    reveal_strlit("delete");
    reveal_strlit("insert");
    assert("ctrl+"@[0] == 'c' && "ctrl+"@[1] == 't');
    assert("alt+"@[0] == 'a' && "alt+"@[1] == 'l');
    assert("shift+"@[0] == 's' && "shift+"@[1] == 'h');
    assert("space"@[0] == 's' && "space"@[1] == 'p');
    assert("enter"@[0] == 'e' && "enter"@[1] == 'n');
    assert("esc"@[0] == 'e' && "esc"@[1] == 's');
    assert("tab"@[0] == 't' && "tab"@[1] == 'a');
    assert("backspace"@[0] == 'b' && "backspace"@[1] == 'a');
    assert("up"@[0] == 'u' && "up"@[1] == 'p');
    assert("down"@[0] == 'd' && "down"@[1] == 'o');
    assert("left"@[0] == 'l' && "left"@[1] == 'e');
    assert("right"@[0] == 'r' && "right"@[1] == 'i');
    assert("home"@[0] == 'h' && "home"@[1] == 'o');
    assert("end"@[0] == 'e' && "end"@[1] == 'n');
    assert("pageup"@[0] == 'p' && "pageup"@[1] == 'a');
    assert("pagedown"@[0] == 'p' && "pagedown"@[1] == 'a');
    assert("delete"@[0] == 'd' && "delete"@[1] == 'e');
    assert("insert"@[0] == 'i' && "insert"@[1] == 'n');
    let t = key_code_text(c);
    if t.len() >= 2 {
        assert(t[0] == t[0] && t[1] == t[1]);
    }
    assert(!has_prefix(t, "ctrl+"@)) by {
        if t.len() >= 5 {
            assert(t.subrange(0, 5)[0] == t[0]);
        }
    };
    assert(!has_prefix(t, "alt+"@)) by {
        if t.len() >= 4 {
            assert(t.subrange(0, 4)[0] == t[0]);
            assert(t.subrange(0, 4)[1] == t[1]);
        }
    };
    assert(!has_prefix(t, "shift+"@)) by {
        if t.len() >= 6 {
            assert(t.subrange(0, 6)[5] == t[5]);
        }
    };
    assert(key_code_of(t) == Some(c));
    assert(key_event_of(t) == Some(
        KeyEvent { code: c, modifiers: KeyModifiers { ctrl: false, alt: false, shift: false } },
    ));
}

proof fn lemma_prefix_split(p: Seq<char>, rest: Seq<char>)
    ensures
        has_prefix(p + rest, p),
        (p + rest).subrange(p.len() as int, (p + rest).len() as int) == rest,
        p.len() > 0 ==> (p + rest)[0] == p[0],
{
    assert((p + rest).subrange(0, p.len() as int) =~= p);
    assert((p + rest).subrange(p.len() as int, (p + rest).len() as int) =~= rest);
}

/// A text that starts with `c` has no prefix whose first character differs.
proof fn lemma_no_prefix(s: Seq<char>, p: Seq<char>)
    requires
        s.len() > 0,
        p.len() > 0,
        s[0] != p[0],
    ensures
        !has_prefix(s, p),
{
    if p.len() <= s.len() {
        assert(s.subrange(0, p.len() as int)[0] == s[0]);
    }
}

/// Reading back the text of a key press gives the same key press.
pub proof fn lemma_key_text_round_trip(k: KeyEvent)
    ensures
        key_event_of(key_event_text(k)) == Some(k),
{
    reveal_strlit("space");
    reveal_strlit("enter");
    reveal_strlit("esc");
    reveal_strlit("tab");
    reveal_strlit("backspace");
    reveal_strlit("up");
    reveal_strlit("down");
    reveal_strlit("left");
    reveal_strlit("right");
    reveal_strlit("home");
    reveal_strlit("end");
    reveal_strlit("pageup");
    reveal_strlit("pagedown");
    reveal_strlit("delete");
    reveal_strlit("insert");
    reveal_strlit("ctrl+");
    reveal_strlit("alt+");
    reveal_strlit("shift+");
    assert("ctrl+"@[0] == 'c');
    assert("alt+"@[0] == 'a');
    assert("shift+"@[0] == 's');
    lemma_key_code_round_trip(k.code);
    let none = KeyModifiers { ctrl: false, alt: false, shift: false };
    let c = key_code_text(k.code);
    assert(c.len() > 0);
    let s3 = (if k.modifiers.shift { "shift+"@ } else { Seq::empty() }) + c;
    let s2 = (if k.modifiers.alt { "alt+"@ } else { Seq::empty() }) + s3;
    let s1 = (if k.modifiers.ctrl { "ctrl+"@ } else { Seq::empty() }) + s2;
    let k3 = KeyEvent { code: k.code, modifiers: KeyModifiers { shift: k.modifiers.shift, ..none } };
    let k2 = KeyEvent { code: k.code, modifiers: KeyModifiers { alt: k.modifiers.alt, shift: k.modifiers.shift, ..none } };
    if k.modifiers.shift {
        lemma_prefix_split("shift+"@, c);
        lemma_no_prefix(s3, "ctrl+"@);
        lemma_no_prefix(s3, "alt+"@);
        assert(key_event_of(s3) == Some(k3));
    } else {
        assert(s3 =~= c);
    }
    if k.modifiers.alt {
        lemma_prefix_split("alt+"@, s3);
        lemma_no_prefix(s2, "ctrl+"@);
        assert(key_event_of(s2) == Some(k2));
    } else {
        assert(s2 =~= s3);
    }
    if k.modifiers.ctrl {
        lemma_prefix_split("ctrl+"@, s2);
        assert(key_event_of(s1) == Some(k));
    } else {
        assert(s1 =~= s2);
    }
    assert(key_event_text(k) =~= s1);
}

} // verus!
