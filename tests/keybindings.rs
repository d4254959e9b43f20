use watchbind::bindings::{parse_str, ConfigError, Keybindings, StringKeybindings};
use watchbind::keys::{KeyCode, KeyEvent, KeyModifiers};
use watchbind::operations::{Command, Operation, Operations};

fn plain(c: char) -> KeyEvent {
    KeyEvent {
        code: KeyCode::Char(c),
        modifiers: KeyModifiers { ctrl: false, alt: false, shift: false },
    }
}

fn strings(v: &[&str]) -> Vec<String> {
    v.iter().map(|s| s.to_string()).collect()
}

fn raw(entries: &[(&str, &[&str])]) -> StringKeybindings {
    let mut kb = StringKeybindings::empty();
    for (k, ops) in entries {
        kb.insert(k.to_string(), strings(ops));
    }
    kb
}

#[test]
fn parse_select_down_in_order() {
    let (key, ops) = parse_str("a:select+down").unwrap();
    assert_eq!(key, "a");
    assert_eq!(ops, strings(&["select", "down"]));
    assert_eq!(KeyEvent::parse(&key), Some(plain('a')));
    let parsed = Operations::from_texts(&ops).unwrap();
    assert_eq!(parsed, Operations(vec![Operation::Select, Operation::MoveDown(1)]));
}

#[test]
fn parse_trims_operations_and_splits_at_first_colon() {
    let (key, ops) = parse_str("x: exec -- echo a:b + up 3 ").unwrap();
    assert_eq!(key, "x");
    assert_eq!(ops, strings(&["exec -- echo a:b", "up 3"]));
}

#[test]
fn parse_without_colon_fails() {
    assert_eq!(
        parse_str("a-select"),
        Err(ConfigError::MissingColon("a-select".to_string()))
    );
}

#[test]
fn parse_empty_operation_piece() {
    let (key, ops) = parse_str("q:").unwrap();
    assert_eq!(key, "q");
    assert_eq!(ops, strings(&[""]));
}

#[test]
fn merge_new_wins_old_kept() {
    let new = raw(&[("a", &["X"])]);
    let old = raw(&[("a", &["Y"]), ("b", &["Z"])]);
    let merged = StringKeybindings::merge(Some(new), Some(old)).unwrap();
    assert_eq!(merged.len(), 2);
    assert_eq!(merged.get("a"), Some(&strings(&["X"])));
    assert_eq!(merged.get("b"), Some(&strings(&["Z"])));
    assert_eq!(merged.get("c"), None);
}

#[test]
fn merge_with_one_side_missing() {
    let only_new = StringKeybindings::merge(Some(raw(&[("a", &["X"])])), None).unwrap();
    assert_eq!(only_new.get("a"), Some(&strings(&["X"])));
    let only_old = StringKeybindings::merge(None, Some(raw(&[("b", &["Z"])]))).unwrap();
    assert_eq!(only_old.get("b"), Some(&strings(&["Z"])));
    assert!(StringKeybindings::merge(None, None).is_none());
}

#[test]
fn insert_replaces_existing_key() {
    let kb = raw(&[("a", &["X"]), ("a", &["Y", "W"])]);
    assert_eq!(kb.len(), 1);
    assert_eq!(kb.get("a"), Some(&strings(&["Y", "W"])));
}

#[test]
fn build_and_look_up() {
    let kb = Keybindings::try_from(raw(&[
        ("j", &["down"]),
        ("ctrl+k", &["up 2", "select"]),
        ("enter", &["exec -- echo $LINES"]),
        ("space", &["exec & -- notify"]),
    ]))
    .unwrap();
    assert_eq!(
        kb.get_operations(&plain('j')),
        Some(&Operations(vec![Operation::MoveDown(1)]))
    );
    let ctrl_k = KeyEvent {
        code: KeyCode::Char('k'),
        modifiers: KeyModifiers { ctrl: true, alt: false, shift: false },
    };
    assert_eq!(
        kb.get_operations(&ctrl_k),
        Some(&Operations(vec![Operation::MoveUp(2), Operation::Select]))
    );
    let enter = KeyEvent {
        code: KeyCode::Enter,
        modifiers: KeyModifiers { ctrl: false, alt: false, shift: false },
    };
    assert_eq!(
        kb.get_operations(&enter),
        Some(&Operations(vec![Operation::RunCommand(Command {
            command: "echo $LINES".to_string(),
            blocking: true,
        })]))
    );
    assert_eq!(
        kb.get_operations(&plain(' ')),
        Some(&Operations(vec![Operation::RunCommand(Command {
            command: "notify".to_string(),
            blocking: false,
        })]))
    );
    assert_eq!(kb.get_operations(&plain('k')), None);
}

#[test]
fn build_rejects_unknown_key() {
    let r = Keybindings::try_from(raw(&[("nokey", &["down"])]));
    assert!(matches!(r, Err(ConfigError::InvalidKey(k)) if k == "nokey"));
}

#[test]
fn build_rejects_unknown_operation() {
    let r = Keybindings::try_from(raw(&[("a", &["select", "jump"])]));
    assert!(matches!(r, Err(ConfigError::InvalidOperation(o)) if o == "jump"));
}

#[test]
fn build_rejects_empty_operation_list() {
    let r = Keybindings::try_from(raw(&[("a", &[])]));
    assert!(matches!(r, Err(ConfigError::NoOperations(k)) if k == "a"));
}

#[test]
fn key_names_and_modifiers() {
    let k = KeyEvent::parse("ctrl+alt+x").unwrap();
    assert_eq!(k.code, KeyCode::Char('x'));
    assert!(k.modifiers.ctrl && k.modifiers.alt && !k.modifiers.shift);
    assert_eq!(KeyEvent::parse("pagedown").unwrap().code, KeyCode::PageDown);
    assert_eq!(KeyEvent::parse("+"), Some(plain('+')));
    assert_eq!(KeyEvent::parse("ctrl+"), None);
    assert_eq!(KeyEvent::parse(""), None);
    assert_eq!(KeyEvent::parse("enterr"), None);
}

#[test]
fn operation_names() {
    assert_eq!(Operation::parse("up"), Some(Operation::MoveUp(1)));
    assert_eq!(Operation::parse("down 12"), Some(Operation::MoveDown(12)));
    assert_eq!(Operation::parse("down x"), None);
    assert_eq!(Operation::parse("down "), None);
    assert_eq!(Operation::parse("down 99999999999999999999999"), None);
    assert_eq!(Operation::parse("first"), Some(Operation::MoveFirst));
    assert_eq!(Operation::parse("last"), Some(Operation::MoveLast));
    assert_eq!(Operation::parse("unselect"), Some(Operation::Unselect));
    assert_eq!(Operation::parse("select-toggle"), Some(Operation::ToggleSelect));
    assert_eq!(Operation::parse("select-all"), Some(Operation::SelectAll));
    assert_eq!(Operation::parse("unselect-all"), Some(Operation::UnselectAll));
    assert_eq!(Operation::parse("help-toggle"), Some(Operation::ToggleHelp));
    assert_eq!(Operation::parse("Select"), None);
}

#[test]
fn display_sorted_and_aligned() {
    let kb = Keybindings::try_from(raw(&[
        ("j", &["down"]),
        ("ctrl+a", &["select", "down 3"]),
        ("a", &["exec & -- echo hi"]),
        ("space", &["select-toggle", "up"]),
    ]))
    .unwrap();
    assert_eq!(
        kb.display_text(),
        "a:       exec & -- echo hi\nctrl+a:  select+down 3\nj:       down\nspace:   select-toggle+up\n"
    );
}

#[test]
fn key_and_operation_texts_read_back() {
    for text in ["a", "ctrl+alt+shift+x", "space", "enter", "pagedown", "alt++"] {
        let k = KeyEvent::parse(text).unwrap();
        assert_eq!(k.to_text(), text);
    }
    let ops = Operations::from_texts(&strings(&["up 10", "down", "exec -- ls -l", "help-toggle"])).unwrap();
    assert_eq!(ops.to_text(), "up 10+down+exec -- ls -l+help-toggle");
    let mut s = String::new();
    Operation::MoveDown(0).append_text(&mut s);
    assert_eq!(s, "down 0");
}

#[test]
fn from_pairs_last_entry_wins() {
    let kb = StringKeybindings::from_pairs(vec![
        ("a".to_string(), strings(&["X"])),
        ("b".to_string(), strings(&["Z"])),
        ("a".to_string(), strings(&["Y"])),
    ]);
    assert_eq!(kb.len(), 2);
    assert_eq!(kb.get("a"), Some(&strings(&["Y"])));
    assert_eq!(kb.get("b"), Some(&strings(&["Z"])));
}

#[test]
fn parse_trims_unicode_whitespace() {
    let (key, ops) = parse_str("k:\u{3000}select\u{a0}+\tdown\n").unwrap();
    assert_eq!(key, "k");
    assert_eq!(ops, strings(&["select", "down"]));
}

#[test]
fn parsed_entry_builds_lookup_in_order() {
    let kb = Keybindings::try_from(StringKeybindings::from_pairs(vec![parse_str("a:select+down").unwrap()])).unwrap();
    assert_eq!(
        kb.get_operations(&KeyEvent::parse("a").unwrap()),
        Some(&Operations(vec![Operation::Select, Operation::MoveDown(1)]))
    );
    assert_eq!(kb.display_text(), "a:  select+down\n");
}

#[test]
fn empty_bindings_display_nothing() {
    let kb = Keybindings::try_from(StringKeybindings::empty()).unwrap();
    assert_eq!(kb.display_text(), "");
}
