use watchbind::operations::{Command, Operation};
use watchbind::state::State;

fn lines(v: &[&str]) -> Vec<String> {
    v.iter().map(|s| s.to_string()).collect()
}

#[test]
fn down_from_top_stays_in_range_and_lands_on_last() {
    for (len, header) in [(4usize, 1usize), (3, 5), (1, 0), (6, 0)] {
        let text: Vec<String> = (0..len).map(|i| i.to_string()).collect();
        let mut state = State::new(header);
        state.update_lines(text);
        assert_eq!(state.cursor(), Some(header));
        let last = std::cmp::max(header, len - 1);
        for _ in 0..len + 5 {
            state.down(1);
            let c = state.cursor().unwrap();
            assert!(header <= c && c <= last);
        }
        assert_eq!(state.cursor(), Some(last));
    }
}

#[test]
fn toggle_twice_restores_selection() {
    let mut state = State::new(0);
    state.update_lines(lines(&["a", "b", "c"]));
    state.down(1);
    let before = state.selected().clone();
    state.select_toggle();
    assert_eq!(state.selected(), &vec![false, true, false]);
    state.select_toggle();
    assert_eq!(state.selected(), &before);
}

#[test]
fn shorter_lines_truncate_and_clamp_cursor() {
    let mut state = State::new(1);
    state.update_lines(lines(&["h", "a", "b", "c", "d", "e"]));
    state.last();
    assert_eq!(state.cursor(), Some(5));
    state.select();
    state.up(3);
    state.select();
    assert_eq!(state.selected(), &vec![false, false, true, false, false, true]);
    state.update_lines(lines(&["h", "x", "y"]));
    assert_eq!(state.selected(), &vec![false, false, true]);
    assert_eq!(state.cursor(), Some(2));
    state.update_lines(vec![]);
    assert_eq!(state.selected().len(), 0);
    assert_eq!(state.cursor(), None);
    state.update_lines(lines(&["h", "x"]));
    assert_eq!(state.cursor(), Some(1));
    assert_eq!(state.selected(), &vec![false, false]);
}

#[test]
fn longer_lines_pad_selection_with_false() {
    let mut state = State::new(0);
    state.update_lines(lines(&["a"]));
    state.select();
    state.update_lines(lines(&["a", "b", "c"]));
    assert_eq!(state.selected(), &vec![true, false, false]);
    assert_eq!(state.cursor(), Some(0));
}

#[test]
fn selected_lines_join_in_order() {
    let mut state = State::new(0);
    state.update_lines(lines(&["a", "b", "c", "d"]));
    state.down(3);
    state.select();
    state.up(2);
    state.select();
    assert_eq!(state.selected(), &vec![false, true, false, true]);
    assert_eq!(state.get_selected_lines(), Some("b\nd".to_string()));
}

#[test]
fn cursor_line_without_selection() {
    let mut state = State::new(0);
    state.update_lines(lines(&["a", "b", "c", "d"]));
    state.down(2);
    assert_eq!(state.get_selected_lines(), Some("c".to_string()));
}

#[test]
fn nothing_without_cursor() {
    let state = State::new(0);
    assert_eq!(state.cursor(), None);
    assert_eq!(state.get_selected_lines(), None);
}

#[test]
fn cursor_past_the_lines_yields_nothing() {
    let mut state = State::new(3);
    state.update_lines(lines(&["a", "b"]));
    assert_eq!(state.cursor(), Some(3));
    state.select();
    assert_eq!(state.selected(), &vec![false, false]);
    assert_eq!(state.get_selected_lines(), None);
}

#[test]
fn moves_on_empty_state_do_nothing() {
    let mut state = State::new(2);
    state.down(4);
    state.up(1);
    state.first();
    state.last();
    state.select();
    state.select_all();
    assert_eq!(state.cursor(), None);
    assert!(state.selected().is_empty());
}

#[test]
fn up_down_first_last_clamp() {
    let mut state = State::new(1);
    state.update_lines(lines(&["h", "a", "b", "c"]));
    state.up(10);
    assert_eq!(state.cursor(), Some(1));
    state.down(usize::MAX);
    assert_eq!(state.cursor(), Some(3));
    state.up(usize::MAX);
    assert_eq!(state.cursor(), Some(1));
    state.last();
    assert_eq!(state.cursor(), Some(3));
    state.first();
    assert_eq!(state.cursor(), Some(1));
}

#[test]
fn select_all_and_unselect_all() {
    let mut state = State::new(0);
    state.update_lines(lines(&["a", "b", "c"]));
    state.select_all();
    assert_eq!(state.selected(), &vec![true, true, true]);
    assert_eq!(state.get_selected_lines(), Some("a\nb\nc".to_string()));
    state.unselect();
    assert_eq!(state.selected(), &vec![false, true, true]);
    state.unselect_all();
    assert_eq!(state.selected(), &vec![false, false, false]);
    assert_eq!(state.get_selected_lines(), Some("a".to_string()));
}

#[test]
fn help_menu_toggles() {
    let mut state = State::new(0);
    assert!(!state.show_help_menu());
    state.toggle_help_menu();
    assert!(state.show_help_menu());
    state.toggle_help_menu();
    assert!(!state.show_help_menu());
}

#[test]
fn apply_runs_each_operation() {
    let mut state = State::new(0);
    state.update_lines(lines(&["a", "b", "c", "d"]));
    for op in [
        Operation::MoveDown(2),
        Operation::Select,
        Operation::MoveUp(1),
        Operation::ToggleSelect,
        Operation::RunCommand(Command { command: "true".to_string(), blocking: true }),
    ] {
        state.apply(&op);
    }
    assert_eq!(state.cursor(), Some(1));
    assert_eq!(state.get_selected_lines(), Some("b\nc".to_string()));
    state.apply(&Operation::MoveLast);
    assert_eq!(state.cursor(), Some(3));
    state.apply(&Operation::MoveFirst);
    assert_eq!(state.cursor(), Some(0));
    state.apply(&Operation::Unselect);
    state.apply(&Operation::SelectAll);
    assert_eq!(state.selected(), &vec![true; 4]);
    state.apply(&Operation::UnselectAll);
    assert_eq!(state.selected(), &vec![false; 4]);
    state.apply(&Operation::ToggleHelp);
    assert!(state.show_help_menu());
}
