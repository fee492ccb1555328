use cargo_tree_tui::dependency::{Dependency, DependencyNode, DependencyTree, NodeId};
use cargo_tree_tui::style::TreeWidgetStyle;
use cargo_tree_tui::tui::{digit_depth, Key, TuiState};
use cargo_tree_tui::viewport::Area;

fn krate(name: &str, parent: Option<usize>, children: &[usize]) -> DependencyNode {
    DependencyNode::Crate(Dependency {
        name: name.to_string(),
        version: String::new(),
        manifest_dir: None,
        is_proc_macro: false,
        parent: parent.map(NodeId),
        children: children.iter().copied().map(NodeId).collect(),
    })
}

/// ```text
/// 0 root
///   1 alpha
///     2 serde
///   3 beta
/// ```
fn state() -> TuiState {
    TuiState::new(
        DependencyTree::from_parts(
            "ws".to_string(),
            vec![
                krate("root", None, &[1, 3]),
                krate("alpha", Some(0), &[2]),
                krate("serde", Some(1), &[]),
                krate("beta", Some(0), &[]),
            ],
            vec![NodeId(0)],
        )
        .unwrap(),
    )
}

fn selected(state: &TuiState) -> Option<usize> {
    state.tree_widget_state().selected().map(|id| id.0)
}

fn typed(state: &TuiState) -> Option<String> {
    state.search_query().map(|q| q.iter().collect())
}

fn press(state: &mut TuiState, text: &str) {
    for c in text.chars() {
        state.handle_key_event(Key::Char(c));
    }
}

#[test]
fn new_state_is_running_and_fully_expanded() {
    let state = state();
    assert!(state.running());
    assert!(!state.show_help());
    assert_eq!(typed(&state), None);
    assert_eq!(selected(&state), Some(0));
    assert_eq!(state.tree_widget_state().open_count(), 2);
    assert_eq!(state.dependency_tree().len(), 4);
}

#[test]
fn q_quits() {
    let mut state = state();
    state.handle_key_event(Key::Char('q'));
    assert!(!state.running());
}

#[test]
fn any_key_closes_the_help() {
    let mut state = state();
    state.handle_key_event(Key::Char('?'));
    assert!(state.show_help());
    state.handle_key_event(Key::Down);
    assert!(!state.show_help());
    assert_eq!(selected(&state), Some(1));
    state.handle_key_event(Key::Char('?'));
    state.handle_key_event(Key::Char('?'));
    assert!(state.show_help());
    state.handle_key_event(Key::Other);
    assert!(!state.show_help());
}

#[test]
fn arrows_move_expand_and_collapse() {
    let mut state = state();
    state.handle_key_event(Key::Down);
    state.handle_key_event(Key::Down);
    assert_eq!(selected(&state), Some(2));
    state.handle_key_event(Key::Up);
    assert_eq!(selected(&state), Some(1));
    state.handle_key_event(Key::Left);
    assert!(!state.tree_widget_state().is_open(NodeId(1)));
    state.handle_key_event(Key::Right);
    assert!(state.tree_widget_state().is_open(NodeId(1)));
    state.handle_key_event(Key::Right);
    assert_eq!(selected(&state), Some(2));
}

#[test]
fn letters_move_to_parent_and_siblings() {
    let mut state = state();
    state.handle_key_event(Key::Down);
    state.handle_key_event(Key::Char(']'));
    assert_eq!(selected(&state), Some(3));
    state.handle_key_event(Key::Char('['));
    assert_eq!(selected(&state), Some(1));
    state.handle_key_event(Key::Char('p'));
    assert_eq!(selected(&state), Some(0));
}

#[test]
fn digits_open_to_a_depth() {
    let mut state = state();
    state.handle_key_event(Key::Char('1'));
    assert_eq!(state.tree_widget_state().open_count(), 0);
    state.handle_key_event(Key::Char('2'));
    assert_eq!(state.tree_widget_state().open_count(), 1);
    assert!(state.tree_widget_state().is_open(NodeId(0)));
    state.handle_key_event(Key::Char('9'));
    assert_eq!(state.tree_widget_state().open_count(), 2);
    // 0 is no depth key
    state.handle_key_event(Key::Char('0'));
    assert_eq!(state.tree_widget_state().open_count(), 2);
    assert_eq!(digit_depth('0'), None);
    assert_eq!(digit_depth('1'), Some(1));
    assert_eq!(digit_depth('9'), Some(9));
    assert_eq!(digit_depth('a'), None);
}

#[test]
fn page_keys_use_the_height_of_the_last_frame() {
    let mut state = state();
    // before the first frame there is no page to move by
    state.handle_key_event(Key::PageDown);
    assert_eq!(selected(&state), Some(0));
    let area = Area {
        x: 0,
        y: 0,
        width: 40,
        height: 2,
    };
    let style = TreeWidgetStyle::default();
    let output = state.render(&style, None, None, area);
    assert_eq!(output.lines.len(), 2);
    state.handle_key_event(Key::PageDown);
    assert_eq!(selected(&state), Some(2));
    state.handle_key_event(Key::PageDown);
    assert_eq!(selected(&state), Some(3));
    state.handle_key_event(Key::PageUp);
    assert_eq!(selected(&state), Some(1));
}

#[test]
fn typing_a_search_moves_the_selection() {
    let mut state = state();
    state.handle_key_event(Key::Char('/'));
    assert_eq!(typed(&state).as_deref(), Some(""));
    press(&mut state, "bq");
    // while typing, letters are text, not commands
    assert!(state.running());
    assert_eq!(typed(&state).as_deref(), Some("bq"));
    state.handle_key_event(Key::Backspace);
    assert_eq!(typed(&state).as_deref(), Some("b"));
    assert_eq!(selected(&state), Some(3));
    assert!(state.tree_widget_state().is_search_match(NodeId(3)));
    state.handle_key_event(Key::Backspace);
    state.handle_key_event(Key::Backspace);
    assert_eq!(typed(&state).as_deref(), Some(""));
    assert!(!state.tree_widget_state().is_search_match(NodeId(3)));
}

#[test]
fn enter_keeps_and_escape_drops_what_was_found() {
    let mut state = state();
    state.handle_key_event(Key::Char('/'));
    press(&mut state, "SER");
    state.handle_key_event(Key::Enter);
    assert_eq!(typed(&state), None);
    assert!(state.tree_widget_state().is_search_match(NodeId(2)));
    assert_eq!(selected(&state), Some(2));
    // c clears the highlights
    state.handle_key_event(Key::Char('c'));
    assert!(!state.tree_widget_state().is_search_match(NodeId(2)));

    state.handle_key_event(Key::Char('/'));
    press(&mut state, "alp");
    assert!(state.tree_widget_state().is_search_match(NodeId(1)));
    state.handle_key_event(Key::Esc);
    assert_eq!(typed(&state), None);
    assert!(!state.tree_widget_state().is_search_match(NodeId(1)));
    // afterwards letters are commands again
    state.handle_key_event(Key::Char('q'));
    assert!(!state.running());
}

#[test]
fn arrows_still_navigate_while_typing() {
    let mut state = state();
    state.handle_key_event(Key::Char('/'));
    state.handle_key_event(Key::Down);
    assert_eq!(selected(&state), Some(1));
    assert_eq!(typed(&state).as_deref(), Some(""));
}
