use gpui_notes::block_view::{autopair_at, extends_on_enter, react, EditAction, InputEvent};
use gpui_notes::page_completion::{trigger_at, CompletionState};

#[test]
fn enter_extends_multi_line_blocks_and_open_fences() {
    assert!(!extends_on_enter("plain"));
    assert!(extends_on_enter("two\nlines"));
    assert!(extends_on_enter("```calc"));
    assert!(!extends_on_enter("```rust``` done"));
    assert!(extends_on_enter("```` four ticks open one fence"));
    assert!(!extends_on_enter(""));
}

#[test]
fn double_bracket_gets_closed_once() {
    assert!(autopair_at("see [[", 6));
    assert!(!autopair_at("see [[]]", 6));
    assert!(!autopair_at("see [", 5));
    assert!(!autopair_at("[[x]]", 3));
    assert!(autopair_at("é[[", 4));
    assert!(!autopair_at("[[", 1));
}

#[test]
fn refresh_on_the_same_site_keeps_the_highlight() {
    let names = vec!["Alpha".to_string(), "Alps".to_string(), "Beta".to_string()];
    let trigger = trigger_at("go [[Al", 7).unwrap();
    let mut state = CompletionState::new(&trigger, &names).unwrap();
    let rows = state.candidates.len();
    let (start, end) = (state.range.start, state.range.end);
    assert_eq!((start, end), (3, 7));
    state.keep_highlight(start, end, 1);
    assert_eq!(state.selected, 1);
    state.keep_highlight(start, end, 99);
    assert_eq!(state.selected, rows - 1);
    state.keep_highlight(0, 1, 0);
    assert_eq!(state.selected, rows - 1);
}

#[test]
fn escape_closes_the_popup_before_it_leaves_editing() {
    let names = vec!["Alpha".to_string()];
    let trigger = trigger_at("[[Al", 4).unwrap();
    let state = CompletionState::new(&trigger, &names).unwrap();
    assert_eq!(react(InputEvent::Cancelled, Some(&state), "[[Al"), EditAction::ClosePopup);
    assert_eq!(react(InputEvent::Cancelled, None, "[[Al"), EditAction::EndEditing);
}

#[test]
fn enter_accepts_the_selected_page_swallowing_the_auto_pair() {
    let names = vec!["Alpha".to_string()];
    let content = "see [[Al]]";
    let trigger = trigger_at(content, 8).unwrap();
    let state = CompletionState::new(&trigger, &names).unwrap();
    assert_eq!(
        react(InputEvent::Submitted, Some(&state), content),
        EditAction::Accept(4..10, "[[Alpha]]".to_string())
    );
}

#[test]
fn enter_inside_an_open_fence_adds_a_line_not_a_sibling() {
    assert_eq!(react(InputEvent::Submitted, None, "```calc"), EditAction::InsertNewline);
    assert_eq!(react(InputEvent::Submitted, None, "done"), EditAction::InsertSibling);
    assert_eq!(
        react(InputEvent::Changed("x".to_string()), None, "x"),
        EditAction::Flush("x".to_string())
    );
}

#[test]
fn shift_enter_inside_a_fence_still_inserts_a_sibling() {
    assert_eq!(react(InputEvent::SubmittedNow, None, "```calc"), EditAction::InsertSibling);
    assert_eq!(react(InputEvent::SubmittedNow, None, "done"), EditAction::InsertSibling);
}
