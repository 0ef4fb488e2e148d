use gpui_notes::history::{opposite, Direction, NavHistory};
use gpui_notes::journal::JournalDate;
use gpui_notes::tags::TagSource;

fn page(name: &str) -> TagSource {
    TagSource::Page(name.to_string())
}

#[test]
fn peek_on_empty_history_is_none() {
    let history = NavHistory::default();
    assert!(history.peek(Direction::Back).is_none());
    assert!(history.peek(Direction::Forward).is_none());
}

#[test]
fn record_stacks_outgoing_pages_in_visit_order() {
    let mut history = NavHistory::default();
    history.record(Some(page("Home")));
    history.record(Some(page("Tagged")));
    assert_eq!(history.peek(Direction::Back), Some(&page("Tagged")));
}

#[test]
fn record_without_an_outgoing_page_is_a_noop() {
    let mut history = NavHistory::default();
    history.record(None);
    assert!(history.peek(Direction::Back).is_none());
}

#[test]
fn commit_moves_the_outgoing_page_to_the_opposite_stack() {
    let mut history = NavHistory::default();
    history.record(Some(page("Home")));

    // Back from Tagged to Home.
    history.commit(Direction::Back, Some(page("Tagged")));
    assert!(history.peek(Direction::Back).is_none());
    assert_eq!(history.peek(Direction::Forward), Some(&page("Tagged")));

    // Forward again returns the stacks to their pre-back shape.
    history.commit(Direction::Forward, Some(page("Home")));
    assert_eq!(history.peek(Direction::Back), Some(&page("Home")));
    assert!(history.peek(Direction::Forward).is_none());
}

#[test]
fn recording_a_new_page_clears_the_forward_stack() {
    let mut history = NavHistory::default();
    history.record(Some(page("Home")));
    history.commit(Direction::Back, Some(page("Tagged")));
    assert!(history.peek(Direction::Forward).is_some());

    history.record(Some(page("Home")));
    assert!(history.peek(Direction::Forward).is_none());
}

#[test]
fn commit_on_an_empty_stack_still_records_the_outgoing_page() {
    for direction in [Direction::Back, Direction::Forward] {
        let mut history = NavHistory::default();
        history.commit(direction, Some(page("Home")));
        assert_eq!(history.peek(opposite(direction)), Some(&page("Home")));
    }
}

#[test]
fn journal_and_page_targets_are_distinct_entries() {
    let date = JournalDate::new(2026, 7, 13).unwrap();
    let mut history = NavHistory::default();
    history.record(Some(TagSource::Journal(date)));
    assert_ne!(history.peek(Direction::Back), Some(&page("2026-07-13")));
}

#[test]
fn revisiting_the_current_page_records_nothing() {
    let mut history = NavHistory::new();
    history.record_visit(Some(page("Home")), &page("Home"));
    assert!(history.peek(Direction::Back).is_none());
    history.record_visit(Some(page("Home")), &page("Other"));
    assert_eq!(history.peek(Direction::Back), Some(&page("Home")));
}

#[test]
fn a_failed_open_does_not_consume_the_history_entry() {
    let mut history = NavHistory::new();
    history.record(Some(page("Home")));
    assert!(!history.settle_move(Direction::Back, Some(page("Tagged")), false));
    assert_eq!(history.peek(Direction::Back), Some(&page("Home")));
    assert!(history.peek(Direction::Forward).is_none());

    assert!(history.settle_move(Direction::Back, Some(page("Tagged")), true));
    assert!(history.peek(Direction::Back).is_none());
    assert_eq!(history.peek(Direction::Forward), Some(&page("Tagged")));
}
