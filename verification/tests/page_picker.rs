use gpui_notes::journal::JournalDate;
use gpui_notes::page_picker::{
    picker_entries, FilterCategory, PageEntry, PagePicker, PagePickerEvent, SelectionPosition,
};

fn entries() -> Vec<PageEntry> {
    vec![
        PageEntry::Page("Alpha".to_string()),
        PageEntry::Page("Beta".to_string()),
        PageEntry::Page("Gamma".to_string()),
        PageEntry::Journal(JournalDate::new(2026, 4, 18).unwrap()),
    ]
}

fn labels(p: &PagePicker) -> Vec<String> {
    p.visible_entries().iter().map(|e| e.label()).collect()
}

#[test]
fn substring_filter_narrows_list() {
    let mut p = PagePicker::new(entries());
    p.set_query("am");
    assert_eq!(labels(&p), vec!["Gamma".to_string()]);
}

#[test]
fn enter_emits_selected() {
    let mut p = PagePicker::new(entries());
    p.set_query("Beta");
    match p.submitted() {
        Some(PagePickerEvent::Selected(PageEntry::Page(name))) => assert_eq!(name, "Beta"),
        other => panic!("expected Selected(Page(Beta)), got {other:?}"),
    }
}

#[test]
fn down_arrow_moves_selection() {
    let mut p = PagePicker::new(entries());
    p.select_down();
    assert_eq!(p.selected(), 1);
    match p.current_entry() {
        Some(PageEntry::Page(name)) => assert_eq!(name, "Beta"),
        other => panic!("expected Beta, got {other:?}"),
    }
}

#[test]
fn filter_transition_empty_to_matches() {
    let mut p = PagePicker::new(entries());
    assert_eq!(p.filter_category(), FilterCategory::Empty);
    p.set_query("Beta");
    assert_eq!(p.filter_category(), FilterCategory::NonEmptyMatches);
    assert_eq!(p.selection_position(), SelectionPosition::First);
}

#[test]
fn filter_transition_empty_to_no_matches() {
    let mut p = PagePicker::new(entries());
    p.set_query("zzzzz");
    assert_eq!(p.filter_category(), FilterCategory::NonEmptyNoMatches);
    assert_eq!(p.selection_position(), SelectionPosition::NoSelection);
}

#[test]
fn filter_transition_matches_to_empty() {
    let mut p = PagePicker::new(entries());
    p.set_query("Beta");
    p.set_query("");
    assert_eq!(p.filter_category(), FilterCategory::Empty);
    assert_eq!(p.selection_position(), SelectionPosition::First);
}

#[test]
fn filter_transition_matches_to_matches() {
    let mut p = PagePicker::new(entries());
    p.set_query("a");
    p.set_query("am");
    assert_eq!(p.filter_category(), FilterCategory::NonEmptyMatches);
    assert_eq!(p.selection_position(), SelectionPosition::First);
}

#[test]
fn filter_transition_matches_to_no_matches() {
    let mut p = PagePicker::new(entries());
    p.set_query("Beta");
    p.set_query("Betazz");
    assert_eq!(p.filter_category(), FilterCategory::NonEmptyNoMatches);
}

#[test]
fn filter_transition_no_matches_to_matches() {
    let mut p = PagePicker::new(entries());
    p.set_query("Betazz");
    p.set_query("Beta");
    assert_eq!(p.filter_category(), FilterCategory::NonEmptyMatches);
    assert_eq!(p.selection_position(), SelectionPosition::First);
}

#[test]
fn filter_transition_no_matches_to_empty() {
    let mut p = PagePicker::new(entries());
    p.set_query("zzz");
    p.set_query("");
    assert_eq!(p.filter_category(), FilterCategory::Empty);
    assert_eq!(p.selection_position(), SelectionPosition::First);
}

fn moved_down(steps: usize) -> PagePicker {
    let mut p = PagePicker::new(entries());
    for _ in 0..steps {
        p.select_down();
    }
    p
}

#[test]
fn selection_first_to_middle_via_down() {
    assert_eq!(moved_down(1).selection_position(), SelectionPosition::Middle);
}

#[test]
fn selection_middle_to_last_via_down() {
    assert_eq!(moved_down(3).selection_position(), SelectionPosition::Last);
}

#[test]
fn selection_last_to_first_via_down_wraps() {
    assert_eq!(moved_down(4).selection_position(), SelectionPosition::First);
}

#[test]
fn selection_first_to_last_via_up_wraps() {
    let mut p = PagePicker::new(entries());
    p.select_up();
    assert_eq!(p.selection_position(), SelectionPosition::Last);
}

#[test]
fn selection_last_to_middle_via_up() {
    let mut p = moved_down(3);
    p.select_up();
    assert_eq!(p.selection_position(), SelectionPosition::Middle);
}

#[test]
fn selection_middle_to_first_via_up() {
    let mut p = moved_down(1);
    p.select_up();
    assert_eq!(p.selection_position(), SelectionPosition::First);
}

#[test]
fn journals_filter_by_their_iso_label_ignoring_case() {
    let mut p = PagePicker::new(entries());
    p.set_query("04-18");
    assert_eq!(labels(&p), vec!["2026-04-18".to_string()]);
    p.set_query("ALP");
    assert_eq!(labels(&p), vec!["Alpha".to_string()]);
}

#[test]
fn arrows_do_nothing_without_kept_entries() {
    let mut p = PagePicker::new(entries());
    p.set_query("nothing here");
    p.select_down();
    p.select_up();
    assert_eq!(p.selected(), 0);
    assert!(p.current_entry().is_none());
    assert!(p.submitted().is_none());
}

#[test]
fn the_picker_offers_pages_then_journals_newest_first() {
    let d1 = JournalDate::new(2025, 12, 31).unwrap();
    let d2 = JournalDate::new(2026, 1, 2).unwrap();
    let d3 = JournalDate::new(2026, 4, 18).unwrap();
    let pages = vec!["Alpha".to_string(), "Beta".to_string()];
    let got = picker_entries(&pages, &[d2, d1, d3]);
    assert_eq!(
        got,
        vec![
            PageEntry::Page("Alpha".to_string()),
            PageEntry::Page("Beta".to_string()),
            PageEntry::Journal(d3),
            PageEntry::Journal(d2),
            PageEntry::Journal(d1),
        ]
    );
}
