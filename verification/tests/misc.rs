use gpui_notes::outline::IdSource;
use gpui_notes::page::{header_text, Page, PageEvent};
use gpui_notes::registry::{first_failed, pick_next, PageKey};
use gpui_notes::shortcuts::{cmd_key, order_hints, ShortcutHint};
use gpui_notes::journal::JournalDate;
use gpui_notes::theme::pick_ui_font;

#[test]
fn picks_first_installed_candidate() {
    let installed = vec!["DejaVu Sans".to_string(), "Cantarell".to_string()];
    assert_eq!(pick_ui_font(&installed), "Cantarell");
}

#[test]
fn falls_back_to_system_ui_font_when_no_candidate_installed() {
    let installed = vec!["Comic Sans MS".to_string()];
    assert_eq!(pick_ui_font(&installed), ".SystemUIFont");
}

#[test]
fn next_page_wraps_around() {
    let names: Vec<String> = ["a", "b", "c"].iter().map(|s| s.to_string()).collect();
    assert_eq!(pick_next(&names, Some(&"a".to_string())), Some(&names[1]));
    assert_eq!(pick_next(&names, Some(&"c".to_string())), Some(&names[0]));
    assert_eq!(pick_next(&names, Some(&"zzz".to_string())), Some(&names[0]));
    assert_eq!(pick_next(&names, None), Some(&names[0]));
    assert_eq!(pick_next(&[], None), None);
}

#[test]
fn page_keys_keep_pages_and_journals_apart() {
    let date = JournalDate::new(2026, 7, 13).unwrap();
    let journal = PageKey::Journal(date);
    let page = PageKey::Page("2026-07-13".to_string());
    assert_eq!(journal.display_name(), page.display_name());
    assert_ne!(journal, page);
    assert_ne!(journal.source(), page.source());
}

#[test]
fn primary_modifier_depends_on_the_platform() {
    assert_eq!(cmd_key(true), "cmd");
    assert_eq!(cmd_key(false), "ctrl");
}

#[test]
fn hints_list_deepest_context_first_then_registration_order() {
    let hint = |name: &str, depth: usize, order: usize| {
        ShortcutHint::new(format!("ctrl-{name}"), name.to_string(), depth, order)
    };
    let ordered = order_hints(vec![hint("a", 1, 0), hint("b", 2, 3), hint("c", 2, 1), hint("d", 0, 2)]);
    let names: Vec<&str> = ordered.iter().map(|h| h.action_name.as_str()).collect();
    assert_eq!(names, ["c", "b", "a", "d"]);
}

#[test]
fn a_new_page_gets_one_empty_block() {
    let mut id_source = IdSource::new();
    let page = Page::new("Empty".to_string(), "", &mut id_source);
    assert_eq!(page.body(), "- \n");
    assert!(!page.dirty());
}

#[test]
fn editing_a_block_dirties_the_page_until_saved() {
    let mut id_source = IdSource::new();
    let mut page = Page::new("P".to_string(), "- a\n", &mut id_source);
    let id = page.outline().roots()[0].id;
    page.set_block_text(id, "b".to_string());
    assert!(page.dirty());
    assert_eq!(page.body(), "- b\n");
    assert_eq!(page.mark_saved(), PageEvent::Saved);
    assert!(!page.dirty());
}

#[test]
fn set_block_text_marks_dirty_and_updates_body() {
    let mut id_source = IdSource::new();
    let mut page = Page::new("foo".to_string(), "- hi\n", &mut id_source);
    let first_id = page.outline().roots()[0].id;
    page.set_block_text(first_id, "hello".to_string());
    assert_eq!(page.outline().get(first_id), Some("hello"));
    assert_eq!(page.body(), "- hello\n");
    assert!(page.dirty());
}

#[test]
fn flushing_identical_text_keeps_the_page_clean() {
    let mut id_source = IdSource::new();
    let mut page = Page::new("P".to_string(), "- same\n", &mut id_source);
    let id = page.outline().roots()[0].id;
    page.set_block_text(id, "same".to_string());
    assert!(!page.dirty());
    assert_eq!(page.body(), "- same\n");
}

#[test]
fn saving_every_page_reports_the_first_failure() {
    assert_eq!(first_failed(&[true, false, true, false]), Some(1));
    assert_eq!(first_failed(&[true, true]), None);
    assert_eq!(first_failed(&[]), None);
}

#[test]
fn header_shows_the_tag_or_the_page_and_its_unsaved_mark() {
    assert_eq!(header_text("Home", false, None), "Home");
    assert_eq!(header_text("Home", true, None), "Home •");
    assert_eq!(header_text("Home", true, Some("rust")), "#rust");
}
