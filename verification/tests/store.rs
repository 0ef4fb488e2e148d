use gpui_notes::journal::JournalDate;
use gpui_notes::store::{
    decode_page_name, encode_page_name, journal_file_name, journal_of_file, page_file_name,
    page_of_file, validate_name, NotesStore, StoreError,
};

#[test]
fn encode_roundtrips_slash() {
    let name = "Projects/Alpha";
    let encoded = encode_page_name(name);
    assert_eq!(encoded, "Projects%2FAlpha");
    assert_eq!(decode_page_name(&encoded), name);
}

#[test]
fn encode_decode_is_identity() {
    for name in ["日本語", "a%b", "plain", "a/b/c"] {
        assert_eq!(decode_page_name(&encode_page_name(name)), name);
    }
}

#[test]
fn invalid_names_are_rejected() {
    for bad in ["a\\b", "", "..", ".", ".hidden"] {
        assert_eq!(
            validate_name(bad),
            Err(StoreError::InvalidName(bad.to_string())),
            "name {bad:?}"
        );
        assert!(page_file_name(bad).is_err());
    }
    assert_eq!(validate_name("ok name"), Ok(()));
}

#[test]
fn page_files_are_encoded_names_with_md() {
    assert_eq!(page_file_name("Projects/Alpha").unwrap(), "Projects%2FAlpha.md");
    assert_eq!(page_file_name("Welcome").unwrap(), "Welcome.md");
}

#[test]
fn only_md_files_are_pages() {
    assert_eq!(page_of_file("A%2FB%2FC.md").as_deref(), Some("A/B/C"));
    assert_eq!(page_of_file("ignored.txt"), None);
    assert_eq!(page_of_file("leftover.md.tmp"), None);
    assert_eq!(page_of_file(".md"), None);
    assert_eq!(page_of_file("..md").as_deref(), Some("."));
}

#[test]
fn journal_files_use_underscored_dates() {
    let date = JournalDate::new(2026, 4, 18).unwrap();
    assert_eq!(journal_file_name(&date), "2026_04_18.md");
    assert_eq!(journal_of_file("2026_04_18.md"), Some(date));
    assert_eq!(journal_of_file("not_a_date.md"), None);
    assert_eq!(journal_of_file("notes.txt"), None);
}

#[test]
fn store_keeps_its_root() {
    let store = NotesStore::new("/tmp/notes".to_string());
    assert_eq!(store.root(), "/tmp/notes");
}

#[test]
fn a_literal_percent_code_reads_back_as_a_slash() {
    // Out of scope by design: such a name collides with an encoded `/`.
    assert_eq!(decode_page_name(&encode_page_name("a%2Fb")), "a/b");
}

fn names(files: &[&str]) -> Vec<String> {
    files.iter().map(|f| f.to_string()).collect()
}

#[test]
fn listing_keeps_md_stems_sorted() {
    let files = names(&["beta.md", "alpha.md", "ignored.txt", "leftover.md.tmp"]);
    assert_eq!(gpui_notes::store::page_names_of(&files), vec!["alpha", "beta"]);
}

#[test]
fn listing_decodes_namespaced_pages() {
    let files = names(&["Projects%2FAlpha.md", "Welcome.md", "A%2FB%2FC.md"]);
    assert_eq!(
        gpui_notes::store::page_names_of(&files),
        vec!["A/B/C", "Projects/Alpha", "Welcome"]
    );
}

#[test]
fn journal_listing_skips_non_date_and_non_md_files_oldest_first() {
    let files = names(&["2026_01_02.md", "notes.txt", "not_a_date.md", "2025_12_31.md"]);
    let d1 = gpui_notes::journal::JournalDate::new(2026, 1, 2).unwrap();
    let d2 = gpui_notes::journal::JournalDate::new(2025, 12, 31).unwrap();
    assert_eq!(gpui_notes::store::journal_dates_of(&files), vec![d2, d1]);
}

#[test]
fn invalid_open_page_action_is_non_destructive_and_reports_error() {
    // A URL is no page name: the store refuses it, so nothing is created.
    let name = "https://example.com";
    assert_eq!(validate_name(name), Err(StoreError::InvalidName(name.to_string())));
    assert!(page_file_name(name).is_err());
}
