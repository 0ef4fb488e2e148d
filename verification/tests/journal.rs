use gpui_notes::journal::{display_name, is_journal_name, JournalDate};

#[test]
fn is_journal_name_cases() {
    for (input, expected) in [
        ("2026-04-18", true),
        ("2026-4-18", false),
        ("2026-04-18 notes", false),
        ("", false),
        ("Welcome", false),
        ("2026_04_18", false),
    ] {
        assert_eq!(is_journal_name(input), expected, "{input:?}");
    }
}

#[test]
fn dates_exist_only_on_the_calendar() {
    assert!(JournalDate::new(2024, 2, 29).is_some());
    assert!(JournalDate::new(2023, 2, 29).is_none());
    assert!(JournalDate::new(2023, 4, 31).is_none());
    assert!(JournalDate::new(2023, 13, 1).is_none());
    assert!(JournalDate::new(2023, 0, 1).is_none());
    assert!(JournalDate::new(400000, 1, 1).is_none());
}

#[test]
fn journal_pages_are_named_by_iso_date() {
    let date = JournalDate::new(2026, 4, 8).unwrap();
    assert_eq!(display_name(&date), "2026-04-08");
    assert_eq!(date.year(), 2026);
    assert_eq!(date.month(), 4);
    assert_eq!(date.day(), 8);
}

#[test]
fn parse_and_format_with_a_given_format() {
    let date = JournalDate::parse("2026_04_18", "%Y_%m_%d").unwrap();
    assert_eq!(date, JournalDate::new(2026, 4, 18).unwrap());
    assert_eq!(date.format("%d.%m.%Y").as_deref(), Some("18.04.2026"));
    assert!(JournalDate::parse("not_a_date", "%Y_%m_%d").is_none());
}

#[test]
fn dates_order_chronologically() {
    let a = JournalDate::new(2025, 12, 31).unwrap();
    let b = JournalDate::new(2026, 1, 2).unwrap();
    assert!(a < b);
}
