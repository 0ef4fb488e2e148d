use gpui_notes::journal::JournalDate;
use gpui_notes::linked_refs::{ordered_sources, visible_groups, REFS_PER_PAGE};
use gpui_notes::outline::BlockId;
use gpui_notes::tags::TagSource;

fn day(y: i32, m: u32, d: u32) -> TagSource {
    TagSource::Journal(JournalDate::new(y, m, d).unwrap())
}

fn page(name: &str) -> TagSource {
    TagSource::Page(name.to_string())
}

#[test]
fn journals_newest_first_then_pages_by_name() {
    let sources = vec![
        page("Zeta"),
        day(2026, 4, 17),
        page("Alpha"),
        day(2026, 4, 18),
        day(2025, 12, 31),
    ];
    let got = ordered_sources(&sources, &page("Home"));
    assert_eq!(
        got,
        vec![
            day(2026, 4, 18),
            day(2026, 4, 17),
            day(2025, 12, 31),
            page("Alpha"),
            page("Zeta"),
        ]
    );
}

#[test]
fn a_page_is_not_listed_among_its_own_references() {
    let sources = vec![page("Home"), page("Other")];
    assert_eq!(ordered_sources(&sources, &page("Home")), vec![page("Other")]);
}

#[test]
fn only_the_shown_references_are_mounted() {
    let ids = |ns: &[u64]| ns.iter().map(|n| BlockId(*n)).collect::<Vec<_>>();
    let groups = vec![
        (page("A"), ids(&[1, 2, 3])),
        (page("B"), ids(&[4, 5])),
        (page("C"), ids(&[6])),
    ];
    let got = visible_groups(&groups, 4);
    assert_eq!(got.len(), 2);
    assert_eq!(got[0].1, ids(&[1, 2, 3]));
    assert_eq!(got[1].0, page("B"));
    assert_eq!(got[1].1, ids(&[4]));
    assert!(visible_groups(&groups, 0).is_empty());
    assert_eq!(visible_groups(&groups, REFS_PER_PAGE).len(), 3);
}
