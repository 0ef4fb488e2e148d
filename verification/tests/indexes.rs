use gpui_notes::journal::JournalDate;
use gpui_notes::outline::{IdSource, Outline};
use gpui_notes::page::Page;
use gpui_notes::page_links::LinkIndex;
use gpui_notes::tags::{TagIndex, TagSource};

#[test]
fn reindex_adds_and_removes_forward_and_reverse_links() {
    let mut id_source = IdSource::new();
    let mut index = LinkIndex::default();
    let first = Outline::parse("- [[B]] and [[C]]\n- another [[B]]\n", &mut id_source);
    index.reindex_outline(&"A".to_string(), &first);

    assert_eq!(index.targets("A").len(), 2);
    assert_eq!(index.backlinks("B").len(), 2);
    assert_eq!(index.backlinks("C").len(), 1);
    assert!(index.page_exists("A"));
    assert!(!index.page_exists("a"));
    assert!(!index.page_exists("B"));

    let second = Outline::parse("- only [[C]]\n", &mut id_source);
    index.reindex_outline(&"A".to_string(), &second);
    assert!(index.backlinks("B").is_empty());
    assert_eq!(index.backlinks("C").len(), 1);
    assert_eq!(index.targets("A").len(), 1);
}

#[test]
fn rebuild_from_indexes_cross_references_and_existing_pages() {
    let mut id_source = IdSource::new();
    let pages = vec![
        ("A".to_string(), "- [[B]] [[C]]\n- [[B]]\n".to_string()),
        ("B".to_string(), "- [[A]] [[C]]\n".to_string()),
        ("C".to_string(), "- [[A]]\n".to_string()),
    ];
    let index = LinkIndex::rebuild_from_pages(&pages, &[], &mut id_source);
    assert_eq!(index.backlinks("A").len(), 2);
    assert_eq!(index.backlinks("B").len(), 2);
    assert_eq!(index.backlinks("C").len(), 2);
    assert_eq!(index.targets("A").len(), 2);
    assert!(index.page_exists("A"));
    assert!(index.page_exists("B"));
    assert!(index.page_exists("C"));
    assert!(!index.page_exists("Missing"));
}

#[test]
fn backlinks_are_ordered_by_page_then_block() {
    let mut id_source = IdSource::new();
    let pages = vec![
        ("Zed".to_string(), "- [[T]]\n".to_string()),
        ("Alpha".to_string(), "- x\n- [[T]]\n- [[T]] again\n".to_string()),
    ];
    let index = LinkIndex::rebuild_from_pages(&pages, &[], &mut id_source);
    let got: Vec<(TagSource, u64)> = index
        .backlinks("T")
        .into_iter()
        .map(|(source, id)| (source, id.0))
        .collect();
    assert_eq!(
        got,
        vec![
            (TagSource::Page("Alpha".to_string()), 3),
            (TagSource::Page("Alpha".to_string()), 4),
            (TagSource::Page("Zed".to_string()), 1)
        ]
    );
    assert!(index.targets("Missing").is_empty());
}

#[test]
fn page_names_sort_case_insensitively() {
    let mut id_source = IdSource::new();
    let pages = vec![
        ("banana".to_string(), String::new()),
        ("Apple".to_string(), String::new()),
        ("cherry".to_string(), String::new()),
    ];
    let index = LinkIndex::rebuild_from_pages(&pages, &[], &mut id_source);
    assert_eq!(index.page_names(), vec!["Apple", "banana", "cherry"]);
}

#[test]
fn reindexing_a_page_uses_its_name_and_outline() {
    let mut id_source = IdSource::new();
    let page = Page::new("Home".to_string(), "- see [[Work]]\n", &mut id_source);
    let mut index = LinkIndex::new();
    index.reindex_page(&page);
    assert_eq!(index.targets("Home"), vec!["Work".to_string()]);
    assert_eq!(index.backlinks("Work").len(), 1);
    assert!(index.page_exists("Home"));
}

#[test]
fn links_in_code_do_not_count() {
    let mut id_source = IdSource::new();
    let mut index = LinkIndex::new();
    index.reindex_outline(&"P".to_string(), &Outline::parse("- `[[Q]]` and [[R]]\n", &mut id_source));
    assert!(index.backlinks("Q").is_empty());
    assert_eq!(index.targets("P"), vec!["R".to_string()]);
}

#[test]
fn index_rebuilds_pages_and_journals_case_insensitively() {
    let mut id_source = IdSource::new();
    let date = JournalDate::new(2026, 4, 18).unwrap();
    let pages = vec![("PageA".to_string(), "- one #Rust #rust\n- two #work\n".to_string())];
    let journals = vec![(date, "- today #RUST\n".to_string())];

    let index = TagIndex::rebuild_from_pages(&pages, &journals, &mut id_source);
    let rust = index.blocks_for_tag("#rust");
    assert_eq!(rust.len(), 2, "duplicate tags in one block count once");
    assert_eq!(index.blocks_for_tag("RUST"), rust);

    let summaries = index.all_tags();
    assert_eq!(
        summaries
            .iter()
            .find(|summary| summary.display == "Rust")
            .map(|summary| summary.count),
        Some(2),
    );
    assert!(rust
        .iter()
        .any(|hit| matches!(hit.source, TagSource::Journal(d) if d == date)));
}

#[test]
fn reindex_removes_stale_tags() {
    let mut id_source = IdSource::new();
    let mut index = TagIndex::default();
    let source = TagSource::Page("PageA".to_string());
    let old = Outline::parse("- old #gone\n- keep #stay\n", &mut id_source);
    index.reindex_page(source.clone(), &old);
    assert_eq!(index.blocks_for_tag("gone").len(), 1);

    let new = Outline::parse("- keep #stay\n", &mut id_source);
    index.reindex_page(source, &new);
    assert!(index.blocks_for_tag("gone").is_empty());
    assert_eq!(index.blocks_for_tag("stay").len(), 1);
}

#[test]
fn reindexing_one_source_leaves_the_others() {
    let mut id_source = IdSource::new();
    let mut index = TagIndex::new();
    index.reindex_page(TagSource::Page("A".to_string()), &Outline::parse("- #x\n", &mut id_source));
    index.reindex_page(TagSource::Page("B".to_string()), &Outline::parse("- #x too\n", &mut id_source));
    index.reindex_page(TagSource::Page("A".to_string()), &Outline::parse("- nothing\n", &mut id_source));
    let hits = index.blocks_for_tag("x");
    assert_eq!(hits.len(), 1);
    assert_eq!(hits[0].source, TagSource::Page("B".to_string()));
    assert_eq!(hits[0].preview, "#x too");
    assert_eq!(hits[0].block_id.0, 2, "B's block took the second fresh id");
}

#[test]
fn all_tags_sort_by_display_and_count_blocks() {
    let mut id_source = IdSource::new();
    let pages = vec![(
        "P".to_string(),
        "- #beta #Alpha\n- #alpha\n- #gamma\n".to_string(),
    )];
    let index = TagIndex::rebuild_from_pages(&pages, &[], &mut id_source);
    let got: Vec<(String, usize)> = index
        .all_tags()
        .into_iter()
        .map(|s| (s.display, s.count))
        .collect();
    assert_eq!(
        got,
        vec![
            ("Alpha".to_string(), 2),
            ("beta".to_string(), 1),
            ("gamma".to_string(), 1)
        ]
    );
}

#[test]
fn blocks_linking_to_finds_nested_blocks_and_skips_code() {
    let mut id_source = IdSource::new();
    let outline = Outline::parse("- see [[T]]\n  - nested [[T]] too\n- `[[T]]`\n- [[Other]]\n    - deeper [[T]]\n", &mut id_source);
    let ids: Vec<u64> = gpui_notes::page_links::blocks_linking_to(&outline, "T")
        .into_iter()
        .map(|b| b.0)
        .collect();
    assert_eq!(ids, vec![1, 2, 5]);
}

#[test]
fn journals_are_indexed_as_backlink_sources() {
    let mut id_source = IdSource::new();
    let date = JournalDate::new(2026, 7, 23).unwrap();
    let pages = vec![("Target".to_string(), "- the page\n".to_string())];
    let journals = vec![(date, "- met about [[Target]]\n".to_string())];
    let index = LinkIndex::rebuild_from_pages(&pages, &journals, &mut id_source);
    let got: Vec<(TagSource, u64)> =
        index.backlinks("Target").into_iter().map(|(source, id)| (source, id.0)).collect();
    assert_eq!(got, vec![(TagSource::Journal(date), 2)]);
    assert_eq!(index.page_names(), vec!["Target".to_string()]);
    assert!(!index.page_exists("2026-07-23"));
}

#[test]
fn a_page_named_by_a_date_and_that_journal_do_not_purge_each_other() {
    let mut id_source = IdSource::new();
    let date = JournalDate::new(2026, 7, 23).unwrap();
    let mut index = LinkIndex::new();
    index.reindex_source(&TagSource::Journal(date), &Outline::parse("- [[T]]\n", &mut id_source));
    index.reindex_outline(&"2026-07-23".to_string(), &Outline::parse("- [[T]] too\n", &mut id_source));
    index.reindex_outline(&"2026-07-23".to_string(), &Outline::parse("- nothing\n", &mut id_source));
    let got: Vec<TagSource> = index.backlinks("T").into_iter().map(|(source, _)| source).collect();
    assert_eq!(got, vec![TagSource::Journal(date)]);
    assert!(index.page_exists("2026-07-23"));
}

#[test]
fn backlinks_list_pages_before_journals_oldest_first() {
    let mut id_source = IdSource::new();
    let older = JournalDate::new(2025, 12, 31).unwrap();
    let newer = JournalDate::new(2026, 1, 2).unwrap();
    let pages = vec![("Zed".to_string(), "- [[T]]\n".to_string())];
    let journals = vec![(newer, "- [[T]]\n".to_string()), (older, "- [[T]]\n".to_string())];
    let index = LinkIndex::rebuild_from_pages(&pages, &journals, &mut id_source);
    let got: Vec<TagSource> = index.backlinks("T").into_iter().map(|(source, _)| source).collect();
    assert_eq!(
        got,
        vec![TagSource::Page("Zed".to_string()), TagSource::Journal(older), TagSource::Journal(newer)]
    );
    assert_eq!(index.targets("Zed"), vec!["T".to_string()]);
}
