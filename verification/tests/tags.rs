use std::ops::Range;

use gpui_notes::block_render::{lower, BlockNode, InlineExtension, InlineNode};
use gpui_notes::journal::JournalDate;
use gpui_notes::tags::{
    source_label, tag_key, tags_in_text, truncated_preview, TagExt, TagSource,
};

fn ranges(text: &str) -> Vec<(Range<usize>, String)> {
    TagExt
        .extract(text)
        .into_iter()
        .map(|m| (m.range.clone(), text[m.range].to_string()))
        .collect()
}

fn extension_count(text: &str) -> usize {
    let ext = TagExt;
    let extensions: [&dyn InlineExtension; 1] = [&ext];
    fn count_inlines(nodes: &[InlineNode]) -> usize {
        nodes
            .iter()
            .map(|node| match node {
                InlineNode::Extension(_) => 1,
                InlineNode::Link { children, .. } => count_inlines(children),
                _ => 0,
            })
            .sum()
    }
    lower(text, &extensions)
        .iter()
        .map(|block| match block {
            BlockNode::Paragraph(children) | BlockNode::Heading { children, .. } => {
                count_inlines(children)
            }
            BlockNode::Quote(_) | BlockNode::CodeBlock { .. } => 0,
        })
        .sum()
}

#[test]
fn tag_ext_extracts_expected_tags() {
    assert_eq!(ranges("#rust"), vec![(0..5, "#rust".into())]);
    assert_eq!(ranges("see #proj/sub-task"), vec![(4..18, "#proj/sub-task".into())]);
    assert_eq!(ranges("foo#bar"), Vec::<(Range<usize>, String)>::new());
    assert_eq!(ranges("#"), Vec::<(Range<usize>, String)>::new());
    assert_eq!(
        ranges("#a #b,#c"),
        vec![(0..2, "#a".into()), (3..5, "#b".into()), (6..8, "#c".into())],
    );
    assert_eq!(ranges("##"), Vec::<(Range<usize>, String)>::new());
    assert_eq!(ranges("é #tag"), vec![(3..7, "#tag".into())]);
}

#[test]
fn lower_does_not_extract_tags_from_code_or_urls() {
    assert_eq!(extension_count("see `#code`"), 0);
    assert_eq!(extension_count("```txt\n#code\n```\n"), 0);
    assert_eq!(extension_count("# heading"), 0);
    assert_eq!(extension_count("https://example.test/#frag"), 0);
}

#[test]
fn tag_key_drops_hashes_and_lowers_ascii() {
    assert_eq!(tag_key("#Rust"), "rust");
    assert_eq!(tag_key("##Proj/Sub"), "proj/sub");
    assert_eq!(tag_key("RUST"), "rust");
    assert_eq!(tag_key("Ünïcode"), "Ünïcode");
}

#[test]
fn truncated_preview_cuts_at_eighty_characters() {
    let short = "x".repeat(80);
    assert_eq!(truncated_preview(&short), short);
    let long = "é".repeat(81);
    let cut = truncated_preview(&long);
    assert_eq!(cut, format!("{}...", "é".repeat(80)));
}

#[test]
fn tags_in_text_keys_by_lower_case_and_keeps_first_spelling() {
    let tags = tags_in_text("one #Rust #rust and #work");
    assert_eq!(
        tags,
        vec![
            ("rust".to_string(), "Rust".to_string()),
            ("work".to_string(), "work".to_string()),
        ]
    );
}

#[test]
fn tags_in_quotes_and_link_text_count() {
    let tags = tags_in_text("> see [#inner](https://x.y) #outer");
    assert_eq!(
        tags,
        vec![
            ("inner".to_string(), "inner".to_string()),
            ("outer".to_string(), "outer".to_string()),
        ]
    );
    assert!(tags_in_text("`#code`").is_empty());
}

#[test]
fn sources_are_labelled_by_name_or_iso_date() {
    assert_eq!(source_label(&TagSource::Page("Welcome".into())), "Welcome");
    let date = JournalDate::new(2026, 4, 18).unwrap();
    assert_eq!(source_label(&TagSource::Journal(date)), "2026-04-18");
}
