use std::ops::Range;

use gpui_notes::block_render::{lower, BlockNode, InlineExtension, InlineNode};
use gpui_notes::page_links::{page_links_in_text, page_name, PageLinkExt};

fn matches(text: &str) -> Vec<(Range<usize>, String)> {
    PageLinkExt
        .extract(text)
        .into_iter()
        .map(|matched| {
            let range = matched.range;
            let source = text[range.clone()].to_string();
            (range, source)
        })
        .collect()
}

fn extension_count(text: &str) -> usize {
    fn count(nodes: &[InlineNode]) -> usize {
        nodes
            .iter()
            .map(|node| match node {
                InlineNode::Extension(_) => 1,
                InlineNode::Link { children, .. } => count(children),
                _ => 0,
            })
            .sum()
    }

    let ext = PageLinkExt;
    let extensions: [&dyn InlineExtension; 1] = [&ext];
    lower(text, &extensions)
        .iter()
        .map(|block| match block {
            BlockNode::Paragraph(children) | BlockNode::Heading { children, .. } => count(children),
            BlockNode::Quote(_) | BlockNode::CodeBlock { .. } => 0,
        })
        .sum()
}

#[test]
fn extracts_page_link_syntax() {
    assert_eq!(matches("[[Page]]"), vec![(0..8, "[[Page]]".into())]);
    assert_eq!(
        matches("see [[One]] and [[Two Words]] now"),
        vec![(4..11, "[[One]]".into()), (16..29, "[[Two Words]]".into())],
    );
    assert_eq!(page_name("[[  Trim Me  ]]").as_deref(), Some("Trim Me"));
}

#[test]
fn rejects_malformed_or_empty_page_links() {
    for text in ["[ [foo] ]", "[[foo\nbar]]", "[[]]", "[[   ]]", "[[a[b]]"] {
        assert!(matches(text).is_empty(), "unexpected match in {text:?}");
    }
}

#[test]
fn lower_recognizes_link_across_split_markdown_text_events() {
    assert_eq!(extension_count("before [[Page]] after"), 1);
}

#[test]
fn lower_does_not_extract_page_links_from_code() {
    assert_eq!(extension_count("see `[[Code]]`"), 0);
    assert_eq!(extension_count("```txt\n[[Code]]\n```\n"), 0);
    assert_eq!(extension_count("[label](https://example.test/page)"), 0);
    assert_eq!(extension_count("[label](https://example.test/[[Hidden]])"), 0);
}

#[test]
fn page_name_needs_both_bracket_pairs_and_a_name() {
    assert_eq!(page_name("[[x]]").as_deref(), Some("x"));
    assert_eq!(page_name("[[]]"), None);
    assert_eq!(page_name("[[ \t ]]"), None);
    assert_eq!(page_name("[x]]"), None);
    assert_eq!(page_name("[[x]"), None);
}

#[test]
fn links_in_text_are_distinct_in_first_link_order() {
    assert_eq!(
        page_links_in_text("[[B]] and [[C]] and [[B]] again"),
        vec!["B".to_string(), "C".to_string()]
    );
    assert!(page_links_in_text("`[[Code]]`").is_empty());
}
