use std::ops::Range;

use gpui_notes::block_render::{
    apply_extensions, lower, lower_events, BlockNode, ExtensionMatch, ExtensionNode,
    InlineExtension, InlineNode, MdClass, MdTag, Style,
};

fn lower_no_ext(s: &str) -> Vec<BlockNode> {
    lower(s, &[])
}

fn paragraph(blocks: Vec<BlockNode>) -> Vec<InlineNode> {
    match blocks.into_iter().next() {
        Some(BlockNode::Paragraph(c)) => c,
        other => panic!("expected paragraph, got {other:?}"),
    }
}

fn plain(text: &str) -> InlineNode {
    InlineNode::Text { text: text.into(), style: Style::default() }
}

fn styled(text: &str, bold: bool, italic: bool) -> InlineNode {
    InlineNode::Text { text: text.into(), style: Style { bold, italic } }
}

#[test]
fn plain_text_is_single_text_node() {
    let inlines = paragraph(lower_no_ext("hello world"));
    assert_eq!(inlines, vec![plain("hello world")]);
}

#[test]
fn bold_toggles_style() {
    let inlines = paragraph(lower_no_ext("hello **world**"));
    assert_eq!(inlines, vec![plain("hello "), styled("world", true, false)]);
}

#[test]
fn italic_toggles_style() {
    let inlines = paragraph(lower_no_ext("*hi* there"));
    assert_eq!(inlines, vec![styled("hi", false, true), plain(" there")]);
}

#[test]
fn nested_bold_italic_stacks() {
    let inlines = paragraph(lower_no_ext("***yo***"));
    // The parser emits strong(emphasis(text)) or emphasis(strong(text));
    // either ordering must produce a single bold+italic span.
    assert_eq!(inlines, vec![styled("yo", true, true)]);
}

#[test]
fn inline_code_becomes_code_node() {
    let inlines = paragraph(lower_no_ext("see `foo` now"));
    assert_eq!(inlines, vec![plain("see "), InlineNode::Code("foo".into()), plain(" now")]);
}

#[test]
fn link_wraps_children() {
    let inlines = paragraph(lower_no_ext("[ex](https://x.y)"));
    assert_eq!(
        inlines,
        vec![InlineNode::Link { url: "https://x.y".to_string(), children: vec![plain("ex")] }]
    );
}

#[test]
fn heading_lowers_with_level() {
    let blocks = lower_no_ext("## Title");
    assert_eq!(blocks, vec![BlockNode::Heading { level: 2, children: vec![plain("Title")] }]);
}

#[test]
fn fenced_code_block_preserves_text_and_lang() {
    let blocks = lower_no_ext("```rust\nfn x() {}\n```\n");
    assert_eq!(
        blocks,
        vec![BlockNode::CodeBlock { lang: Some("rust".into()), text: "fn x() {}\n".into() }]
    );
}

#[test]
fn blockquote_nests_children() {
    let blocks = lower_no_ext("> quoted");
    let BlockNode::Quote(inner) = &blocks[0] else {
        panic!("expected quote, got {:?}", blocks[0]);
    };
    assert_eq!(inner.len(), 1);
    assert!(matches!(inner[0], BlockNode::Paragraph(_)));
}

struct MockTag;

impl InlineExtension for MockTag {
    fn extract(&self, text: &str) -> Vec<ExtensionMatch> {
        let mut out = Vec::new();
        let bytes = text.as_bytes();
        let mut i = 0;
        while i < bytes.len() {
            if bytes[i] == b'#' {
                let start = i;
                i += 1;
                while i < bytes.len() && (bytes[i].is_ascii_alphanumeric() || bytes[i] == b'_') {
                    i += 1;
                }
                if i > start + 1 {
                    out.push(ExtensionMatch { range: start..i, kind: "tag".into() });
                }
            } else {
                i += 1;
            }
        }
        out
    }
}

#[test]
fn extension_splices_into_plain_text_with_style_preserved() {
    let ext = MockTag;
    let exts: [&dyn InlineExtension; 1] = [&ext];
    let inlines = paragraph(lower("see **#rust** later", &exts));
    assert_eq!(
        inlines,
        vec![
            plain("see "),
            InlineNode::Extension(ExtensionNode {
                kind: "tag".into(),
                source: "#rust".into(),
                extension_idx: 0,
            }),
            plain(" later"),
        ]
    );
}

struct Fixed(Range<usize>, &'static str);

impl InlineExtension for Fixed {
    fn extract(&self, _text: &str) -> Vec<ExtensionMatch> {
        vec![ExtensionMatch { range: self.0.clone(), kind: self.1.into() }]
    }
}

#[test]
fn overlapping_extensions_resolved_by_earliest_then_first_registered() {
    let a = Fixed(0..3, "a");
    let b = Fixed(1..4, "b");
    let exts: [&dyn InlineExtension; 2] = [&a, &b];
    let inlines = paragraph(lower("abcdef", &exts));
    assert_eq!(
        inlines,
        vec![
            InlineNode::Extension(ExtensionNode {
                kind: "a".into(),
                source: "abc".into(),
                extension_idx: 0,
            }),
            plain("def"),
        ]
    );
}

#[test]
fn same_start_goes_to_the_extension_listed_first() {
    let a = Fixed(2..4, "a");
    let b = Fixed(2..5, "b");
    let exts: [&dyn InlineExtension; 2] = [&b, &a];
    let inlines = apply_extensions("abcdef", Style::default(), &exts);
    assert_eq!(
        inlines,
        vec![
            plain("ab"),
            InlineNode::Extension(ExtensionNode {
                kind: "b".into(),
                source: "cde".into(),
                extension_idx: 0,
            }),
            plain("f"),
        ]
    );
}

#[test]
fn empty_and_out_of_range_matches_are_dropped() {
    let empty = Fixed(2..2, "e");
    let past = Fixed(3..40, "p");
    let exts: [&dyn InlineExtension; 2] = [&empty, &past];
    let inlines = apply_extensions("abcdef", Style { bold: true, italic: false }, &exts);
    assert_eq!(inlines, vec![styled("abcdef", true, false)]);
}

#[test]
fn extension_offsets_are_bytes() {
    let ext = MockTag;
    let exts: [&dyn InlineExtension; 1] = [&ext];
    let inlines = apply_extensions("é #x é", Style::default(), &exts);
    assert_eq!(
        inlines,
        vec![
            plain("é "),
            InlineNode::Extension(ExtensionNode {
                kind: "tag".into(),
                source: "#x".into(),
                extension_idx: 0,
            }),
            plain(" é"),
        ]
    );
}

#[test]
fn code_block_text_is_not_spliced() {
    let ext = MockTag;
    let exts: [&dyn InlineExtension; 1] = [&ext];
    let blocks = lower("```\n#tag\n```\n", &exts);
    assert_eq!(blocks, vec![BlockNode::CodeBlock { lang: None, text: "#tag\n".into() }]);
}

#[test]
fn events_lower_without_the_parser() {
    let classes = vec![
        MdClass::Start,
        MdClass::Text,
        MdClass::Start,
        MdClass::Text,
        MdClass::End,
        MdClass::End,
    ];
    let tags = vec![
        MdTag::Paragraph,
        MdTag::Other,
        MdTag::Strong,
        MdTag::Other,
        MdTag::Strong,
        MdTag::Paragraph,
    ];
    let payloads: Vec<String> =
        ["", "a ", "", "b", "", ""].iter().map(|s| s.to_string()).collect();
    let found: Vec<Vec<Vec<gpui_notes::block_render::ExtensionMatch>>> = (0..6).map(|_| Vec::new()).collect();
    let blocks = lower_events(&classes, &tags, &payloads, &found);
    assert_eq!(
        blocks,
        vec![BlockNode::Paragraph(vec![plain("a "), styled("b", true, false)])]
    );
}

#[test]
fn text_outside_any_container_is_dropped() {
    let classes = vec![MdClass::Text];
    let tags = vec![MdTag::Other];
    let payloads = vec!["loose".to_string()];
    let found: Vec<Vec<Vec<gpui_notes::block_render::ExtensionMatch>>> = vec![Vec::new()];
    assert!(lower_events(&classes, &tags, &payloads, &found).is_empty());
}

#[test]
fn heading_levels_and_nested_quotes() {
    let blocks = lower_no_ext("> # One\n> > two\n");
    assert_eq!(blocks.len(), 1);
    let BlockNode::Quote(inner) = &blocks[0] else {
        panic!("expected quote, got {:?}", blocks[0]);
    };
    assert_eq!(inner[0], BlockNode::Heading { level: 1, children: vec![plain("One")] });
    assert!(matches!(inner[1], BlockNode::Quote(_)));
}
