use gpui_notes::outline::{flatten_visible, Block, BlockId, IdSource, Outline};

fn ids(outline: &Outline) -> Vec<BlockId> {
    fn walk(out: &mut Vec<BlockId>, blocks: &[Block]) {
        for b in blocks {
            out.push(b.id);
            walk(out, &b.children);
        }
    }
    let mut v = Vec::new();
    walk(&mut v, outline.roots());
    v
}

fn by_text(outline: &Outline, text: &str) -> BlockId {
    fn find(blocks: &[Block], text: &str) -> Option<BlockId> {
        for b in blocks {
            if b.text == text {
                return Some(b.id);
            }
            if let Some(id) = find(&b.children, text) {
                return Some(id);
            }
        }
        None
    }
    find(outline.roots(), text).unwrap_or_else(|| panic!("no block with text {text:?}"))
}

/// An id that no block of these small outlines has.
fn unused_id() -> BlockId {
    BlockId(u64::MAX)
}

#[test]
fn parses_flat_list() {
    let mut id_source = IdSource::new();
    let o = Outline::parse("- a\n- b\n- c\n", &mut id_source);
    assert_eq!(o.roots().len(), 3);
    assert_eq!(o.roots()[0].text, "a");
    assert!(o.roots()[0].children.is_empty());
}

#[test]
fn parses_nested_three_levels() {
    let mut id_source = IdSource::new();
    let src = "- a\n  - b\n    - c\n- d\n";
    let o = Outline::parse(src, &mut id_source);
    assert_eq!(o.roots().len(), 2);
    assert_eq!(o.roots()[0].text, "a");
    assert_eq!(o.roots()[0].children.len(), 1);
    assert_eq!(o.roots()[0].children[0].text, "b");
    assert_eq!(o.roots()[0].children[0].children[0].text, "c");
    assert_eq!(o.roots()[1].text, "d");
}

#[test]
fn accepts_star_marker() {
    let mut id_source = IdSource::new();
    let o = Outline::parse("* a\n  * b\n", &mut id_source);
    assert_eq!(o.roots()[0].text, "a");
    assert_eq!(o.roots()[0].children[0].text, "b");
}

#[test]
fn tab_indent_counts_as_two_spaces() {
    let mut id_source = IdSource::new();
    let o = Outline::parse("- a\n\t- b\n", &mut id_source);
    assert_eq!(o.roots()[0].children[0].text, "b");
}

#[test]
fn non_bullet_lines_are_ignored() {
    let mut id_source = IdSource::new();
    let o = Outline::parse("preamble\n- a\nnot a bullet\n- b\n", &mut id_source);
    assert_eq!(o.roots().len(), 2);
    assert_eq!(o.roots()[0].text, "a");
    assert_eq!(o.roots()[1].text, "b");
}

#[test]
fn roundtrip_canonical_forms() {
    for src in ["- a\n", "- a\n- b\n", "- a\n  - b\n    - c\n- d\n"] {
    let mut id_source = IdSource::new();
        let o = Outline::parse(src, &mut id_source);
        assert_eq!(o.serialize(), src, "roundtrip failed for {src:?}");
    }
}

#[test]
fn serialize_is_idempotent_under_reparse() {
    let mut id_source = IdSource::new();
    let src = "*\ta\n\t- b\n";
    let once = Outline::parse(src, &mut id_source).serialize();
    let twice = Outline::parse(&once, &mut id_source).serialize();
    assert_eq!(once, twice);
}

#[test]
fn path_to_unknown_id_returns_none() {
    let mut id_source = IdSource::new();
    let o = Outline::parse("- a\n", &mut id_source);
    let ghost = unused_id();
    assert!(o.path_to(ghost).is_none());
}

#[test]
fn indent_under_previous_sibling() {
    let mut id_source = IdSource::new();
    let mut o = Outline::parse("- a\n- b\n", &mut id_source);
    let b = by_text(&o, "b");
    assert!(o.indent(b));
    assert_eq!(o.serialize(), "- a\n  - b\n");
}

#[test]
fn indent_first_sibling_is_noop() {
    let mut id_source = IdSource::new();
    let mut o = Outline::parse("- a\n- b\n", &mut id_source);
    let a = by_text(&o, "a");
    assert!(!o.indent(a));
    assert_eq!(o.serialize(), "- a\n- b\n");
}

#[test]
fn outdent_raises_one_level() {
    let mut id_source = IdSource::new();
    let mut o = Outline::parse("- a\n  - b\n", &mut id_source);
    let b = by_text(&o, "b");
    assert!(o.outdent(b));
    assert_eq!(o.serialize(), "- a\n- b\n");
}

#[test]
fn outdent_at_root_is_noop() {
    let mut id_source = IdSource::new();
    let mut o = Outline::parse("- a\n", &mut id_source);
    let a = by_text(&o, "a");
    assert!(!o.outdent(a));
    assert_eq!(o.serialize(), "- a\n");
}

#[test]
fn move_up_and_down_swap_siblings() {
    let mut id_source = IdSource::new();
    let mut o = Outline::parse("- a\n- b\n- c\n", &mut id_source);
    let b = by_text(&o, "b");
    assert!(o.move_up(b));
    assert_eq!(o.serialize(), "- b\n- a\n- c\n");
    assert!(o.move_down(b));
    assert_eq!(o.serialize(), "- a\n- b\n- c\n");
}

#[test]
fn move_up_at_top_is_noop() {
    let mut id_source = IdSource::new();
    let mut o = Outline::parse("- a\n- b\n", &mut id_source);
    let a = by_text(&o, "a");
    assert!(!o.move_up(a));
}

#[test]
fn move_down_at_bottom_is_noop() {
    let mut id_source = IdSource::new();
    let mut o = Outline::parse("- a\n- b\n", &mut id_source);
    let b = by_text(&o, "b");
    assert!(!o.move_down(b));
}

#[test]
fn toggle_collapse_flips_flag() {
    let mut id_source = IdSource::new();
    let mut o = Outline::parse("- a\n", &mut id_source);
    let a = by_text(&o, "a");
    assert!(!o.roots()[0].collapsed);
    assert!(o.toggle_collapse(a));
    assert!(o.roots()[0].collapsed);
    assert!(o.toggle_collapse(a));
    assert!(!o.roots()[0].collapsed);
}

#[test]
fn insert_after_creates_sibling() {
    let mut id_source = IdSource::new();
    let mut o = Outline::parse("- a\n- c\n", &mut id_source);
    let a = by_text(&o, "a");
    let new_id = o.insert_after(a, "b".to_string(), &mut id_source).unwrap();
    assert_eq!(o.serialize(), "- a\n- b\n- c\n");
    assert_eq!(o.path_to(new_id), Some(vec![1]));
}

#[test]
fn delete_removes_subtree_and_returns_it() {
    let mut id_source = IdSource::new();
    let mut o = Outline::parse("- a\n  - b\n- c\n", &mut id_source);
    let a = by_text(&o, "a");
    let removed = o.delete(a).unwrap();
    assert_eq!(removed.text, "a");
    assert_eq!(removed.children.len(), 1);
    assert_eq!(o.serialize(), "- c\n");
}

#[test]
fn get_returns_text_for_nested_block() {
    let mut id_source = IdSource::new();
    let o = Outline::parse("- a\n  - b\n", &mut id_source);
    let b = by_text(&o, "b");
    assert_eq!(o.get(b), Some("b"));
}

#[test]
fn get_unknown_id_is_none() {
    let mut id_source = IdSource::new();
    let o = Outline::parse("- a\n", &mut id_source);
    assert!(o.get(unused_id()).is_none());
}

#[test]
fn set_text_updates_block_and_roundtrips() {
    let mut id_source = IdSource::new();
    let mut o = Outline::parse("- a\n  - b\n", &mut id_source);
    let b = by_text(&o, "b");
    assert!(o.set_text(b, "BEE".to_string()));
    assert_eq!(o.get(b), Some("BEE"));
    assert_eq!(o.serialize(), "- a\n  - BEE\n");
}

#[test]
fn set_text_unknown_id_is_noop() {
    let mut id_source = IdSource::new();
    let mut o = Outline::parse("- a\n", &mut id_source);
    assert!(!o.set_text(unused_id(), "x".to_string()));
    assert_eq!(o.serialize(), "- a\n");
}

#[test]
fn first_block_id_matches_first_root() {
    let mut id_source = IdSource::new();
    let o = Outline::parse("- a\n- b\n", &mut id_source);
    assert_eq!(o.first_block_id(), Some(o.roots()[0].id));
    let empty = Outline::default();
    assert!(empty.first_block_id().is_none());
}

#[test]
fn block_ids_are_unique_within_outline() {
    let mut id_source = IdSource::new();
    let o = Outline::parse("- a\n  - b\n  - c\n- d\n", &mut id_source);
    let all = ids(&o);
    let mut dedup = all.clone();
    dedup.sort_by_key(|b| b.0);
    dedup.dedup();
    assert_eq!(all.len(), dedup.len());
}

#[test]
fn flatten_respects_collapsed() {
    let mut id_source = IdSource::new();
    let mut a = Block::new(&mut id_source, "a".to_string());
    let mut b = Block::new(&mut id_source, "b".to_string());
    let c = Block::new(&mut id_source, "c".to_string());
    b.children.push(c);
    a.children.push(b);
    let roots = vec![a];

    let ids: Vec<BlockId> = flatten_visible(&roots).into_iter().map(|(_, id)| id).collect();
    assert_eq!(ids.len(), 3);

    // Collapse the middle block; its child should disappear.
    let mut roots = roots;
    roots[0].children[0].collapsed = true;
    let ids: Vec<BlockId> = flatten_visible(&roots).into_iter().map(|(_, id)| id).collect();
    assert_eq!(ids.len(), 2);
}

#[test]
fn indent_then_outdent_restores_the_outline() {
    let mut id_source = IdSource::new();
    let mut o = Outline::parse("- a\n- b\n  - c\n- d\n", &mut id_source);
    let b = by_text(&o, "b");
    let before = o.serialize();
    assert!(o.indent(b));
    assert_eq!(o.serialize(), "- a\n  - b\n    - c\n- d\n");
    assert!(o.outdent(b));
    assert_eq!(o.serialize(), before);
}

#[test]
fn insert_then_delete_restores_the_outline() {
    let mut id_source = IdSource::new();
    let mut o = Outline::parse("- a\n  - b\n- c\n", &mut id_source);
    let b = by_text(&o, "b");
    let before = o.serialize();
    let id = o.insert_after(b, "new".to_string(), &mut id_source).unwrap();
    assert_eq!(o.serialize(), "- a\n  - b\n  - new\n- c\n");
    let removed = o.delete(id).unwrap();
    assert_eq!(removed.text, "new");
    assert_eq!(o.serialize(), before);
}

#[test]
fn toggling_twice_restores_the_flag() {
    let mut id_source = IdSource::new();
    let mut o = Outline::parse("- a\n  - b\n", &mut id_source);
    let b = by_text(&o, "b");
    assert!(o.toggle_collapse(b));
    assert!(o.roots()[0].children[0].collapsed);
    assert!(o.toggle_collapse(b));
    assert!(!o.roots()[0].children[0].collapsed);
}

#[test]
fn serialize_then_parse_gives_the_same_rows() {
    let mut id_source = IdSource::new();
    let o = Outline::parse("- a\n  - b\n    - c\n- d\n", &mut id_source);
    let again = Outline::parse(&o.serialize(), &mut id_source);
    assert_eq!(again.serialize(), o.serialize());
    assert_eq!(ids(&again).len(), 4);
}

#[test]
fn empty_text_parses_to_no_blocks() {
    let mut id_source = IdSource::new();
    let o = Outline::parse("", &mut id_source);
    assert!(o.roots().is_empty());
    assert_eq!(o.serialize(), "");
}

#[test]
fn crlf_line_endings_are_stripped() {
    let mut id_source = IdSource::new();
    let o = Outline::parse("- a\r\n- b\r\n", &mut id_source);
    assert_eq!(o.roots()[0].text, "a");
    assert_eq!(o.roots()[1].text, "b");
}

#[test]
fn outdent_places_the_block_after_its_parent() {
    let mut id_source = IdSource::new();
    let mut o = Outline::parse("- a\n  - b\n  - c\n", &mut id_source);
    let b = by_text(&o, "b");
    assert!(o.outdent(b));
    assert_eq!(o.serialize(), "- a\n  - c\n- b\n");
}

#[test]
fn escape_flushes_the_whole_multi_line_body() {
    let mut id_source = IdSource::new();
    let mut outline = Outline::parse("- ```calc\n", &mut id_source);
    let id = outline.roots()[0].id;
    assert!(outline.set_text(id, "```calc\n2 * 3\n```".to_string()));
    assert_eq!(outline.get(id), Some("```calc\n2 * 3\n```"));
    assert_eq!(outline.serialize(), "- ```calc\n  2 * 3\n  ```\n");
}

#[test]
fn continuation_lines_read_back_into_their_block() {
    let mut id_source = IdSource::new();
    let text = "- a\n  - ```calc\n    2 * 3\n    ```\n- b\n";
    let outline = Outline::parse(text, &mut id_source);
    assert_eq!(outline.roots().len(), 2);
    assert_eq!(outline.roots()[0].children[0].text, "```calc\n2 * 3\n```");
    assert_eq!(outline.serialize(), text);
}

#[test]
fn a_line_short_of_the_text_column_is_skipped() {
    let mut id_source = IdSource::new();
    let outline = Outline::parse("- a\n b\nnot a block\n", &mut id_source);
    assert_eq!(outline.roots().len(), 1);
    assert_eq!(outline.roots()[0].text, "a");
}

#[test]
fn folding_a_block_leaves_the_markdown_alone() {
    let mut id_source = IdSource::new();
    let mut outline = Outline::parse("- a\n  - b\n", &mut id_source);
    let before = outline.serialize();
    let id = outline.roots()[0].id;
    assert!(outline.toggle_collapse(id));
    assert!(outline.roots()[0].collapsed);
    assert_eq!(outline.serialize(), before);
    assert!(outline.toggle_collapse(id));
    assert!(!outline.roots()[0].collapsed);
}

#[test]
fn parses_that_share_an_id_source_never_reuse_an_id() {
    let mut id_source = IdSource::new();
    let first = Outline::parse("- a\n  - b\n", &mut id_source);
    let second = Outline::parse("- a\n  - b\n", &mut id_source);
    let mut all = ids(&first);
    all.extend(ids(&second));
    let mut dedup = all.clone();
    dedup.sort_by_key(|b| b.0);
    dedup.dedup();
    assert_eq!(all.len(), 4);
    assert_eq!(dedup.len(), 4);
    assert_eq!(id_source.peek(), 5);
}

#[test]
fn new_blocks_take_fresh_ids() {
    let mut id_source = IdSource::new();
    let a = Block::new(&mut id_source, "a".to_string());
    let b = Block::new(&mut id_source, "b".to_string());
    assert_ne!(a.id, b.id);
    assert_eq!(b.text, "b");
    assert!(b.children.is_empty() && !b.collapsed);

    let mut o = Outline::parse("- x\n", &mut id_source);
    let x = o.roots()[0].id;
    let y = o.insert_after(x, "y".to_string(), &mut id_source).unwrap();
    assert!(y != a.id && y != b.id && y != x);
    assert_eq!(id_source.peek(), y.0 + 1);
}
