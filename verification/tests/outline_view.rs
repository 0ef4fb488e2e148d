use gpui_notes::outline::{flatten_visible, BlockId, IdSource, Outline};
use gpui_notes::outline_view::{backspace_target, focus_step};

#[test]
fn focus_moves_through_visible_blocks_and_stops_at_the_ends() {
    let mut id_source = IdSource::new();
    let outline = Outline::parse("- a\n  - b\n- c\n", &mut id_source);
    let flat = flatten_visible(outline.roots());
    assert_eq!(focus_step(&flat, BlockId(1), 1), Some(BlockId(2)));
    assert_eq!(focus_step(&flat, BlockId(2), 1), Some(BlockId(3)));
    assert_eq!(focus_step(&flat, BlockId(3), 1), None);
    assert_eq!(focus_step(&flat, BlockId(1), -1), None);
    assert_eq!(focus_step(&flat, BlockId(3), -2), Some(BlockId(1)));
    assert_eq!(focus_step(&flat, BlockId(99), 1), None);
}

#[test]
fn backspace_on_empty_block_deletes_and_focuses_previous() {
    let mut id_source = IdSource::new();
    let outline = Outline::parse("- a\n- \n- c\n", &mut id_source);
    let flat = flatten_visible(outline.roots());
    assert_eq!(backspace_target(&outline, &flat, BlockId(2)), Some(BlockId(1)));
}

#[test]
fn backspace_on_the_first_empty_block_focuses_the_next() {
    let mut id_source = IdSource::new();
    let outline = Outline::parse("- \n- b\n", &mut id_source);
    let flat = flatten_visible(outline.roots());
    assert_eq!(backspace_target(&outline, &flat, BlockId(1)), Some(BlockId(2)));
}

#[test]
fn backspace_leaves_non_empty_parents_and_the_only_block_alone() {
    let mut id_source = IdSource::new();
    let outline = Outline::parse("- a\n- \n  - child\n", &mut id_source);
    let flat = flatten_visible(outline.roots());
    assert_eq!(backspace_target(&outline, &flat, BlockId(1)), None);
    assert_eq!(backspace_target(&outline, &flat, BlockId(2)), None);

    let single = Outline::parse("- \n", &mut id_source);
    let flat = flatten_visible(single.roots());
    assert_eq!(backspace_target(&single, &flat, BlockId(1)), None);
}
