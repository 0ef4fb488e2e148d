use std::ops::Range;

use gpui_notes::edit::{
    apply_backspace, apply_delete, apply_replace, character_left_target, character_right_target,
    next_grapheme_boundary, next_word_end, offset_from_utf16_in, offset_to_utf16_in,
    previous_grapheme_boundary, previous_word_start, Selection,
};

#[test]
fn grapheme_boundaries() {
    for (content, offset, expected_previous, expected_next) in [
        ("abc", 1, 0, 2),
        ("a🦀b", 1, 0, 5),
        ("ae\u{301}b", 1, 0, 4),
        ("a🦀b", 6, 5, 6),
        ("a🦀b", 0, 0, 1),
    ] {
        assert_eq!(previous_grapheme_boundary(content, offset), expected_previous);
        assert_eq!(next_grapheme_boundary(content, offset), expected_next);
    }
}

#[test]
fn grapheme_boundaries_keep_joined_emoji_together() {
    let family = "👩‍👩‍👧‍👦";
    let content = format!("a{family}b");
    let family_start = 1;
    let family_end = family_start + family.len();

    assert_eq!(next_grapheme_boundary(&content, family_start), family_end);
    assert_eq!(previous_grapheme_boundary(&content, family_end), family_start);
}

#[test]
fn word_boundaries() {
    for (content, offset, expected_left, expected_right) in [
        ("", 0, 0, 0),
        ("   ", 1, 0, 3),
        ("  hello", 1, 0, 7),
        ("hello world", 0, 0, 5),
        ("hello world", 2, 0, 5),
        ("hello world", 5, 0, 11),
        ("hello,  world", 7, 0, 13),
        ("hello,  world", 8, 0, 13),
        ("one_two three", 4, 0, 7),
        ("foo—bar", 3, 0, 9),
        ("naïve 東京", 3, 0, 6),
        ("naïve 東京", 7, 0, 10),
        ("naïve 東京", 13, 10, 13),
    ] {
        assert_eq!(previous_word_start(content, offset), expected_left, "{content:?} {offset}");
        assert_eq!(next_word_end(content, offset), expected_right, "{content:?} {offset}");
    }
}

#[test]
fn selection_extends_shrinks_and_crosses_its_anchor() {
    let mut selection = Selection::collapsed(5);

    selection.extend_to(9);
    assert_eq!(selection.range(), 5..9);
    assert!(!selection.is_reversed());

    selection.extend_to(7);
    assert_eq!(selection.range(), 5..7);

    selection.extend_to(3);
    assert_eq!(selection.range(), 3..5);
    assert!(selection.is_reversed());

    selection.extend_to(8);
    assert_eq!(selection.range(), 5..8);
    assert!(!selection.is_reversed());
}

#[test]
fn character_motion_collapses_to_directional_selection_edge() {
    let content = "a🦀b";
    let forward = Selection { anchor: 1, head: 5 };
    let reversed = Selection { anchor: 5, head: 1 };

    assert_eq!(character_left_target(content, forward), 1);
    assert_eq!(character_right_target(content, forward), 5);
    assert_eq!(character_left_target(content, reversed), 1);
    assert_eq!(character_right_target(content, reversed), 5);
}

#[test]
fn backspace_cases() {
    let cases: [(&str, Range<usize>, &str, Range<usize>); 5] = [
        ("hello", 0..0, "hello", 0..0),
        ("hello", 3..3, "helo", 2..2),
        ("hello world", 6..11, "hello ", 6..6),
        ("a🦀b", 5..5, "ab", 1..1),
        ("ae\u{301}b", 4..4, "ab", 1..1),
    ];
    for (content, selection, expected_content, expected_selection) in cases {
        let (out, sel) = apply_backspace(content, selection);
        assert_eq!(out, expected_content);
        assert_eq!(sel, expected_selection);
    }
}

#[test]
fn delete_cases() {
    let cases: [(&str, Range<usize>, &str, Range<usize>); 4] = [
        ("hello", 5..5, "hello", 5..5),
        ("hello", 2..2, "helo", 2..2),
        ("a🦀b", 1..1, "ab", 1..1),
        ("ae\u{301}b", 1..1, "ab", 1..1),
    ];
    for (content, selection, expected_content, expected_selection) in cases {
        let (out, sel) = apply_delete(content, selection);
        assert_eq!(out, expected_content);
        assert_eq!(sel, expected_selection);
    }
}

#[test]
fn replace_cases() {
    let cases: [(&str, Range<usize>, &str, &str, Range<usize>); 2] = [
        ("helo", 3..3, "l", "hello", 4..4),
        ("hello world", 6..11, "there", "hello there", 11..11),
    ];
    for (content, range, new_text, expected_content, expected_selection) in cases {
        let (out, sel) = apply_replace(content, range, new_text);
        assert_eq!(out, expected_content);
        assert_eq!(sel, expected_selection);
    }
}

#[test]
fn utf16_offsets_count_surrogate_pairs() {
    let content = "a🦀b";
    assert_eq!(offset_to_utf16_in(content, 0), 0);
    assert_eq!(offset_to_utf16_in(content, 1), 1);
    assert_eq!(offset_to_utf16_in(content, 5), 3);
    assert_eq!(offset_to_utf16_in(content, 6), 4);
    assert_eq!(offset_from_utf16_in(content, 3), 5);
    assert_eq!(offset_from_utf16_in(content, 4), 6);
    assert_eq!(offset_from_utf16_in(content, 99), 6);
}

#[test]
fn utf16_offsets_round_trip_at_character_boundaries() {
    let text = "aé😀b";
    let bytes = [0usize, 1, 3, 7, 8];
    let units = [0usize, 1, 2, 4, 5];
    for (b, u) in bytes.iter().zip(units.iter()) {
        assert_eq!(gpui_notes::edit::offset_to_utf16_in(text, *b), *u);
        assert_eq!(gpui_notes::edit::offset_from_utf16_in(text, *u), *b);
    }
}
