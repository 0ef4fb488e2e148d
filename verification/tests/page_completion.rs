use std::ops::Range;

use gpui_notes::page_completion::{
    candidates, trigger_at, Candidate, CompletionKind, CompletionState, Trigger, MAX_ROWS,
};

fn names(list: &[&str]) -> Vec<String> {
    list.iter().map(|name| (*name).to_string()).collect()
}

/// `|` marks the caret; it is stripped before scanning.
fn scan(marked: &str) -> Option<Trigger> {
    let caret = marked.find('|').expect("test case marks the caret");
    let text = marked.replace('|', "");
    trigger_at(&text, caret)
}

fn check(marked: &str, expected: Option<(CompletionKind, usize, &str)>) {
    let found = scan(marked);
    match expected {
        None => assert_eq!(found, None, "{marked} must not open a popup"),
        Some((kind, start, query)) => {
            let found = found.expect("expected a trigger");
            assert_eq!(found.kind, kind);
            assert_eq!(found.range.start, start);
            assert_eq!(found.query, query);
        }
    }
}

#[test]
fn trigger_scanning() {
    check("[[ru|", Some((CompletionKind::Page, 0, "ru")));
    check("[[ru|]]", Some((CompletionKind::Page, 0, "ru")));
    check("[[|]]", Some((CompletionKind::Page, 0, "")));
    check("[[a]] x|", None);
    check("[[a]] [[b|", Some((CompletionKind::Page, 6, "b")));
    check("[[a\nb|", None);
    check("[[a #b|", Some((CompletionKind::Page, 0, "a #b")));
    check("#ta|g", Some((CompletionKind::Tag, 0, "ta")));
    check("#|", Some((CompletionKind::Tag, 0, "")));
    check("see #ru|", Some((CompletionKind::Tag, 4, "ru")));
    check("x#tag|", None);
    check("#a b|", None);
    check("plain text|", None);
}

#[test]
fn trigger_ranges_run_to_the_caret_in_bytes() {
    let t = trigger_at("é [[ab", 7).expect("a link is open");
    assert_eq!(t.range, 3..7);
    assert_eq!(t.query, "ab");
    assert_eq!(trigger_at("é [[ab", 1), None, "not a character boundary");
    assert_eq!(trigger_at("[[ab", 9), None, "past the end");
}

#[test]
fn prefix_matches_precede_substring_matches() {
    let names = names(&["ratatui", "ruff", "Trust Fall", "rustup"]);
    assert_eq!(
        candidates("ru", &names),
        vec![
            Candidate::Existing("ruff".into()),
            Candidate::Existing("rustup".into()),
            Candidate::Existing("Trust Fall".into()),
            Candidate::New("ru".into()),
        ],
        "`ratatui` doesn't match at all; `Trust Fall` only matches mid-word"
    );
}

#[test]
fn matching_ignores_case() {
    let names = names(&["Rust Language"]);
    assert_eq!(
        candidates("rust l", &names),
        vec![Candidate::Existing("Rust Language".into()), Candidate::New("rust l".into())]
    );
}

#[test]
fn existing_matches_are_capped_but_the_new_row_survives() {
    let all = names(&["a1", "a2", "a3", "a4", "a5", "a6", "a7", "a8", "a9"]);
    let rows = candidates("a", &all);
    assert_eq!(rows.len(), MAX_ROWS + 1, "8 matches plus the New row");
    assert_eq!(rows[MAX_ROWS], Candidate::New("a".into()));
}

#[test]
fn an_exact_match_suppresses_the_new_row() {
    let names = names(&["Ruff"]);
    assert_eq!(candidates("ruff", &names), vec![Candidate::Existing("Ruff".into())]);
}

#[test]
fn an_empty_query_lists_everything_without_a_new_row() {
    let names = names(&["one", "two"]);
    assert_eq!(
        candidates("", &names),
        vec![Candidate::Existing("one".into()), Candidate::Existing("two".into())]
    );
}

#[test]
fn an_empty_query_with_no_names_offers_nothing() {
    let trigger = Trigger { kind: CompletionKind::Page, range: 0..2, query: String::new() };
    assert_eq!(CompletionState::new(&trigger, &[]), None);
}

#[test]
fn insertion_wraps_the_selected_name() {
    for (kind, expected) in
        [(CompletionKind::Page, "[[Rust Language]]"), (CompletionKind::Tag, "#Rust Language")]
    {
        let state = CompletionState {
            kind,
            range: 0..2,
            candidates: vec![Candidate::Existing("Rust Language".into())],
            selected: 0,
        };
        assert_eq!(state.insertion().as_deref(), Some(expected));
    }
}

#[test]
fn selection_wraps_in_both_directions() {
    let mut state = CompletionState {
        kind: CompletionKind::Page,
        range: 0..2,
        candidates: vec![Candidate::Existing("a".into()), Candidate::Existing("b".into())],
        selected: 0,
    };

    state.select_up();
    assert_eq!(state.selected, 1, "up from the first row wraps to the last");
    state.select_down();
    assert_eq!(state.selected, 0, "down from the last row wraps to the first");
}

#[test]
fn the_new_row_is_labelled_by_kind() {
    let state = CompletionState {
        kind: CompletionKind::Tag,
        range: 0..1,
        candidates: vec![Candidate::New("todo".into())],
        selected: 0,
    };
    assert_eq!(state.label(0), Some("New tag: todo".into()));
    assert_eq!(state.label(1), None);
}

#[test]
fn state_for_a_trigger_starts_on_the_first_row() {
    let trigger = Trigger { kind: CompletionKind::Tag, range: Range { start: 4, end: 6 }, query: "ru".into() };
    let state = CompletionState::new(&trigger, &names(&["rust"])).expect("rows to offer");
    assert_eq!(state.kind, CompletionKind::Tag);
    assert_eq!(state.range, 4..6);
    assert_eq!(state.selected, 0);
    assert_eq!(state.candidates[0], Candidate::Existing("rust".into()));
    assert_eq!(state.label(1), Some("New tag: ru".into()));
}

#[test]
fn selection_on_empty_rows_stays_put() {
    let mut state =
        CompletionState { kind: CompletionKind::Page, range: 0..0, candidates: vec![], selected: 3 };
    state.select_down();
    assert_eq!(state.selected, 3);
    state.select_up();
    assert_eq!(state.selected, 3);
    assert_eq!(state.insertion(), None);
}
