//! Decisions a block makes while its text is edited: how it reacts to the
//! editor's events, whether Enter extends the block, and whether typing `[[`
//! gets its closing `]]`.

use vstd::prelude::*;
use std::ops::Range;
use crate::page_completion::{closes_at, insertion_spec, row_name_spec, row_view, CompletionKind, CompletionState};
use crate::text::{char_at_byte, chars_of, is_boundary, byte_offsets, char_index_at, str_len};

verus! {

broadcast use vstd::seq_lib::group_seq_properties;

/// How many times "```" occurs in `s`, counted left to right without overlap.
pub open spec fn fence_count(s: Seq<char>) -> nat
    decreases s.len(),
{
    if s.len() < 3 {
        0
    } else if s[0] == '`' && s[1] == '`' && s[2] == '`' {
        1 + fence_count(s.skip(3))
    } else {
        fence_count(s.skip(1))
    }
}

/// Enter adds a line to the block, rather than starting a new one, once the
/// block already spans lines or has opened a code fence it has not closed.
pub open spec fn extends_on_enter_spec(text: Seq<char>) -> bool {
    text.contains('\n') || fence_count(text) % 2 == 1
}

/// Whether Enter should add a line to the block rather than start a new one.
pub fn extends_on_enter(text: &str) -> (r: bool)
    ensures
        r == extends_on_enter_spec(text@),
{
    let cs = chars_of(text);
    let mut newline = false;
    let mut fences: usize = 0;
    let mut i: usize = 0;
    // `fences` counts the fences in what has been scanned so far.
    while i < cs.len()
        invariant
            i <= cs.len(),
            cs@ == text@,
            newline == cs@.take(i as int).contains('\n'),
            fences + fence_count(cs@.skip(i as int)) == fence_count(cs@),
            fences <= i,
        decreases cs.len() - i,
    {
        let ghost rest = cs@.skip(i as int);
        if cs.len() - i >= 3 && cs[i] == '`' && cs[i + 1] == '`' && cs[i + 2] == '`' {
            assert(rest[0] == '`' && rest[1] == '`' && rest[2] == '`');
            assert(rest.skip(3) =~= cs@.skip(i + 3));
            proof {
                let t = cs@.take(i as int);
                assert(cs@.take(i + 3) =~= t.push(cs@[i as int]).push(cs@[i + 1]).push(cs@[i + 2]));
            }
            fences += 1;
            i += 3;
        } else {
            proof {
                if rest.len() >= 3 {
                    assert(!(rest[0] == '`' && rest[1] == '`' && rest[2] == '`'));
                }
                assert(rest.skip(1) =~= cs@.skip(i + 1));
                assert(cs@.take(i + 1) =~= cs@.take(i as int).push(cs@[i as int]));
            }
            if cs[i] == '\n' {
                newline = true;
            }
            i += 1;
        }
    }
    assert(cs@.take(cs.len() as int) =~= cs@);
    assert(cs@.skip(cs.len() as int) =~= Seq::<char>::empty());
    newline || fences % 2 == 1
}

/// Typing `[[` at the caret wants a closing `]]`: the text before the caret
/// ends with `[[` and the text after it does not already start with `]]`.
pub open spec fn autopair_spec(text: Seq<char>, k: int) -> bool {
    &&& k >= 2
    &&& text[k - 2] == '['
    &&& text[k - 1] == '['
    &&& !(k + 2 <= text.len() && text[k] == ']' && text[k + 1] == ']')
}

/// Whether to insert `]]` at byte offset `caret` (an empty selection there)
/// so that a `[[` just typed is closed, leaving the caret between the pairs.
pub fn autopair_at(text: &str, caret: usize) -> (r: bool)
    requires
        is_boundary(text@, caret as int),
    ensures
        r == autopair_spec(text@, char_at_byte(text@, caret as int)),
{
    let cs = chars_of(text);
    let total = str_len(text);
    let offs = byte_offsets(&cs, total);
    let k = match char_index_at(Ghost(text@), &offs, caret) {
        Some(k) => {
            proof {
                crate::text::lemma_char_at_byte(text@, caret as int, k as int);
            }
            k
        },
        None => {
            return false;
        },
    };
    k >= 2 && cs[k - 2] == '[' && cs[k - 1] == '[' && !(cs.len() - k >= 2 && cs[k] == ']' && cs[k + 1] == ']')
}


/// What the text editor of a block reports.
#[derive(Debug, PartialEq, Eq)]
pub enum InputEvent {
    /// The text changed to this.
    Changed(String),
    /// Enter.
    Submitted,
    /// Shift-Enter: start a new block whatever the text.
    SubmittedNow,
    /// Escape.
    Cancelled,
}

/// What a block does about an editor event.
#[derive(Debug, PartialEq, Eq)]
pub enum EditAction {
    /// Write the text through to the page (then see whether `[[` wants
    /// closing).
    Flush(String),
    /// Replace the byte range with the text: a completion accepted.
    Accept(Range<usize>, String),
    /// Break the line inside the block.
    InsertNewline,
    /// Finish the block and start an empty one below it.
    InsertSibling,
    /// Dismiss the completion popup and keep editing.
    ClosePopup,
    /// Stop editing; the block stays selected.
    EndEditing,
}

/// The model of an action.
pub enum ActionView {
    Flush(Seq<char>),
    Accept(int, int, Seq<char>),
    InsertNewline,
    InsertSibling,
    ClosePopup,
    EndEditing,
}

pub open spec fn action_view(a: EditAction) -> ActionView {
    match a {
        EditAction::Flush(t) => ActionView::Flush(t@),
        EditAction::Accept(r, t) => ActionView::Accept(r.start as int, r.end as int, t@),
        EditAction::InsertNewline => ActionView::InsertNewline,
        EditAction::InsertSibling => ActionView::InsertSibling,
        EditAction::ClosePopup => ActionView::ClosePopup,
        EditAction::EndEditing => ActionView::EndEditing,
    }
}

/// How a block reacts to an editor event, with the completion popup (if
/// one is open) over `content`: Escape first closes the popup, then ends
/// the edit; Enter accepts the highlighted row of the popup, or else breaks
/// the line where the block extends on Enter, or else starts a new block;
/// Shift-Enter always starts a new block; a change is written through.
pub open spec fn react_spec(event: InputEvent, popup: Option<&CompletionState>, content: Seq<char>) -> ActionView {
    match event {
        InputEvent::Changed(t) => ActionView::Flush(t@),
        InputEvent::Cancelled => if popup is Some {
            ActionView::ClosePopup
        } else {
            ActionView::EndEditing
        },
        InputEvent::SubmittedNow => ActionView::InsertSibling,
        InputEvent::Submitted => {
            let accepted = match popup {
                Some(st) => if st.selected < st.candidates.len() {
                    Some(
                        ActionView::Accept(
                            st.range.start as int,
                            st.range.end + (if st.kind == CompletionKind::Page && closes_at(
                                content,
                                char_at_byte(content, st.range.end as int),
                            ) {
                                2int
                            } else {
                                0int
                            }),
                            insertion_spec(st.kind, row_name_spec(row_view(st.candidates@[st.selected as int]))),
                        ),
                    )
                } else {
                    None
                },
                None => None,
            };
            match accepted {
                Some(a) => a,
                None => if extends_on_enter_spec(content) {
                    ActionView::InsertNewline
                } else {
                    ActionView::InsertSibling
                },
            }
        },
    }
}

/// How a block reacts to an editor event, given the open completion popup,
/// if any, over the editor's `content`.
pub fn react(event: InputEvent, popup: Option<&CompletionState>, content: &str) -> (r: EditAction)
    requires
        popup matches Some(st) ==> is_boundary(content@, st.range.end as int),
    ensures
        action_view(r) == react_spec(event, popup, content@),
{
    match event {
        InputEvent::Changed(t) => EditAction::Flush(t),
        InputEvent::Cancelled => match popup {
            Some(_) => EditAction::ClosePopup,
            None => EditAction::EndEditing,
        },
        InputEvent::SubmittedNow => EditAction::InsertSibling,
        InputEvent::Submitted => {
            if let Some(st) = popup {
                if let Some((range, text)) = st.splice(content) {
                    return EditAction::Accept(range, text);
                }
            }
            if extends_on_enter(content) {
                EditAction::InsertNewline
            } else {
                EditAction::InsertSibling
            }
        },
    }
}

} // verus!
