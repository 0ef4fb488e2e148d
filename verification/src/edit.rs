//! Editing a one-line text buffer: caret motion by grapheme and by word, and
//! the edits that backspace, delete and typing make. Offsets are byte offsets
//! into the buffer.

use vstd::prelude::*;
use std::ops::Range;
use unicode_segmentation::UnicodeSegmentation;
use crate::text::{
    byte_len, byte_offset, byte_offsets, byte_slice, chars_of, is_boundary, slice_bytes, str_len,
    lemma_byte_offset_mono,
};
use vstd::string::*;

verus! {

broadcast use vstd::seq_lib::group_seq_properties;

/// The byte offsets at which the extended grapheme clusters of `s` start,
/// in order.
pub uninterp spec fn grapheme_starts(s: Seq<char>) -> Seq<usize>;

/// The extended grapheme clusters of `s`
/// (`UnicodeSegmentation::grapheme_indices(s, true)`), by start offset. The
/// contract names the result and states what the crate's clusters are:
/// pieces of `s`, so each starts on a character boundary inside it.
#[verifier::external_body]
fn grapheme_starts_of(s: &str) -> (r: Vec<usize>)
    ensures
        r@ == grapheme_starts(s@),
        forall|i: int| 0 <= i < r.len() ==> is_boundary(s@, #[trigger] r@[i] as int) && r@[i] < byte_len(s@),
{
    s.grapheme_indices(true).map(|(i, _)| i).collect()
}

/// The words of `s` (`UnicodeSegmentation::unicode_word_indices`), each as
/// its start offset and byte length, in order.
pub uninterp spec fn word_spans(s: Seq<char>) -> Seq<(usize, usize)>;

/// The words of `s` (`UnicodeSegmentation::unicode_word_indices`), each as
/// its start and byte length. The contract names the result and states that
/// each word is a piece of `s`.
#[verifier::external_body]
fn word_spans_of(s: &str) -> (r: Vec<(usize, usize)>)
    ensures
        r@ == word_spans(s@),
        forall|i: int| 0 <= i < r.len() ==> #[trigger] r@[i].0 + r@[i].1 <= byte_len(s@),
{
    s.unicode_word_indices().map(|(i, w)| (i, w.len())).collect()
}

/// The last offset in `starts`, scanning from the end, below `offset`; 0 if
/// there is none.
pub open spec fn last_below(starts: Seq<usize>, offset: int) -> int
    decreases starts.len(),
{
    if starts.len() == 0 {
        0
    } else if starts.last() < offset {
        starts.last() as int
    } else {
        last_below(starts.drop_last(), offset)
    }
}

/// The first offset in `starts` above `offset`; `end` if there is none.
pub open spec fn first_above(starts: Seq<usize>, offset: int, end: int) -> int
    decreases starts.len(),
{
    if starts.len() == 0 {
        end
    } else if starts[0] > offset {
        starts[0] as int
    } else {
        first_above(starts.drop_first(), offset, end)
    }
}

/// Where a caret moving one character left from `offset` lands: the start
/// of the grapheme cluster before it.
pub open spec fn prev_boundary_spec(content: Seq<char>, offset: int) -> int {
    last_below(grapheme_starts(content), offset)
}

/// Where a caret moving one character right from `offset` lands: the start
/// of the next grapheme cluster, or the end.
pub open spec fn next_boundary_spec(content: Seq<char>, offset: int) -> int {
    first_above(grapheme_starts(content), offset, byte_len(content) as int)
}

/// The start of the grapheme cluster before byte `offset`, or 0.
pub fn previous_grapheme_boundary(content: &str, offset: usize) -> (r: usize)
    ensures
        r == prev_boundary_spec(content@, offset as int),
        is_boundary(content@, r as int),
{
    let starts = grapheme_starts_of(content);
    let mut n = starts.len();
    while n > 0 && starts[n - 1] >= offset
        invariant
            n <= starts.len(),
            last_below(starts@, offset as int) == last_below(starts@.take(n as int), offset as int),
        decreases n,
    {
        assert(starts@.take(n as int).drop_last() =~= starts@.take(n - 1));
        n -= 1;
    }
    if n == 0 {
        assert(byte_offset(content@, 0) == 0) by {
            assert(content@.take(0) =~= Seq::<char>::empty());
        }
        0
    } else {
        assert(starts@.take(n as int).last() == starts@[n - 1]);
        starts[n - 1]
    }
}

/// The start of the grapheme cluster after byte `offset`, or the end.
pub fn next_grapheme_boundary(content: &str, offset: usize) -> (r: usize)
    ensures
        r == next_boundary_spec(content@, offset as int),
        is_boundary(content@, r as int),
{
    let starts = grapheme_starts_of(content);
    let total = str_len(content);
    let mut i: usize = 0;
    while i < starts.len() && starts[i] <= offset
        invariant
            i <= starts.len(),
            total == byte_len(content@),
            first_above(starts@, offset as int, total as int) == first_above(
                starts@.skip(i as int),
                offset as int,
                total as int,
            ),
        decreases starts.len() - i,
    {
        assert(starts@.skip(i as int).drop_first() =~= starts@.skip(i + 1));
        i += 1;
    }
    assert(starts@.skip(0) =~= starts@);
    if i == starts.len() {
        assert(starts@.skip(i as int).len() == 0);
        assert(byte_offset(content@, content@.len() as int) == byte_len(content@)) by {
            assert(content@.take(content@.len() as int) =~= content@);
        }
        total
    } else {
        assert(starts@.skip(i as int)[0] == starts@[i as int]);
        starts[i]
    }
}

/// The start of the last word that starts before `offset`, scanning the
/// words in order and stopping at the first that does not; 0 if none does.
pub open spec fn word_start_before(words: Seq<(usize, usize)>, offset: int, last: int) -> int
    decreases words.len(),
{
    if words.len() == 0 || words[0].0 >= offset {
        last
    } else {
        word_start_before(words.drop_first(), offset, words[0].0 as int)
    }
}

/// The end of the first word that ends after `offset`; `end` if none does.
pub open spec fn word_end_after(words: Seq<(usize, usize)>, offset: int, end: int) -> int
    decreases words.len(),
{
    if words.len() == 0 {
        end
    } else if words[0].0 + words[0].1 > offset {
        words[0].0 + words[0].1
    } else {
        word_end_after(words.drop_first(), offset, end)
    }
}

/// Where a caret moving one word left from `offset` lands: the start of the
/// word before it, or 0.
pub fn previous_word_start(content: &str, offset: usize) -> (r: usize)
    ensures
        r == word_start_before(word_spans(content@), offset as int, 0),
{
    let words = word_spans_of(content);
    let mut last: usize = 0;
    let mut i: usize = 0;
    while i < words.len() && words[i].0 < offset
        invariant
            i <= words.len(),
            word_start_before(word_spans(content@), offset as int, 0) == word_start_before(
                words@.skip(i as int),
                offset as int,
                last as int,
            ),
            words@ == word_spans(content@),
        decreases words.len() - i,
    {
        assert(words@.skip(i as int).drop_first() =~= words@.skip(i + 1));
        assert(words@.skip(i as int)[0] == words@[i as int]);
        last = words[i].0;
        i += 1;
    }
    assert(words@.skip(0) =~= words@);
    if i < words.len() {
        assert(words@.skip(i as int)[0] == words@[i as int]);
    }
    last
}

/// Where a caret moving one word right from `offset` lands: the end of the
/// word it is in or the next one, or the end.
pub fn next_word_end(content: &str, offset: usize) -> (r: usize)
    ensures
        r == word_end_after(word_spans(content@), offset as int, byte_len(content@) as int),
{
    let words = word_spans_of(content);
    let total = str_len(content);
    let mut i: usize = 0;
    assert(words@.skip(0) =~= words@);
    while i < words.len()
        invariant
            i <= words.len(),
            words@ == word_spans(content@),
            total == byte_len(content@),
            forall|q: int| 0 <= q < words.len() ==> #[trigger] words@[q].0 + words@[q].1 <= byte_len(content@),
            word_end_after(words@, offset as int, total as int) == word_end_after(
                words@.skip(i as int),
                offset as int,
                total as int,
            ),
        decreases words.len() - i,
    {
        assert(words@.skip(i as int)[0] == words@[i as int]);
        assert(words@.skip(i as int).drop_first() =~= words@.skip(i + 1));
        let end = words[i].0 + words[i].1;
        if end > offset {
            return end;
        }
        i += 1;
    }
    total
}

/// A selection: the fixed end where it started and the end that moves.
#[derive(Clone, Copy, Debug, PartialEq, Eq, Structural)]
pub struct Selection {
    pub anchor: usize,
    pub head: usize,
}

impl Selection {
    /// An empty selection at `offset`.
    pub fn collapsed(offset: usize) -> (s: Selection)
        ensures
            s.anchor == offset && s.head == offset,
    {
        Selection { anchor: offset, head: offset }
    }

    /// The selected range, lower end first.
    pub fn range(self) -> (r: Range<usize>)
        ensures
            r.start == (if self.anchor <= self.head { self.anchor } else { self.head }),
            r.end == (if self.anchor <= self.head { self.head } else { self.anchor }),
    {
        if self.anchor <= self.head {
            Range { start: self.anchor, end: self.head }
        } else {
            Range { start: self.head, end: self.anchor }
        }
    }

    /// Nothing is selected.
    pub fn is_empty(self) -> (r: bool)
        ensures
            r == (self.anchor == self.head),
    {
        self.anchor == self.head
    }

    /// The moving end is before the fixed one.
    pub fn is_reversed(self) -> (r: bool)
        ensures
            r == (self.head < self.anchor),
    {
        self.head < self.anchor
    }

    /// Moves both ends to `offset`.
    pub fn collapse(&mut self, offset: usize)
        ensures
            final(self).anchor == offset && final(self).head == offset,
    {
        self.anchor = offset;
        self.head = offset;
    }

    /// Moves the moving end to `offset`.
    pub fn extend_to(&mut self, offset: usize)
        ensures
            final(self).anchor == old(self).anchor && final(self).head == offset,
    {
        self.head = offset;
    }
}

/// Where moving one character left goes: the previous grapheme boundary
/// from an empty selection, else the selection's lower end.
pub fn character_left_target(content: &str, selection: Selection) -> (r: usize)
    ensures
        r == (if selection.anchor == selection.head {
            prev_boundary_spec(content@, selection.head as int)
        } else if selection.anchor <= selection.head {
            selection.anchor as int
        } else {
            selection.head as int
        }),
{
    if selection.is_empty() {
        previous_grapheme_boundary(content, selection.head)
    } else {
        selection.range().start
    }
}

/// Where moving one character right goes: the next grapheme boundary from
/// an empty selection, else the selection's upper end.
pub fn character_right_target(content: &str, selection: Selection) -> (r: usize)
    ensures
        r == (if selection.anchor == selection.head {
            next_boundary_spec(content@, selection.head as int)
        } else if selection.anchor <= selection.head {
            selection.head as int
        } else {
            selection.anchor as int
        }),
{
    if selection.is_empty() {
        next_grapheme_boundary(content, selection.head)
    } else {
        selection.range().end
    }
}

/// `content` with bytes `start..end` replaced by `new_text`.
pub open spec fn replaced(content: Seq<char>, start: int, end: int, new_text: Seq<char>) -> Seq<char> {
    byte_slice(content, 0, start) + new_text + byte_slice(content, end, byte_len(content) as int)
}

/// Replaces bytes `range` of `content` with `new_text`; the caret lands
/// after the inserted text.
pub fn apply_replace(content: &str, range: Range<usize>, new_text: &str) -> (r: (String, Range<usize>))
    requires
        is_boundary(content@, range.start as int),
        is_boundary(content@, range.end as int),
        range.start + byte_len(new_text@) <= usize::MAX,
    ensures
        r.0@ == replaced(content@, range.start as int, range.end as int, new_text@),
        r.1.start == range.start + byte_len(new_text@),
        r.1.end == r.1.start,
{
    let chars = chars_of(content);
    let total = str_len(content);
    let offs = byte_offsets(&chars, total);
    proof {
        assert(byte_offset(content@, 0) == 0) by {
            assert(content@.take(0) =~= Seq::<char>::empty());
        }
        assert(byte_offset(content@, content@.len() as int) == byte_len(content@)) by {
            assert(content@.take(content@.len() as int) =~= content@);
        }
        let ks = choose|k: int| 0 <= k <= content@.len() && byte_offset(content@, k) == range.start;
        let ke = choose|k: int| 0 <= k <= content@.len() && byte_offset(content@, k) == range.end;
        lemma_byte_offset_mono(content@, ks, content@.len() as int);
        lemma_byte_offset_mono(content@, ke, content@.len() as int);
    }
    let mut out = slice_bytes(&chars, &offs, 0, range.start);
    out.append(new_text);
    let tail = slice_bytes(&chars, &offs, range.end, total);
    out.append(tail.as_str());
    let end = range.start + str_len(new_text);
    (out, Range { start: end, end })
}

/// Backspace needs no slicing it cannot do: both ends of the selection are
/// boundaries, or it is empty at a point with nothing to erase before it.
pub open spec fn backspace_ok(content: Seq<char>, sel: Range<usize>) -> bool {
    ||| is_boundary(content, sel.start as int) && is_boundary(content, sel.end as int)
    ||| !(sel.start < sel.end) && prev_boundary_spec(content, sel.start as int) == sel.start
}

/// What backspace does: from an empty selection (`start >= end`), erases the
/// grapheme cluster before it, if any; else erases the selection.
pub open spec fn backspace_spec(content: Seq<char>, sel: Range<usize>) -> (Seq<char>, int, int) {
    if !(sel.start < sel.end) {
        let prev = prev_boundary_spec(content, sel.start as int);
        if prev == sel.start {
            (content, sel.start as int, sel.end as int)
        } else {
            (replaced(content, prev, sel.end as int, Seq::empty()), prev, prev)
        }
    } else {
        (replaced(content, sel.start as int, sel.end as int, Seq::empty()), sel.start as int, sel.start as int)
    }
}

/// The edit backspace makes on `content` with `selection`: the new text and
/// the new (empty) selection.
pub fn apply_backspace(content: &str, selection: Range<usize>) -> (r: (String, Range<usize>))
    requires
        backspace_ok(content@, selection),
    ensures
        (r.0@, r.1.start as int, r.1.end as int) == backspace_spec(content@, selection),
{
    if !(selection.start < selection.end) {
        let prev = previous_grapheme_boundary(content, selection.start);
        if prev == selection.start {
            return (content.to_owned(), selection);
        }
        proof {
            reveal_strlit("");
            assert(""@ =~= Seq::<char>::empty());
        }
        apply_replace(content, Range { start: prev, end: selection.end }, "")
    } else {
        proof {
            reveal_strlit("");
            assert(""@ =~= Seq::<char>::empty());
        }
        apply_replace(content, selection, "")
    }
}

/// Delete needs no slicing it cannot do: both ends of the selection are
/// boundaries, or it is empty at a point with nothing to erase after it, or
/// at a boundary.
pub open spec fn delete_ok(content: Seq<char>, sel: Range<usize>) -> bool {
    ||| is_boundary(content, sel.start as int) && is_boundary(content, sel.end as int)
    ||| !(sel.start < sel.end) && (next_boundary_spec(content, sel.end as int) == sel.end
        || is_boundary(content, sel.start as int))
}

/// What delete does: from an empty selection (`start >= end`), erases the
/// grapheme cluster after it, if any; else erases the selection.
pub open spec fn delete_spec(content: Seq<char>, sel: Range<usize>) -> (Seq<char>, int, int) {
    if !(sel.start < sel.end) {
        let next = next_boundary_spec(content, sel.end as int);
        if next == sel.end {
            (content, sel.start as int, sel.end as int)
        } else {
            (replaced(content, sel.start as int, next, Seq::empty()), sel.start as int, sel.start as int)
        }
    } else {
        (replaced(content, sel.start as int, sel.end as int, Seq::empty()), sel.start as int, sel.start as int)
    }
}

/// The edit delete makes on `content` with `selection`: the new text and
/// the new (empty) selection.
pub fn apply_delete(content: &str, selection: Range<usize>) -> (r: (String, Range<usize>))
    requires
        delete_ok(content@, selection),
    ensures
        (r.0@, r.1.start as int, r.1.end as int) == delete_spec(content@, selection),
{
    if !(selection.start < selection.end) {
        let next = next_grapheme_boundary(content, selection.end);
        if next == selection.end {
            return (content.to_owned(), selection);
        }
        proof {
            reveal_strlit("");
            assert(""@ =~= Seq::<char>::empty());
        }
        apply_replace(content, Range { start: selection.start, end: next }, "")
    } else {
        proof {
            reveal_strlit("");
            assert(""@ =~= Seq::<char>::empty());
        }
        apply_replace(content, selection, "")
    }
}


/// The number of UTF-16 code units `c` takes.
pub open spec fn utf16_width(c: char) -> nat {
    if (c as u32) < 0x10000 {
        1
    } else {
        2
    }
}

/// The byte offset reached by walking `s` until `u16` code units, counted
/// from `at16` (the byte offset so far being `at8`), reach `offset`.
pub open spec fn from_utf16_spec(s: Seq<char>, offset: int, at16: int, at8: int) -> int
    decreases s.len(),
{
    if s.len() == 0 || at16 >= offset {
        at8
    } else {
        from_utf16_spec(
            s.drop_first(),
            offset,
            at16 + utf16_width(s[0]),
            at8 + crate::text::char_width(s[0]),
        )
    }
}

/// The UTF-16 offset reached by walking `s` until the byte offset, counted
/// from `at8` (the UTF-16 offset so far being `at16`), reaches `offset`.
pub open spec fn to_utf16_spec(s: Seq<char>, offset: int, at16: int, at8: int) -> int
    decreases s.len(),
{
    if s.len() == 0 || at8 >= offset {
        at16
    } else {
        to_utf16_spec(
            s.drop_first(),
            offset,
            at16 + utf16_width(s[0]),
            at8 + crate::text::char_width(s[0]),
        )
    }
}

fn width16(c: char) -> (w: usize)
    ensures
        w == utf16_width(c),
{
    if (c as u32) < 0x10000 {
        1
    } else {
        2
    }
}

/// The byte offset in `content` of UTF-16 offset `offset` (the first
/// character boundary at or past it; the end if the text is shorter).
pub fn offset_from_utf16_in(content: &str, offset: usize) -> (r: usize)
    ensures
        r == from_utf16_spec(content@, offset as int, 0, 0),
{
    let chars = chars_of(content);
    let total = str_len(content);
    let mut at8: usize = 0;
    let mut at16: usize = 0;
    let mut i: usize = 0;
    assert(content@.skip(0) =~= content@);
    assert(content@.take(0) =~= Seq::<char>::empty());
    while i < chars.len() && at16 < offset
        invariant
            i <= chars.len(),
            chars@ == content@,
            total == byte_len(content@),
            at8 == byte_offset(content@, i as int),
            at16 <= at8,
            from_utf16_spec(content@, offset as int, 0, 0) == from_utf16_spec(
                content@.skip(i as int),
                offset as int,
                at16 as int,
                at8 as int,
            ),
        decreases chars.len() - i,
    {
        proof {
            crate::text::lemma_byte_offset_step(content@, i as int);
            lemma_byte_offset_mono(content@, i + 1, content@.len() as int);
            assert(content@.skip(i as int).drop_first() =~= content@.skip(i + 1));
            assert(content@.skip(i as int)[0] == chars@[i as int]);
        }
        at16 = at16 + width16(chars[i]);
        at8 = at8 + crate::text::width_of(chars[i]);
        i += 1;
    }
    at8
}

/// The UTF-16 offset in `content` of byte offset `offset` (counting whole
/// characters until the byte offset is reached; the end if it is past it).
pub fn offset_to_utf16_in(content: &str, offset: usize) -> (r: usize)
    ensures
        r == to_utf16_spec(content@, offset as int, 0, 0),
{
    let chars = chars_of(content);
    let total = str_len(content);
    let mut at8: usize = 0;
    let mut at16: usize = 0;
    let mut i: usize = 0;
    assert(content@.skip(0) =~= content@);
    assert(content@.take(0) =~= Seq::<char>::empty());
    while i < chars.len() && at8 < offset
        invariant
            i <= chars.len(),
            chars@ == content@,
            total == byte_len(content@),
            at8 == byte_offset(content@, i as int),
            at16 <= at8,
            to_utf16_spec(content@, offset as int, 0, 0) == to_utf16_spec(
                content@.skip(i as int),
                offset as int,
                at16 as int,
                at8 as int,
            ),
        decreases chars.len() - i,
    {
        proof {
            crate::text::lemma_byte_offset_step(content@, i as int);
            lemma_byte_offset_mono(content@, i + 1, content@.len() as int);
            assert(content@.skip(i as int).drop_first() =~= content@.skip(i + 1));
            assert(content@.skip(i as int)[0] == chars@[i as int]);
        }
        at16 = at16 + width16(chars[i]);
        at8 = at8 + crate::text::width_of(chars[i]);
        i += 1;
    }
    at16
}


proof fn lemma_to_utf16_at_least(s: Seq<char>, offset: int, at16: int, at8: int)
    ensures
        to_utf16_spec(s, offset, at16, at8) >= at16,
    decreases s.len(),
{
    if s.len() > 0 && at8 < offset {
        lemma_to_utf16_at_least(s.drop_first(), offset, at16 + utf16_width(s[0]), at8 + crate::text::char_width(s[0]));
    }
}

proof fn lemma_utf16_round_trip(s: Seq<char>, b: int, k: int, at16: int, at8: int)
    requires
        0 <= k <= s.len(),
        b == at8 + byte_len(s.take(k)),
    ensures
        from_utf16_spec(s, to_utf16_spec(s, b, at16, at8), at16, at8) == b,
    decreases s.len(),
{
    if s.len() == 0 {
        assert(s.take(k) =~= Seq::<char>::empty());
    } else if k == 0 {
        assert(s.take(0) =~= Seq::<char>::empty());
    } else {
        let t = s.drop_first();
        assert(s.take(k).drop_first() =~= t.take(k - 1));
        assert(s.take(k)[0] == s[0]);
        let w8 = crate::text::char_width(s[0]);
        assert(w8 > 0);
        lemma_utf16_round_trip(t, b, k - 1, at16 + utf16_width(s[0]), at8 + w8);
        lemma_to_utf16_at_least(t, b, at16 + utf16_width(s[0]), at8 + w8);
    }
}

/// Law: a byte offset at a character boundary survives the trip to UTF-16
/// and back: converting it to a UTF-16 offset and that back to a byte
/// offset gives the same offset.
pub proof fn law_utf16_round_trip(s: Seq<char>, b: int)
    requires
        is_boundary(s, b),
    ensures
        from_utf16_spec(s, to_utf16_spec(s, b, 0, 0), 0, 0) == b,
{
    let k = choose|k: int| 0 <= k <= s.len() && byte_offset(s, k) == b;
    lemma_utf16_round_trip(s, b, k, 0, 0);
}

} // verus!
