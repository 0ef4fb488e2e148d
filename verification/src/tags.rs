//! `#tags` in block text, and the index from tag to the blocks that carry it.

use vstd::prelude::*;
use std::ops::Range;
use crate::forest::{nodes, Node};
use crate::outline::{
    all_blocks, blocks_read, chars_read, lemma_blocks_read_take, parsed, view_block, BlockId, IdSource,
    Outline,
};
use crate::outline_text::parse_rows;
use crate::journal::{display_name, iso_name, render_date, JournalDate, JOURNAL_NAME_FORMAT};
use crate::block_render::{
    all_found_in, found_per_event, found_views, lower_events, lower_spec, markdown_event_lists,
    text_events, view_blk, view_blks, view_inline, view_inlines, Blk, BlockNode,
    ExtensionMatch, Found, Inline, InlineExtension, InlineNode, MdClass, MdEvent, found_in,
    found_view, lemma_view_blks, lemma_view_inlines,
};
use crate::text::{
    byte_len, byte_offset, byte_offsets, char_at_byte, char_index_at, chars_of, is_boundary,
    lemma_byte_offset_mono, lemma_byte_offset_step, regex_captures, regex_captures_of, regex_valid,
    str_len, ascii_lower, ascii_lower_char, to_ascii_lower, str_less, str_lt, chars_of as chars_vec, push_char, string_of,
};

verus! {

broadcast use vstd::seq_lib::group_seq_properties;

/// A `#` at the start of the text or after a separator, then the tag name.
pub const TAG_PATTERN: &'static str = "(?:^|[\\s(,.:;!?\\-])#([A-Za-z0-9_][A-Za-z0-9_\\-/]*)";

/// The kind of extension node a tag becomes.
pub open spec fn tag_kind() -> Seq<char> {
    seq!['t', 'a', 'g']
}

/// Byte `b` of `text` starts a character right after a `#`.
pub open spec fn hash_before(text: Seq<char>, b: int) -> bool {
    &&& is_boundary(text, b)
    &&& char_at_byte(text, b) > 0
    &&& text[char_at_byte(text, b) - 1] == '#'
}

/// The tags among the first captures: from the `#` to the end of the name.
pub open spec fn tag_found(text: Seq<char>, caps: Seq<Seq<Option<(usize, usize)>>>) -> Seq<Found>
    decreases caps.len(),
{
    if caps.len() == 0 {
        Seq::empty()
    } else {
        let rest = tag_found(text, caps.drop_last());
        let c = caps.last();
        if c.len() > 1 && c[1] is Some && hash_before(text, c[1]->Some_0.0 as int) {
            rest.push(
                Found { start: c[1]->Some_0.0 - 1, end: c[1]->Some_0.1 as int, kind: tag_kind() },
            )
        } else {
            rest
        }
    }
}

/// The tags of `text`, as the tag pattern finds them.
pub open spec fn tag_matches(text: Seq<char>) -> Seq<Found> {
    if regex_valid(TAG_PATTERN@) {
        tag_found(text, regex_captures(TAG_PATTERN@, text))
    } else {
        Seq::empty()
    }
}

/// Matches `#tag` spans.
pub struct TagExt;

impl TagExt {
    /// The `#tag` spans of `text`, from the `#` to the end of the name.
    pub fn matches(&self, text: &str) -> (r: Vec<ExtensionMatch>)
        ensures
            r@.map_values(|m: ExtensionMatch| found_view(m)) == tag_matches(text@),
            forall|j: int| 0 <= j < r.len() ==> found_in(text@, #[trigger] found_view(r@[j])),
    {
        let mut r: Vec<ExtensionMatch> = Vec::new();
        let caps = match regex_captures_of(TAG_PATTERN, text) {
            Some(v) => v,
            None => {
                assert(r@.map_values(|m: ExtensionMatch| found_view(m)) =~= Seq::<Found>::empty());
                return r;
            },
        };
        let ghost cv = caps@.map_values(|c: Vec<Option<(usize, usize)>>| c@);
        let chars = chars_of(text);
        let total = str_len(text);
        let offs = byte_offsets(&chars, total);
        let ghost t = text@;
        let mut i: usize = 0;
        assert(r@.map_values(|m: ExtensionMatch| found_view(m)) =~= tag_found(t, cv.take(0)));
        while i < caps.len()
            invariant
                i <= caps.len(),
                cv == caps@.map_values(|c: Vec<Option<(usize, usize)>>| c@),
                cv == regex_captures(TAG_PATTERN@, t),
                regex_valid(TAG_PATTERN@),
                forall|a: int, b: int|
                    0 <= a < caps.len() && 0 <= b < caps@[a].len() && caps@[a]@[b] is Some
                        ==> crate::text::span_in(t, #[trigger] caps@[a]@[b]->Some_0),
                chars@ == t,
                total == byte_len(t),
                offs.len() == chars.len() + 1,
                forall|q: int| 0 <= q <= chars.len() ==> offs@[q] == byte_offset(chars@, q),
                r@.map_values(|m: ExtensionMatch| found_view(m)) == tag_found(t, cv.take(i as int)),
                forall|j: int| 0 <= j < r.len() ==> found_in(t, #[trigger] found_view(r@[j])),
            decreases caps.len() - i,
        {
            let ghost before = r@;
            let c = &caps[i];
            assert(cv.take(i + 1).drop_last() =~= cv.take(i as int));
            assert(cv.take(i + 1).last() == c@);
            if c.len() > 1 {
                if let Some((s, e)) = c[1] {
                    assert(crate::text::span_in(t, caps@[i as int]@[1]->Some_0));
                    match char_index_at(Ghost(t), &offs, s) {
                        Some(k) => {
                            if k > 0 && chars[k - 1] == '#' {
                                proof {
                                    lemma_byte_offset_step(t, k - 1);
                                    crate::text::lemma_char_at_byte(t, s as int, k as int);
                                    lemma_byte_offset_mono(t, k - 1, t.len() as int);
                                }
                                let kind = "tag".to_owned();
                                proof {
                                    reveal_strlit("tag");
                                    assert(kind@ =~= tag_kind());
                                }
                                let m = ExtensionMatch { range: Range { start: s - 1, end: e }, kind };
                                r.push(m);
                                proof {
                                    assert(is_boundary(t, s - 1)) by {
                                        assert(byte_offset(t, k - 1) == s - 1);
                                    }
                                    assert(r@.map_values(|m: ExtensionMatch| found_view(m)) =~= before.map_values(
                                        |m: ExtensionMatch| found_view(m),
                                    ).push(found_view(m)));
                                }
                            } else {
                                proof {
                                    crate::text::lemma_char_at_byte(t, s as int, k as int);
                                }
                            }
                        },
                        None => {},
                    }
                }
            }
            i += 1;
        }
        assert(cv.take(caps.len() as int) =~= cv);
        r
    }
}

impl InlineExtension for TagExt {
    open spec fn matched(&self, text: Seq<char>) -> Seq<Found> {
        tag_matches(text)
    }

    fn extract(&self, text: &str) -> (r: Vec<ExtensionMatch>)
        ensures
            r@.map_values(|m: ExtensionMatch| found_view(m)) == tag_matches(text@),
    {
        self.matches(text)
    }
}


/// `s` without its leading `#` characters.
pub open spec fn trim_hashes(s: Seq<char>) -> Seq<char>
    decreases s.len(),
{
    if s.len() > 0 && s[0] == '#' {
        trim_hashes(s.drop_first())
    } else {
        s
    }
}

/// `s` without its leading `#` characters (as `trim_start_matches('#')`).
pub fn trim_leading_hashes(s: &str) -> (r: String)
    ensures
        r@ == trim_hashes(s@),
{
    let v = chars_vec(s);
    let mut i: usize = 0;
    while i < v.len() && v[i] == '#'
        invariant
            i <= v.len(),
            v@ == s@,
            trim_hashes(s@) == trim_hashes(s@.skip(i as int)),
        decreases v.len() - i,
    {
        assert(s@.skip(i as int).drop_first() =~= s@.skip(i + 1));
        i += 1;
    }
    assert(s@.skip(i as int) =~= v@.subrange(i as int, v.len() as int));
    string_of(&v, i, v.len())
}

/// The index key of a tag: without its leading `#`, ASCII letters in lower
/// case.
pub open spec fn tag_key_spec(tag: Seq<char>) -> Seq<char> {
    ascii_lower(trim_hashes(tag))
}

/// The index key of a tag: without its leading `#`, ASCII letters in lower
/// case.
pub fn tag_key(tag: &str) -> (r: String)
    ensures
        r@ == tag_key_spec(tag@),
{
    let t = trim_leading_hashes(tag);
    to_ascii_lower(t.as_str())
}

/// At most the first 80 characters of `preview`, with `...` when some were
/// cut.
pub open spec fn truncated_spec(preview: Seq<char>) -> Seq<char> {
    if preview.len() > 80 {
        preview.take(80) + seq!['.', '.', '.']
    } else {
        preview
    }
}

/// At most the first 80 characters of `preview`, with `...` when some were
/// cut.
pub fn truncated_preview(preview: &str) -> (r: String)
    ensures
        r@ == truncated_spec(preview@),
{
    let v = chars_vec(preview);
    if v.len() > 80 {
        let mut out = string_of(&v, 0, 80);
        push_char(&mut out, '.');
        push_char(&mut out, '.');
        push_char(&mut out, '.');
        assert(out@ =~= preview@.take(80) + seq!['.', '.', '.']);
        out
    } else {
        assert(v@.subrange(0, v.len() as int) =~= preview@);
        string_of(&v, 0, v.len())
    }
}

// ---------------------------------------------------------------------------
// Tags of a block's text.

/// The tags (without `#`) of an inline node, in order.
pub open spec fn tags_of_inline(n: Inline) -> Seq<Seq<char>>
    decreases n,
{
    match n {
        Inline::Ext(kind, source, _) => if kind == tag_kind() {
            seq![trim_hashes(source)]
        } else {
            Seq::empty()
        },
        Inline::Link(_, children) => tags_of_inlines(children),
        _ => Seq::empty(),
    }
}

pub open spec fn tags_of_inlines(s: Seq<Inline>) -> Seq<Seq<char>>
    decreases s,
{
    if s.len() == 0 {
        Seq::empty()
    } else {
        tags_of_inline(s[0]) + tags_of_inlines(s.subrange(1, s.len() as int))
    }
}

/// The tags (without `#`) of a block node, in order; code has none.
pub open spec fn tags_of_blk(b: Blk) -> Seq<Seq<char>>
    decreases b,
{
    match b {
        Blk::Paragraph(c) => tags_of_inlines(c),
        Blk::Heading(_, c) => tags_of_inlines(c),
        Blk::Quote(c) => tags_of_blks(c),
        Blk::CodeBlock(_, _) => Seq::empty(),
    }
}

pub open spec fn tags_of_blks(s: Seq<Blk>) -> Seq<Seq<char>>
    decreases s,
{
    if s.len() == 0 {
        Seq::empty()
    } else {
        tags_of_blk(s[0]) + tags_of_blks(s.subrange(1, s.len() as int))
    }
}

/// `s` holds an entry with key `k`.
pub open spec fn has_key(s: Seq<(Seq<char>, Seq<char>)>, k: Seq<char>) -> bool {
    exists|i: int| 0 <= i < s.len() && (#[trigger] s[i]).0 == k
}

/// `acc` with display `d` added under its key, unless the key is there.
pub open spec fn add_display(acc: Seq<(Seq<char>, Seq<char>)>, d: Seq<char>) -> Seq<(Seq<char>, Seq<char>)> {
    if has_key(acc, ascii_lower(d)) {
        acc
    } else {
        acc.push((ascii_lower(d), d))
    }
}

/// `acc` with each of `ds` added in turn.
pub open spec fn add_displays(acc: Seq<(Seq<char>, Seq<char>)>, ds: Seq<Seq<char>>) -> Seq<(Seq<char>, Seq<char>)>
    decreases ds.len(),
{
    if ds.len() == 0 {
        acc
    } else {
        add_display(add_displays(acc, ds.drop_last()), ds.last())
    }
}

/// One entry per distinct key, each with the first display that has it, in
/// the order the keys first appear.
pub open spec fn first_by_key(ds: Seq<Seq<char>>) -> Seq<(Seq<char>, Seq<char>)> {
    add_displays(Seq::empty(), ds)
}

proof fn lemma_add_displays_concat(acc: Seq<(Seq<char>, Seq<char>)>, a: Seq<Seq<char>>, b: Seq<Seq<char>>)
    ensures
        add_displays(acc, a + b) == add_displays(add_displays(acc, a), b),
    decreases b.len(),
{
    if b.len() == 0 {
        assert(a + b =~= a);
    } else {
        assert((a + b).drop_last() =~= a + b.drop_last());
        lemma_add_displays_concat(acc, a, b.drop_last());
    }
}

proof fn lemma_tags_of_inlines_concat(a: Seq<Inline>, b: Seq<Inline>)
    ensures
        tags_of_inlines(a + b) == tags_of_inlines(a) + tags_of_inlines(b),
    decreases a.len(),
{
    if a.len() == 0 {
        assert(a + b =~= b);
    } else {
        assert((a + b).subrange(1, (a + b).len() as int) =~= a.subrange(1, a.len() as int) + b);
        lemma_tags_of_inlines_concat(a.subrange(1, a.len() as int), b);
    }
}

proof fn lemma_tags_of_blks_concat(a: Seq<Blk>, b: Seq<Blk>)
    ensures
        tags_of_blks(a + b) == tags_of_blks(a) + tags_of_blks(b),
    decreases a.len(),
{
    if a.len() == 0 {
        assert(a + b =~= b);
    } else {
        assert((a + b).subrange(1, (a + b).len() as int) =~= a.subrange(1, a.len() as int) + b);
        lemma_tags_of_blks_concat(a.subrange(1, a.len() as int), b);
    }
}

proof fn lemma_tags_of_inlines_one(n: Inline)
    ensures
        tags_of_inlines(seq![n]) == tags_of_inline(n),
{
    let s = seq![n];
    assert(s[0] == n);
    assert(s.subrange(1, 1) =~= Seq::<Inline>::empty());
    assert(tags_of_inlines(s.subrange(1, 1)) == Seq::<Seq<char>>::empty());
    assert(tags_of_inlines(s) == tags_of_inline(n) + tags_of_inlines(s.subrange(1, 1)));
    assert(tags_of_inline(n) + Seq::<Seq<char>>::empty() =~= tags_of_inline(n));
}

proof fn lemma_tags_of_blks_one(b: Blk)
    ensures
        tags_of_blks(seq![b]) == tags_of_blk(b),
{
    let s = seq![b];
    assert(s[0] == b);
    assert(s.subrange(1, 1) =~= Seq::<Blk>::empty());
    assert(tags_of_blks(s.subrange(1, 1)) == Seq::<Seq<char>>::empty());
    assert(tags_of_blks(s) == tags_of_blk(b) + tags_of_blks(s.subrange(1, 1)));
    assert(tags_of_blk(b) + Seq::<Seq<char>>::empty() =~= tags_of_blk(b));
}

/// The events' matches of the tag extension: one list per text event.
pub open spec fn tag_found_per_event(events: Seq<MdEvent>) -> Seq<Seq<Seq<Found>>> {
    Seq::new(
        events.len(),
        |i: int|
            if events[i].class == MdClass::Text {
                seq![tag_matches(events[i].payload)]
            } else {
                Seq::empty()
            },
    )
}

/// The tags of a markdown text, keyed by their lower-case form, each with
/// its first spelling.
pub open spec fn tags_in_text_spec(text: Seq<char>) -> Seq<(Seq<char>, Seq<char>)> {
    let events = text_events(text);
    first_by_key(tags_of_blks(lower_spec(events, tag_found_per_event(events))))
}

pub open spec fn pairs_view(v: Seq<(String, String)>) -> Seq<(Seq<char>, Seq<char>)> {
    v.map_values(|p: (String, String)| (p.0@, p.1@))
}

/// Adds `display` under its key, unless the key is already there.
fn add_tag(out: &mut Vec<(String, String)>, display: String)
    ensures
        pairs_view(final(out)@) == (if has_key(pairs_view(old(out)@), ascii_lower(display@)) {
            pairs_view(old(out)@)
        } else {
            pairs_view(old(out)@).push((ascii_lower(display@), display@))
        }),
{
    let key = to_ascii_lower(display.as_str());
    let ghost pv = pairs_view(out@);
    let mut i: usize = 0;
    while i < out.len()
        invariant
            i <= out.len(),
            pv == pairs_view(out@),
            key@ == ascii_lower(display@),
            forall|j: int| 0 <= j < i ==> (#[trigger] pv[j]).0 != key@,
        decreases out.len() - i,
    {
        if out[i].0 == key {
            assert(pv[i as int].0 == key@);
            return;
        }
        i += 1;
    }
    assert(!has_key(pv, key@));
    out.push((key, display));
    assert(pairs_view(out@) =~= pv.push((ascii_lower(display@), display@)));
}


fn collect_tags_from_inlines(nodes: &Vec<InlineNode>, out: &mut Vec<(String, String)>)
    ensures
        pairs_view(final(out)@) == add_displays(pairs_view(old(out)@), tags_of_inlines(view_inlines(nodes@))),
    decreases nodes@,
{
    let ghost start = pairs_view(out@);
    let tag = "tag".to_owned();
    proof {
        reveal_strlit("tag");
        assert(tag@ =~= tag_kind());
        assert(nodes@.take(0) =~= Seq::<InlineNode>::empty());
        assert(view_inlines(Seq::<InlineNode>::empty()) =~= Seq::<Inline>::empty());
    }
    let mut i: usize = 0;
    while i < nodes.len()
        invariant
            i <= nodes.len(),
            tag@ == tag_kind(),
            pairs_view(out@) == add_displays(start, tags_of_inlines(view_inlines(nodes@.take(i as int)))),
        decreases nodes.len() - i,
    {
        let ghost seen = tags_of_inlines(view_inlines(nodes@.take(i as int)));
        let ghost x = view_inline(nodes@[i as int]);
        let ghost mid = pairs_view(out@);
        proof {
            let a = view_inlines(nodes@.take(i as int));
            assert(nodes@.take(i + 1) =~= nodes@.take(i as int).push(nodes@[i as int]));
            crate::block_render::lemma_view_inlines_push(nodes@.take(i as int), nodes@[i as int]);
            assert(a.push(x) =~= a + seq![x]);
            lemma_tags_of_inlines_concat(a, seq![x]);
            lemma_tags_of_inlines_one(x);
            assert(tags_of_inlines(view_inlines(nodes@.take(i + 1))) == seen + tags_of_inline(x));
            lemma_add_displays_concat(start, seen, tags_of_inline(x));
        }
        match &nodes[i] {
            InlineNode::Extension(e) => {
                if e.kind == tag {
                    let display = trim_leading_hashes(e.source.as_str());
                    let ghost before = pairs_view(out@);
                    add_tag(out, display);
                    proof {
                        assert(tags_of_inline(view_inline(nodes@[i as int])) == seq![trim_hashes(e.source@)]);
                        let one = seq![trim_hashes(e.source@)];
                        assert(one.drop_last() =~= Seq::<Seq<char>>::empty());
                        assert(add_displays(before, one) == add_display(before, display@));
                    }
                } else {
                    assert(tags_of_inline(view_inline(nodes@[i as int])) =~= Seq::<Seq<char>>::empty());
                }
            },
            InlineNode::Link { url: _, children } => {
                collect_tags_from_inlines(children, out);
            },
            _ => {
                assert(tags_of_inline(view_inline(nodes@[i as int])) =~= Seq::<Seq<char>>::empty());
            },
        }
        assert(pairs_view(out@) == add_displays(mid, tags_of_inline(x)));
        i += 1;
    }
    assert(nodes@.take(nodes.len() as int) =~= nodes@);
}

fn collect_tags_from_blocks(blocks: &Vec<BlockNode>, out: &mut Vec<(String, String)>)
    ensures
        pairs_view(final(out)@) == add_displays(pairs_view(old(out)@), tags_of_blks(view_blks(blocks@))),
    decreases blocks@,
{
    let ghost start = pairs_view(out@);
    proof {
        assert(blocks@.take(0) =~= Seq::<BlockNode>::empty());
        assert(view_blks(Seq::<BlockNode>::empty()) =~= Seq::<Blk>::empty());
    }
    let mut i: usize = 0;
    while i < blocks.len()
        invariant
            i <= blocks.len(),
            pairs_view(out@) == add_displays(start, tags_of_blks(view_blks(blocks@.take(i as int)))),
        decreases blocks.len() - i,
    {
        let ghost seen = tags_of_blks(view_blks(blocks@.take(i as int)));
        let ghost x = view_blk(blocks@[i as int]);
        let ghost mid = pairs_view(out@);
        proof {
            let a = view_blks(blocks@.take(i as int));
            assert(blocks@.take(i + 1) =~= blocks@.take(i as int).push(blocks@[i as int]));
            crate::block_render::lemma_view_blks_push(blocks@.take(i as int), blocks@[i as int]);
            assert(a.push(x) =~= a + seq![x]);
            lemma_tags_of_blks_concat(a, seq![x]);
            lemma_tags_of_blks_one(x);
            assert(tags_of_blks(view_blks(blocks@.take(i + 1))) == seen + tags_of_blk(x));
            lemma_add_displays_concat(start, seen, tags_of_blk(x));
        }
        match &blocks[i] {
            BlockNode::Paragraph(children) => collect_tags_from_inlines(children, out),
            BlockNode::Heading { level: _, children } => collect_tags_from_inlines(children, out),
            BlockNode::Quote(children) => collect_tags_from_blocks(children, out),
            BlockNode::CodeBlock { .. } => {
                assert(tags_of_blk(view_blk(blocks@[i as int])) =~= Seq::<Seq<char>>::empty());
            },
        }
        assert(pairs_view(out@) == add_displays(mid, tags_of_blk(x)));
        i += 1;
    }
    assert(blocks@.take(blocks.len() as int) =~= blocks@);
}

/// The tags of a block's markdown text: one entry per distinct key (the tag
/// without `#`, ASCII letters in lower case), with the first spelling that
/// has it, in the order the keys first appear. Tags in code are not tags.
pub fn tags_in_text(text: &str) -> (r: Vec<(String, String)>)
    ensures
        pairs_view(r@) == tags_in_text_spec(text@),
{
    let (classes, tags, payloads) = markdown_event_lists(text);
    let ghost events = text_events(text@);
    let mut found: Vec<Vec<Vec<ExtensionMatch>>> = Vec::new();
    let mut i: usize = 0;
    while i < classes.len()
        invariant
            i <= classes.len(),
            tags.len() == classes.len(),
            payloads.len() == classes.len(),
            events == crate::block_render::events_of(classes@, tags@, payloads@),
            found.len() == i,
            forall|j: int| 0 <= j < i ==> found_per_event(found@)[j] == #[trigger] tag_found_per_event(events)[j],
            forall|j: int|
                0 <= j < i && classes@[j] == MdClass::Text ==> all_found_in(
                    payloads@[j]@,
                    #[trigger] found_views(found@[j]@),
                ),
        decreases classes.len() - i,
    {
        let ghost f0 = found@;
        if classes[i] == MdClass::Text {
            let m = TagExt.matches(payloads[i].as_str());
            let here = vec![m];
            proof {
                assert(found_views(here@) =~= seq![tag_matches(payloads@[i as int]@)]);
                assert(all_found_in(payloads@[i as int]@, found_views(here@))) by {
                    assert forall|a: int, b: int|
                        0 <= a < found_views(here@).len() && 0 <= b < found_views(here@)[a].len()
                        implies found_in(payloads@[i as int]@, #[trigger] found_views(here@)[a][b]) by {
                        assert(found_views(here@)[a][b] == found_view(m@[b]));
                    }
                }
            }
            found.push(here);
        } else {
            let here: Vec<Vec<ExtensionMatch>> = Vec::new();
            assert(found_views(here@) =~= Seq::<Seq<Found>>::empty());
            found.push(here);
        }
        proof {
            assert forall|j: int| 0 <= j < i + 1 implies found_per_event(found@)[j] == #[trigger] tag_found_per_event(events)[j] by {
                if j < i {
                    assert(found@[j] == f0[j]);
                    assert(found_per_event(f0)[j] == tag_found_per_event(events)[j]);
                }
            }
        }
        i += 1;
    }
    proof {
        assert(found_per_event(found@) =~= tag_found_per_event(events));
    }
    let blocks = lower_events(&classes, &tags, &payloads, &found);
    let mut out: Vec<(String, String)> = Vec::new();
    proof {
        assert(pairs_view(out@) =~= Seq::<(Seq<char>, Seq<char>)>::empty());
    }
    collect_tags_from_blocks(&blocks, &mut out);
    out
}


// ---------------------------------------------------------------------------
// Where a tag was found.

/// A page, by name, or a journal, by date. A page literally named like a
/// date is not that date's journal.
#[derive(Clone, Debug, PartialEq, Eq, PartialOrd, Ord, Hash)]
pub enum TagSource {
    Page(String),
    Journal(JournalDate),
}

/// The model of a source.
pub enum SourceView {
    Page(Seq<char>),
    Journal(JournalDate),
}

pub open spec fn source_view(s: TagSource) -> SourceView {
    match s {
        TagSource::Page(n) => SourceView::Page(n@),
        TagSource::Journal(d) => SourceView::Journal(d),
    }
}

/// Whether two sources are the same page.
pub fn same_source(a: &TagSource, b: &TagSource) -> (r: bool)
    ensures
        r == (source_view(*a) == source_view(*b)),
{
    match a {
        TagSource::Page(x) => match b {
            TagSource::Page(y) => {
                let r = *x == *y;
                assert(r == (x@ == y@));
                r
            },
            TagSource::Journal(_) => false,
        },
        TagSource::Journal(x) => match b {
            TagSource::Journal(y) => {
                let r = x.year() == y.year() && x.month() == y.month() && x.day() == y.day();
                proof {
                    if r {
                        crate::journal::lemma_date_ext(*x, *y);
                    }
                }
                r
            },
            TagSource::Page(_) => false,
        },
    }
}

/// A copy of a source.
pub fn copy_source(s: &TagSource) -> (r: TagSource)
    ensures
        source_view(r) == source_view(*s),
{
    match s {
        TagSource::Page(n) => TagSource::Page(n.clone()),
        TagSource::Journal(d) => TagSource::Journal(*d),
    }
}

/// How a source is labelled: a page by its name, a journal by its
/// `YYYY-MM-DD` date.
pub fn source_label(source: &TagSource) -> (r: String)
    ensures
        source matches TagSource::Page(n) ==> r@ == n@,
        source matches TagSource::Journal(d) ==> (iso_name(*d) matches Some(t) ==> r@ == t),
        source matches TagSource::Journal(d) ==> (0 <= d.y() <= 9999 ==> r@ == render_date(
            JOURNAL_NAME_FORMAT@,
            d.y() as nat,
            d.m() as nat,
            d.d() as nat,
        )),
{
    match source {
        TagSource::Page(name) => name.clone(),
        TagSource::Journal(date) => display_name(date),
    }
}


// ---------------------------------------------------------------------------
// The tag index.

/// A block that carries a tag.
#[derive(Debug, PartialEq, Eq)]
pub struct TagHit {
    pub source: TagSource,
    pub block_id: BlockId,
    /// The block's text.
    pub preview: String,
}

/// A tag and how many blocks carry it.
#[derive(Debug, PartialEq, Eq)]
pub struct TagSummary {
    /// The tag as first written (without `#`).
    pub display: String,
    pub count: usize,
}

/// The model of an indexed hit: where it is, the block's text, and the
/// tag's spelling there.
pub struct HitView {
    pub source: SourceView,
    pub block: u64,
    pub preview: Seq<char>,
    pub display: Seq<char>,
}

/// The model of a tag's entry: its key and its hits, oldest first.
pub struct EntryView {
    pub key: Seq<char>,
    pub hits: Seq<HitView>,
}

struct IndexedHit {
    hit: TagHit,
    display: String,
}

struct TagEntry {
    key: String,
    hits: Vec<IndexedHit>,
}

spec fn hit_view(h: IndexedHit) -> HitView {
    HitView {
        source: source_view(h.hit.source),
        block: h.hit.block_id.0,
        preview: h.hit.preview@,
        display: h.display@,
    }
}

spec fn entry_view(e: TagEntry) -> EntryView {
    EntryView { key: e.key@, hits: e.hits@.map_values(|h: IndexedHit| hit_view(h)) }
}

/// Tag to blocks: for each tag key, the blocks that carry it, oldest hit
/// first. The keys are text, and vstd's specifications of `HashMap` and
/// `BTreeMap` let Verus prove next to nothing about a lookup by a `String`
/// key; so the entries are a vector, each key at most once (see `wf`), and
/// every contract is stated over that model.
pub struct TagIndex {
    entries: Vec<TagEntry>,
}

impl View for TagIndex {
    type V = Seq<EntryView>;

    closed spec fn view(&self) -> Seq<EntryView> {
        self.entries@.map_values(|e: TagEntry| entry_view(e))
    }
}

/// Each key has one entry, and no entry is empty.
pub open spec fn index_wf(es: Seq<EntryView>) -> bool {
    &&& forall|i: int, j: int| 0 <= i < j < es.len() ==> (#[trigger] es[i]).key != (#[trigger] es[j]).key
    &&& forall|i: int| 0 <= i < es.len() ==> (#[trigger] es[i]).hits.len() > 0
}

/// The entry with key `k`.
pub open spec fn find_key(es: Seq<EntryView>, k: Seq<char>) -> Option<int>
    decreases es.len(),
{
    if es.len() == 0 {
        None
    } else if es.last().key == k {
        Some(es.len() - 1)
    } else {
        find_key(es.drop_last(), k)
    }
}

/// The hits that are not from `src`.
pub open spec fn hits_not_from(hs: Seq<HitView>, src: SourceView) -> Seq<HitView>
    decreases hs.len(),
{
    if hs.len() == 0 {
        Seq::empty()
    } else {
        let r = hits_not_from(hs.drop_last(), src);
        if hs.last().source == src {
            r
        } else {
            r.push(hs.last())
        }
    }
}

/// The index without the hits from `src`; entries left empty go.
pub open spec fn remove_source_spec(es: Seq<EntryView>, src: SourceView) -> Seq<EntryView>
    decreases es.len(),
{
    if es.len() == 0 {
        Seq::empty()
    } else {
        let r = remove_source_spec(es.drop_last(), src);
        let h = hits_not_from(es.last().hits, src);
        if h.len() > 0 {
            r.push(EntryView { key: es.last().key, hits: h })
        } else {
            r
        }
    }
}

/// `hs` has a hit from block `block` of `src`.
pub open spec fn has_hit(hs: Seq<HitView>, src: SourceView, block: u64) -> bool {
    exists|j: int| 0 <= j < hs.len() && (#[trigger] hs[j]).source == src && hs[j].block == block
}

/// The index with `hit` added under `key`, unless that block of that
/// source is already there.
pub open spec fn add_hit_spec(es: Seq<EntryView>, key: Seq<char>, hit: HitView) -> Seq<EntryView> {
    match find_key(es, key) {
        Some(i) => if has_hit(es[i].hits, hit.source, hit.block) {
            es
        } else {
            es.update(i, EntryView { key, hits: es[i].hits.push(hit) })
        },
        None => es.push(EntryView { key, hits: seq![hit] }),
    }
}

/// The index with the first `n` tags of a block (key and spelling) added.
pub open spec fn add_tags_spec(
    es: Seq<EntryView>,
    src: SourceView,
    block: Node,
    tags: Seq<(Seq<char>, Seq<char>)>,
    n: int,
) -> Seq<EntryView>
    decreases n,
{
    if n <= 0 {
        es
    } else {
        add_hit_spec(
            add_tags_spec(es, src, block, tags, n - 1),
            tags[n - 1].0,
            HitView { source: src, block: block.id, preview: block.text, display: tags[n - 1].1 },
        )
    }
}

/// The index with the tags of the first `n` blocks added.
pub open spec fn add_blocks_spec(es: Seq<EntryView>, src: SourceView, blocks: Seq<Node>, n: int) -> Seq<EntryView>
    decreases n,
{
    if n <= 0 {
        es
    } else {
        let prev = add_blocks_spec(es, src, blocks, n - 1);
        let tags = tags_in_text_spec(blocks[n - 1].text);
        add_tags_spec(prev, src, blocks[n - 1], tags, tags.len() as int)
    }
}

/// Re-indexing a page: its old hits go, then each of its blocks, in order,
/// adds a hit for each of its tags.
pub open spec fn reindex_spec(es: Seq<EntryView>, src: SourceView, outline: Seq<Node>) -> Seq<EntryView> {
    let bs = nodes(outline);
    add_blocks_spec(remove_source_spec(es, src), src, bs, bs.len() as int)
}

/// Reading source `i` after the ones before it: the sources so far grow by
/// it, and so do the ids and characters they take.
pub proof fn lemma_source_step<K>(all: Seq<(K, Seq<char>)>, i: int)
    requires
        0 <= i < all.len(),
    ensures
        all.take(i + 1).drop_last() == all.take(i),
        all.take(i + 1).last() == all[i],
        blocks_read(all.take(i + 1)) == blocks_read(all.take(i)) + parse_rows(all[i].1).len(),
        blocks_read(all.take(i)) + all[i].1.len() <= chars_read(all),
{
    assert(all.take(i + 1).drop_last() =~= all.take(i));
    lemma_blocks_read_take(all, i);
    lemma_blocks_read_take(all, i + 1);
}

/// Pages `(name, body)` and then journals `(date, body)`, as sources with
/// their bodies.
pub open spec fn sources_of(
    pages: Seq<(Seq<char>, Seq<char>)>,
    journals: Seq<(JournalDate, Seq<char>)>,
) -> Seq<(SourceView, Seq<char>)> {
    pages.map_values(|p: (Seq<char>, Seq<char>)| (SourceView::Page(p.0), p.1)) + journals.map_values(
        |j: (JournalDate, Seq<char>)| (SourceView::Journal(j.0), j.1),
    )
}

/// The index built from sources `(source, body)`, each re-indexed in turn
/// from the outline its body reads as, the blocks taking ids on from
/// `first`.
pub open spec fn rebuild_tag_sources(srcs: Seq<(SourceView, Seq<char>)>, first: int) -> Seq<EntryView>
    decreases srcs.len(),
{
    if srcs.len() == 0 {
        Seq::empty()
    } else {
        reindex_spec(
            rebuild_tag_sources(srcs.drop_last(), first),
            srcs.last().0,
            parsed(srcs.last().1, first + blocks_read(srcs.drop_last())),
        )
    }
}

/// The index built from pages and then journals, the blocks taking ids on
/// from `first`.
pub open spec fn rebuild_tags_spec(
    pages: Seq<(Seq<char>, Seq<char>)>,
    journals: Seq<(JournalDate, Seq<char>)>,
    first: int,
) -> Seq<EntryView> {
    rebuild_tag_sources(sources_of(pages, journals), first)
}

/// The blocks that carry `tag`, oldest hit first: source, block and text.
pub open spec fn blocks_for_tag_spec(es: Seq<EntryView>, tag: Seq<char>) -> Seq<(SourceView, u64, Seq<char>)> {
    match find_key(es, tag_key_spec(tag)) {
        Some(i) => es[i].hits.map_values(|h: HitView| (h.source, h.block, h.preview)),
        None => Seq::empty(),
    }
}

proof fn lemma_hits_not_from_none(hs: Seq<HitView>, src: SourceView)
    requires
        forall|j: int| 0 <= j < hs.len() ==> (#[trigger] hs[j]).source != src,
    ensures
        hits_not_from(hs, src) == hs,
    decreases hs.len(),
{
    if hs.len() > 0 {
        lemma_hits_not_from_none(hs.drop_last(), src);
        assert(hs.drop_last().push(hs.last()) =~= hs);
    }
}

proof fn lemma_hits_not_from_clean(hs: Seq<HitView>, src: SourceView)
    ensures
        forall|j: int| 0 <= j < hits_not_from(hs, src).len() ==> (#[trigger] hits_not_from(hs, src)[j]).source != src,
    decreases hs.len(),
{
    if hs.len() > 0 {
        lemma_hits_not_from_clean(hs.drop_last(), src);
    }
}

/// Removing the hits of a source that has none changes nothing, when no
/// entry is empty.
proof fn lemma_remove_absent(es: Seq<EntryView>, src: SourceView)
    requires
        forall|i: int| 0 <= i < es.len() ==> (#[trigger] es[i]).hits.len() > 0,
        forall|i: int, j: int|
            0 <= i < es.len() && 0 <= j < es[i].hits.len() ==> (#[trigger] es[i].hits[j]).source != src,
    ensures
        remove_source_spec(es, src) == es,
    decreases es.len(),
{
    if es.len() > 0 {
        let l = es.last();
        assert(l == es[es.len() - 1]);
        assert forall|j: int| 0 <= j < l.hits.len() implies (#[trigger] l.hits[j]).source != src by {
            assert(es[es.len() - 1].hits[j] == l.hits[j]);
        }
        lemma_hits_not_from_none(l.hits, src);
        assert forall|i: int| 0 <= i < es.drop_last().len() implies (#[trigger] es.drop_last()[i]).hits.len() > 0 by {
            assert(es.drop_last()[i] == es[i]);
        }
        assert forall|i: int, j: int|
            0 <= i < es.drop_last().len() && 0 <= j < es.drop_last()[i].hits.len() implies (
            #[trigger] es.drop_last()[i].hits[j]).source != src by {
            assert(es.drop_last()[i] == es[i]);
        }
        lemma_remove_absent(es.drop_last(), src);
        assert(EntryView { key: l.key, hits: l.hits } == l);
        assert(es.drop_last().push(l) =~= es);
    }
}

/// What removing a source leaves has no hit from it and no empty entry.
proof fn lemma_remove_clean(es: Seq<EntryView>, src: SourceView)
    ensures
        forall|i: int| 0 <= i < remove_source_spec(es, src).len() ==> (#[trigger] remove_source_spec(es, src)[i]).hits.len() > 0,
        forall|i: int, j: int|
            0 <= i < remove_source_spec(es, src).len() && 0 <= j < remove_source_spec(es, src)[i].hits.len()
                ==> (#[trigger] remove_source_spec(es, src)[i].hits[j]).source != src,
    decreases es.len(),
{
    if es.len() > 0 {
        lemma_remove_clean(es.drop_last(), src);
        lemma_hits_not_from_clean(es.last().hits, src);
    }
}

/// Changing an entry's hits only by hits of `src` does not change what
/// removing `src` leaves.
proof fn lemma_remove_update(es: Seq<EntryView>, src: SourceView, i: int, e: EntryView)
    requires
        0 <= i < es.len(),
        e.key == es[i].key,
        hits_not_from(e.hits, src) == hits_not_from(es[i].hits, src),
    ensures
        remove_source_spec(es.update(i, e), src) == remove_source_spec(es, src),
    decreases es.len(),
{
    let u = es.update(i, e);
    if i == es.len() - 1 {
        assert(u.drop_last() =~= es.drop_last());
    } else {
        lemma_remove_update(es.drop_last(), src, i, e);
        assert(u.drop_last() =~= es.drop_last().update(i, e));
        assert(u.last() == es.last());
    }
}

/// Adding a hit of `src` does not change what removing `src` leaves.
proof fn lemma_remove_add_hit(es: Seq<EntryView>, key: Seq<char>, hit: HitView, src: SourceView)
    requires
        hit.source == src,
    ensures
        remove_source_spec(add_hit_spec(es, key, hit), src) == remove_source_spec(es, src),
{
    lemma_find_key(es, key);
    match find_key(es, key) {
        Some(i) => {
            if !has_hit(es[i].hits, hit.source, hit.block) {
                let hs = es[i].hits;
                assert(hs.push(hit).drop_last() =~= hs);
                assert(hits_not_from(hs.push(hit), src) == hits_not_from(hs, src));
                lemma_remove_update(es, src, i, EntryView { key, hits: hs.push(hit) });
                assert(add_hit_spec(es, key, hit) == es.update(i, EntryView { key, hits: hs.push(hit) }));
            }
        },
        None => {
            let n = es.push(EntryView { key, hits: seq![hit] });
            assert(n.drop_last() =~= es);
            assert(seq![hit].drop_last() =~= Seq::<HitView>::empty());
            assert(seq![hit].last() == hit);
            assert(hits_not_from(Seq::<HitView>::empty(), src) =~= Seq::<HitView>::empty());
            assert(hits_not_from(seq![hit], src) == hits_not_from(seq![hit].drop_last(), src));
            assert(add_hit_spec(es, key, hit) == n);
            assert(n.last() == EntryView { key, hits: seq![hit] });
        },
    }
}

proof fn lemma_remove_add_tags(
    es: Seq<EntryView>,
    src: SourceView,
    block: Node,
    tags: Seq<(Seq<char>, Seq<char>)>,
    n: int,
)
    ensures
        remove_source_spec(add_tags_spec(es, src, block, tags, n), src) == remove_source_spec(es, src),
    decreases n,
{
    if n > 0 {
        lemma_remove_add_tags(es, src, block, tags, n - 1);
        lemma_remove_add_hit(
            add_tags_spec(es, src, block, tags, n - 1),
            tags[n - 1].0,
            HitView { source: src, block: block.id, preview: block.text, display: tags[n - 1].1 },
            src,
        );
    }
}

proof fn lemma_remove_add_blocks(es: Seq<EntryView>, src: SourceView, blocks: Seq<Node>, n: int)
    ensures
        remove_source_spec(add_blocks_spec(es, src, blocks, n), src) == remove_source_spec(es, src),
    decreases n,
{
    if n > 0 {
        lemma_remove_add_blocks(es, src, blocks, n - 1);
        let prev = add_blocks_spec(es, src, blocks, n - 1);
        let tags = tags_in_text_spec(blocks[n - 1].text);
        lemma_remove_add_tags(prev, src, blocks[n - 1], tags, tags.len() as int);
    }
}

/// Law: re-indexing a source forgets what it was indexed with before: the
/// index after re-indexing it from `first` and then from `second` is the
/// index after re-indexing it from `second` alone. (Re-indexing twice from
/// the same outline is re-indexing once.)
pub proof fn law_reindex_replaces(es: Seq<EntryView>, src: SourceView, first: Seq<Node>, second: Seq<Node>)
    ensures
        reindex_spec(reindex_spec(es, src, first), src, second) == reindex_spec(es, src, second),
{
    let removed = remove_source_spec(es, src);
    let bs = nodes(first);
    lemma_remove_add_blocks(removed, src, bs, bs.len() as int);
    lemma_remove_clean(es, src);
    lemma_remove_absent(removed, src);
}

proof fn lemma_trim_hashes_lower(s: Seq<char>)
    ensures
        ascii_lower(trim_hashes(s)) == trim_hashes(ascii_lower(s)),
    decreases s.len(),
{
    if s.len() > 0 {
        assert(ascii_lower(s)[0] == ascii_lower_char(s[0]));
        if s[0] == '#' {
            lemma_trim_hashes_lower(s.drop_first());
            assert(ascii_lower(s).drop_first() =~= ascii_lower(s.drop_first()));
        } else {
            assert(ascii_lower_char(s[0]) != '#');
        }
    }
}

/// Law: looking a tag up ignores ASCII case and leading `#`s: spellings that
/// differ only in the case of ASCII letters find the same blocks, and so do
/// a tag with and without a `#` in front.
pub proof fn law_tag_lookup_ignores_case_and_hash(es: Seq<EntryView>, a: Seq<char>, b: Seq<char>)
    ensures
        ascii_lower(a) == ascii_lower(b) ==> blocks_for_tag_spec(es, a) == blocks_for_tag_spec(es, b),
        blocks_for_tag_spec(es, seq!['#'] + a) == blocks_for_tag_spec(es, a),
{
    lemma_trim_hashes_lower(a);
    lemma_trim_hashes_lower(b);
    let h = seq!['#'] + a;
    assert(h.drop_first() =~= a);
}

proof fn lemma_find_key(es: Seq<EntryView>, k: Seq<char>)
    ensures
        match find_key(es, k) {
            Some(i) => 0 <= i < es.len() && es[i].key == k && forall|j: int| i < j < es.len() ==> (#[trigger] es[j]).key != k,
            None => forall|j: int| 0 <= j < es.len() ==> (#[trigger] es[j]).key != k,
        },
    decreases es.len(),
{
    if es.len() > 0 {
        lemma_find_key(es.drop_last(), k);
        if es.last().key != k {
            assert forall|j: int| 0 <= j < es.len() - 1 implies es.drop_last()[j] == #[trigger] es[j] by {}
        }
    }
}

spec fn entries_view(v: Seq<TagEntry>) -> Seq<EntryView> {
    v.map_values(|e: TagEntry| entry_view(e))
}

spec fn hits_view(v: Seq<IndexedHit>) -> Seq<HitView> {
    v.map_values(|h: IndexedHit| hit_view(h))
}

fn copy_hit(h: &TagHit) -> (r: TagHit)
    ensures
        source_view(r.source) == source_view(h.source),
        r.block_id == h.block_id,
        r.preview@ == h.preview@,
{
    TagHit { source: copy_source(&h.source), block_id: h.block_id, preview: h.preview.clone() }
}

/// Dropping a source's hits keeps each key once and no entry empty.
pub proof fn lemma_remove_source_wf(es: Seq<EntryView>, src: SourceView)
    requires
        index_wf(es),
    ensures
        index_wf(remove_source_spec(es, src)),
        forall|a: int| 0 <= a < remove_source_spec(es, src).len() ==> exists|b: int|
            0 <= b < es.len() && (#[trigger] remove_source_spec(es, src)[a]).key == es[b].key,
    decreases es.len(),
{
    if es.len() > 0 {
        let d = es.drop_last();
        assert(index_wf(d)) by {
            assert forall|i: int, j: int| 0 <= i < j < d.len() implies (#[trigger] d[i]).key != (#[trigger] d[j]).key by {
                assert(d[i] == es[i] && d[j] == es[j]);
            }
            assert forall|i: int| 0 <= i < d.len() implies (#[trigger] d[i]).hits.len() > 0 by {
                assert(d[i] == es[i]);
            }
        }
        lemma_remove_source_wf(d, src);
        let r = remove_source_spec(d, src);
        let h = hits_not_from(es.last().hits, src);
        let full = remove_source_spec(es, src);
        assert forall|a: int| 0 <= a < full.len() implies exists|b: int|
            0 <= b < es.len() && (#[trigger] full[a]).key == es[b].key by {
            if a < r.len() {
                let b = choose|b: int| 0 <= b < d.len() && r[a].key == d[b].key;
                assert(es[b] == d[b]);
            } else {
                assert(full[a].key == es[es.len() - 1].key);
            }
        }
        if h.len() > 0 {
            assert forall|i: int, j: int| 0 <= i < j < full.len() implies (#[trigger] full[i]).key != (#[trigger] full[j]).key by {
                if j == full.len() - 1 {
                    let b = choose|b: int| 0 <= b < d.len() && r[i].key == d[b].key;
                    assert(d[b] == es[b]);
                    assert(es[b].key != es[es.len() - 1].key);
                } else {
                    assert(full[i] == r[i] && full[j] == r[j]);
                }
            }
            assert forall|i: int| 0 <= i < full.len() implies (#[trigger] full[i]).hits.len() > 0 by {
                if i < r.len() {
                    assert(full[i] == r[i]);
                }
            }
        }
    }
}

/// Adding a hit keeps each key once and no entry empty.
pub proof fn lemma_add_hit_wf(es: Seq<EntryView>, key: Seq<char>, hit: HitView)
    requires
        index_wf(es),
    ensures
        index_wf(add_hit_spec(es, key, hit)),
{
    lemma_find_key(es, key);
    let r = add_hit_spec(es, key, hit);
    match find_key(es, key) {
        Some(i) => {
            assert forall|a: int, b: int| 0 <= a < b < r.len() implies (#[trigger] r[a]).key != (#[trigger] r[b]).key by {
                assert(r[a].key == es[a].key);
                assert(r[b].key == es[b].key);
            }
            assert forall|a: int| 0 <= a < r.len() implies (#[trigger] r[a]).hits.len() > 0 by {
                if a != i {
                    assert(r[a] == es[a]);
                }
            }
        },
        None => {
            assert forall|a: int, b: int| 0 <= a < b < r.len() implies (#[trigger] r[a]).key != (#[trigger] r[b]).key by {
                if b == es.len() {
                    assert(r[a] == es[a]);
                } else {
                    assert(r[a] == es[a] && r[b] == es[b]);
                }
            }
            assert forall|a: int| 0 <= a < r.len() implies (#[trigger] r[a]).hits.len() > 0 by {
                if a < es.len() {
                    assert(r[a] == es[a]);
                }
            }
        },
    }
}

/// A summary of an entry: its key, its first spelling, its hit count.
pub struct SummaryView {
    pub key: Seq<char>,
    pub display: Seq<char>,
    pub count: nat,
}

pub open spec fn summaries(es: Seq<EntryView>) -> Seq<SummaryView> {
    es.map_values(|e: EntryView| SummaryView { key: e.key, display: e.hits[0].display, count: e.hits.len() })
}

/// Inserts `x` into `s`, ordered by key, after every entry whose key does
/// not sort after it.
pub open spec fn insert_summary(s: Seq<SummaryView>, x: SummaryView) -> Seq<SummaryView>
    decreases s.len(),
{
    if s.len() == 0 {
        seq![x]
    } else if str_lt(x.key, s.last().key) {
        insert_summary(s.drop_last(), x).push(s.last())
    } else {
        s.push(x)
    }
}

/// `s` in key order, ties keeping their order.
pub open spec fn sort_summaries(s: Seq<SummaryView>) -> Seq<SummaryView>
    decreases s.len(),
{
    if s.len() == 0 {
        Seq::empty()
    } else {
        insert_summary(sort_summaries(s.drop_last()), s.last())
    }
}

/// Every tag, in key order, with its first spelling and how many blocks
/// carry it.
pub open spec fn all_tags_spec(es: Seq<EntryView>) -> Seq<(Seq<char>, nat)> {
    sort_summaries(summaries(es)).map_values(|x: SummaryView| (x.display, x.count))
}

proof fn lemma_insert_summary_at(s: Seq<SummaryView>, x: SummaryView, p: int)
    requires
        0 <= p <= s.len(),
        forall|q: int| p <= q < s.len() ==> str_lt(x.key, #[trigger] s[q].key),
        p == 0 || !str_lt(x.key, s[p - 1].key),
    ensures
        insert_summary(s, x) == s.take(p).push(x) + s.skip(p),
    decreases s.len(),
{
    if s.len() == 0 {
        assert(s.take(p).push(x) + s.skip(p) =~= seq![x]);
    } else if str_lt(x.key, s.last().key) {
        lemma_insert_summary_at(s.drop_last(), x, p);
        assert(s.drop_last().take(p) == s.take(p));
        assert(s.take(p).push(x) + s.skip(p) =~= (s.take(p).push(x) + s.drop_last().skip(p)).push(
            s.last(),
        ));
    } else {
        assert(p == s.len());
        assert(s.take(p).push(x) + s.skip(p) =~= s.push(x));
    }
}

/// The key and summary of an entry.
fn summary_of(e: &TagEntry) -> (r: (String, TagSummary))
    requires
        e.hits@.len() > 0,
    ensures
        r.0@ == e.key@,
        r.1.display@ == e.hits@[0].display@,
        r.1.count == e.hits@.len(),
{
    (e.key.clone(), TagSummary { display: e.hits[0].display.clone(), count: e.hits.len() })
}

impl Default for TagIndex {
    fn default() -> (r: TagIndex)
        ensures
            r@.len() == 0,
            r.wf(),
    {
        TagIndex::new()
    }
}

impl TagIndex {
    /// An empty index.
    pub fn new() -> (r: TagIndex)
        ensures
            r@.len() == 0,
            r.wf(),
    {
        let r = TagIndex { entries: Vec::new() };
        assert(r@ =~= Seq::<EntryView>::empty());
        r
    }

    pub closed spec fn wf(&self) -> bool {
        index_wf(self@)
    }


    /// The blocks that carry `tag` (with or without `#`, in any ASCII case),
    /// oldest hit first.
    pub fn blocks_for_tag(&self, tag: &str) -> (r: Vec<TagHit>)
        ensures
            r@.map_values(|h: TagHit| (source_view(h.source), h.block_id.0, h.preview@))
                == blocks_for_tag_spec(self@, tag@),
    {
        let key = tag_key(tag);
        let ghost es = self@;
        let mut i = self.entries.len();
        while i > 0 && !(self.entries[i - 1].key == key)
            invariant
                i <= self.entries.len(),
                es == self@,
                find_key(es, key@) == find_key(es.take(i as int), key@),
            decreases i,
        {
            assert(es.take(i as int).drop_last() =~= es.take(i - 1));
            assert(es.take(i as int).last() == es[i - 1]);
            i -= 1;
        }
        let mut out: Vec<TagHit> = Vec::new();
        if i == 0 {
            assert(out@.map_values(|h: TagHit| (source_view(h.source), h.block_id.0, h.preview@)) =~= Seq::<(SourceView, u64, Seq<char>)>::empty());
            return out;
        }
        assert(es.take(i as int).last() == es[i - 1]);
        assert(find_key(es, key@) == Some(i - 1));
        let e = &self.entries[i - 1];
        let ghost hv = es[i - 1].hits;
        assert(hv == hits_view(e.hits@));
        let mut j: usize = 0;
        while j < e.hits.len()
            invariant
                j <= e.hits.len(),
                hv == hits_view(e.hits@),
                out@.map_values(|h: TagHit| (source_view(h.source), h.block_id.0, h.preview@))
                    == hv.take(j as int).map_values(|h: HitView| (h.source, h.block, h.preview)),
            decreases e.hits.len() - j,
        {
            let ghost o0 = out@;
            let c = copy_hit(&e.hits[j].hit);
            out.push(c);
            proof {
                let f = |h: TagHit| (source_view(h.source), h.block_id.0, h.preview@);
                let g = |h: HitView| (h.source, h.block, h.preview);
                assert(hv[j as int] == hit_view(e.hits@[j as int]));
                assert(hv.take(j + 1) =~= hv.take(j as int).push(hv[j as int]));
                assert(f(c) == g(hv[j as int]));
                assert(out@ =~= o0.push(c));
                assert(out@.map_values(f) =~= o0.map_values(f).push(f(c)));
                assert(hv.take(j + 1).map_values(g) =~= hv.take(j as int).map_values(g).push(g(hv[j as int])));
            }
            j += 1;
        }
        assert(hv.take(e.hits.len() as int) =~= hv);
        out
    }

    /// Drops the hits from `source`; entries left empty go.
    fn remove_source(&mut self, source: &TagSource)
        ensures
            final(self)@ == remove_source_spec(old(self)@, source_view(*source)),
    {
        let ghost src = source_view(*source);
        let mut rest: Vec<TagEntry> = Vec::new();
        std::mem::swap(&mut self.entries, &mut rest);
        let ghost es = entries_view(rest@);
        let ghost all = rest@;
        let ghost mut i: int = 0;
        assert(es.take(0) =~= Seq::<EntryView>::empty());
        assert(entries_view(self.entries@) =~= Seq::<EntryView>::empty());
        while rest.len() > 0
            invariant
                0 <= i <= all.len(),
                es == entries_view(all),
                rest@ == all.skip(i),
                src == source_view(*source),
                entries_view(self.entries@) == remove_source_spec(es.take(i), src),
            decreases rest.len(),
        {
            let ghost r0 = rest@;
            assert(r0[0] == all[i]);
            let e = rest.remove(0);
            assert(rest@ =~= all.skip(i + 1));
            let TagEntry { key, hits } = e;
            let ghost hv = hits_view(hits@);
            let ghost hall = hits@;
            let mut hrest = hits;
            let mut kept: Vec<IndexedHit> = Vec::new();
            let ghost mut k: int = 0;
            assert(hv.take(0) =~= Seq::<HitView>::empty());
            assert(hits_view(kept@) =~= Seq::<HitView>::empty());
            while hrest.len() > 0
                invariant
                    0 <= k <= hall.len(),
                    hv == hits_view(hall),
                    hrest@ == hall.skip(k),
                    src == source_view(*source),
                    hits_view(kept@) == hits_not_from(hv.take(k), src),
                decreases hrest.len(),
            {
                let ghost h0 = hrest@;
                assert(h0[0] == hall[k]);
                let h = hrest.remove(0);
                assert(hrest@ =~= hall.skip(k + 1));
                assert(hv.take(k + 1).drop_last() =~= hv.take(k));
                assert(hv.take(k + 1).last() == hit_view(h));
                if !same_source(&h.hit.source, source) {
                    let ghost kb = kept@;
                    kept.push(h);
                    assert(hits_view(kept@) =~= hits_view(kb).push(hit_view(h)));
                }
                proof {
                    k = k + 1;
                }
            }
            assert(hv.take(k) =~= hv);
            proof {
                assert(es.take(i + 1).drop_last() =~= es.take(i));
                assert(es.take(i + 1).last() == es[i]);
                assert(es[i] == entry_view(all[i]));
            }
            if kept.len() > 0 {
                let ghost b = self.entries@;
                let ne = TagEntry { key, hits: kept };
                self.entries.push(ne);
                assert(entries_view(self.entries@) =~= entries_view(b).push(entry_view(ne)));
            }
            proof {
                i = i + 1;
            }
        }
        assert(es.take(i) =~= es);
    }

    /// Adds `hit` under `key`, unless that block of that source is there.
    fn add_hit(&mut self, key: String, hit: IndexedHit)
        ensures
            final(self)@ == add_hit_spec(old(self)@, key@, hit_view(hit)),
    {
        let ghost es = self@;
        let mut i = self.entries.len();
        while i > 0 && !(self.entries[i - 1].key == key)
            invariant
                i <= self.entries.len(),
                es == self@,
                find_key(es, key@) == find_key(es.take(i as int), key@),
            decreases i,
        {
            assert(es.take(i as int).drop_last() =~= es.take(i - 1));
            assert(es.take(i as int).last() == es[i - 1]);
            i -= 1;
        }
        if i == 0 {
            let ghost hv0 = hit_view(hit);
            let ghost k0 = key@;
            let hits = vec![hit];
            assert(hits_view(hits@) =~= seq![hv0]);
            self.entries.push(TagEntry { key, hits });
            assert(self@ =~= es.push(EntryView { key: k0, hits: seq![hv0] }));
            return;
        }
        assert(es.take(i as int).last() == es[i - 1]);
        assert(find_key(es, key@) == Some(i - 1));
        let ghost hv = es[i - 1].hits;
        let mut j: usize = 0;
        let mut found = false;
        {
            let e = &self.entries[i - 1];
            assert(hv == hits_view(e.hits@));
            while j < e.hits.len()
                invariant
                    j <= e.hits.len(),
                    hv == hits_view(e.hits@),
                    found == has_hit(hv.take(j as int), hit_view(hit).source, hit_view(hit).block),
                decreases e.hits.len() - j,
            {
                let same = same_source(&e.hits[j].hit.source, &hit.hit.source) && e.hits[j].hit.block_id.0
                    == hit.hit.block_id.0;
                proof {
                    assert(hv[j as int] == hit_view(e.hits@[j as int]));
                    assert(hv.take(j + 1) =~= hv.take(j as int).push(hv[j as int]));
                    if has_hit(hv.take(j as int), hit_view(hit).source, hit_view(hit).block) {
                        let w = choose|w: int| 0 <= w < hv.take(j as int).len() && (#[trigger] hv.take(j as int)[w]).source == hit_view(hit).source && hv.take(j as int)[w].block == hit_view(hit).block;
                        assert(hv.take(j + 1)[w] == hv.take(j as int)[w]);
                    }
                    if same {
                        assert(hv.take(j + 1)[j as int] == hv[j as int]);
                    }
                    if has_hit(hv.take(j + 1), hit_view(hit).source, hit_view(hit).block) && !same {
                        let w = choose|w: int| 0 <= w < hv.take(j + 1).len() && (#[trigger] hv.take(j + 1)[w]).source == hit_view(hit).source && hv.take(j + 1)[w].block == hit_view(hit).block;
                        assert(w != j);
                        assert(hv.take(j as int)[w] == hv.take(j + 1)[w]);
                    }
                }
                found = found || same;
                j += 1;
            }
            assert(hv.take(e.hits.len() as int) =~= hv);
        }
        if found {
            return;
        }
        let mut e = self.entries.remove(i - 1);
        let ghost h0 = e.hits@;
        e.hits.push(hit);
        assert(hits_view(e.hits@) =~= hits_view(h0).push(hit_view(hit)));
        self.entries.insert(i - 1, e);
        assert(self@ =~= es.update(i - 1, EntryView { key: key@, hits: hv.push(hit_view(hit)) }));
    }

    /// Builds an index from every page `(name, body)` and then every journal
    /// `(date, body)`, in order; their blocks take fresh ids from `ids`.
    #[verifier::spinoff_prover]
    #[verifier::rlimit(60)]
    pub fn rebuild_from_pages(
        pages: &[(String, String)],
        journals: &[(JournalDate, String)],
        ids: &mut IdSource,
    ) -> (r: TagIndex)
        requires
            forall|i: int| 0 <= i < pages@.len() ==> (#[trigger] pages@[i]).1@.len() <= usize::MAX / 2,
            forall|i: int| 0 <= i < journals@.len() ==> (#[trigger] journals@[i]).1@.len() <= usize::MAX / 2,
            old(ids).upcoming() + chars_read(
                sources_of(
                    pages@.map_values(|p: (String, String)| (p.0@, p.1@)),
                    journals@.map_values(|j: (JournalDate, String)| (j.0, j.1@)),
                ),
            ) < u64::MAX,
        ensures
            r.wf(),
            r@ == rebuild_tags_spec(
                pages@.map_values(|p: (String, String)| (p.0@, p.1@)),
                journals@.map_values(|j: (JournalDate, String)| (j.0, j.1@)),
                old(ids).upcoming() as int,
            ),
            final(ids).upcoming() == old(ids).upcoming() + blocks_read(
                sources_of(
                    pages@.map_values(|p: (String, String)| (p.0@, p.1@)),
                    journals@.map_values(|j: (JournalDate, String)| (j.0, j.1@)),
                ),
            ),
    {
        let ghost pv = pages@.map_values(|p: (String, String)| (p.0@, p.1@));
        let ghost jv = journals@.map_values(|j: (JournalDate, String)| (j.0, j.1@));
        let ghost all = sources_of(pv, jv);
        let ghost first = old(ids).upcoming() as int;
        let ghost np = pages@.len();
        let mut index = TagIndex::new();
        assert(all.take(0) =~= Seq::<(SourceView, Seq<char>)>::empty());
        assert(index@ =~= rebuild_tag_sources(all.take(0), first));
        let mut i: usize = 0;
        while i < pages.len()
            invariant
                i <= pages.len(),
                np == pages@.len(),
                pv == pages@.map_values(|p: (String, String)| (p.0@, p.1@)),
                all == sources_of(pv, jv),
                all.len() == np + journals@.len(),
                forall|j: int| 0 <= j < pages@.len() ==> (#[trigger] pages@[j]).1@.len() <= usize::MAX / 2,
                first + chars_read(all) < u64::MAX,
                ids.upcoming() == first + blocks_read(all.take(i as int)),
                index.wf(),
                index@ == rebuild_tag_sources(all.take(i as int), first),
            decreases pages.len() - i,
        {
            assert(all[i as int] == (SourceView::Page(pv[i as int].0), pv[i as int].1));
            proof {
                lemma_source_step(all, i as int);
            }
            let outline = Outline::parse(pages[i].1.as_str(), ids);
            index.reindex_page(TagSource::Page(pages[i].0.clone()), &outline);
            i += 1;
        }
        let mut k: usize = 0;
        while k < journals.len()
            invariant
                k <= journals.len(),
                np == pages@.len(),
                jv == journals@.map_values(|j: (JournalDate, String)| (j.0, j.1@)),
                all == sources_of(pv, jv),
                all.len() == np + journals@.len(),
                forall|j: int| 0 <= j < journals@.len() ==> (#[trigger] journals@[j]).1@.len() <= usize::MAX / 2,
                first + chars_read(all) < u64::MAX,
                ids.upcoming() == first + blocks_read(all.take(np + k)),
                index.wf(),
                index@ == rebuild_tag_sources(all.take(np + k), first),
            decreases journals.len() - k,
        {
            assert(all[np + k] == (SourceView::Journal(jv[k as int].0), jv[k as int].1));
            proof {
                lemma_source_step(all, np + k);
            }
            let outline = Outline::parse(journals[k].1.as_str(), ids);
            index.reindex_page(TagSource::Journal(journals[k].0), &outline);
            k += 1;
        }
        assert(all.take((np + journals@.len()) as int) =~= all);
        index
    }

    /// Re-indexes a page from its outline: its old hits go, then each block,
    /// in order, adds a hit for each of its tags (once per block and tag).
    pub fn reindex_page(&mut self, source: TagSource, outline: &Outline)
        requires
            old(self).wf(),
        ensures
            final(self).wf(),
            final(self)@ == reindex_spec(old(self)@, source_view(source), outline@),
    {
        let ghost src = source_view(source);
        proof {
            lemma_remove_source_wf(self@, src);
        }
        self.remove_source(&source);
        let ghost base = self@;
        let blocks = all_blocks(outline.roots());
        let ghost bs = nodes(outline@);
        assert(blocks@.map_values(|b: &crate::outline::Block| view_block(*b)) == bs);
        let mut k: usize = 0;
        while k < blocks.len()
            invariant
                k <= blocks.len(),
                src == source_view(source),
                blocks@.map_values(|b: &crate::outline::Block| view_block(*b)) == bs,
                index_wf(self@),
                self@ == add_blocks_spec(base, src, bs, k as int),
            decreases blocks.len() - k,
        {
            let b = blocks[k];
            let ghost bn = bs[k as int];
            assert(bn == view_block(*b));
            let tags = tags_in_text(b.text.as_str());
            let ghost tv = pairs_view(tags@);
            let ghost start = self@;
            let mut t: usize = 0;
            while t < tags.len()
                invariant
                    t <= tags.len(),
                    tv == pairs_view(tags@),
                    tv == tags_in_text_spec(bn.text),
                    src == source_view(source),
                    bn.text == b.text@,
                    bn.id == b.id.0,
                    index_wf(self@),
                    self@ == add_tags_spec(start, src, bn, tv, t as int),
                decreases tags.len() - t,
            {
                let hit = IndexedHit {
                    hit: TagHit { source: copy_source(&source), block_id: b.id, preview: b.text.clone() },
                    display: tags[t].1.clone(),
                };
                proof {
                    assert(tv[t as int] == (tags@[t as int].0@, tags@[t as int].1@));
                    lemma_add_hit_wf(self@, tags@[t as int].0@, hit_view(hit));
                }
                self.add_hit(tags[t].0.clone(), hit);
                t += 1;
            }
            k += 1;
        }
    }

    /// Every tag, in key order, with its first spelling and how many blocks
    /// carry it.
    pub fn all_tags(&self) -> (r: Vec<TagSummary>)
        requires
            self.wf(),
        ensures
            r@.map_values(|t: TagSummary| (t.display@, t.count as nat)) == all_tags_spec(self@),
    {
        let ghost es = self@;
        let ghost sv = summaries(es);
        // Summaries with their keys, kept in key order as they are added.
        let mut sorted: Vec<(String, TagSummary)> = Vec::new();
        let mut i: usize = 0;
        while i < self.entries.len()
            invariant
                i <= self.entries.len(),
                es == self@,
                index_wf(es),
                sv == summaries(es),
                sorted@.map_values(|p: (String, TagSummary)| SummaryView { key: p.0@, display: p.1.display@, count: p.1.count as nat })
                    == sort_summaries(sv.take(i as int)),
            decreases self.entries.len() - i,
        {
            let e = &self.entries[i];
            assert(es[i as int] == entry_view(*e));
            assert(es[i as int].hits.len() > 0);
            assert(e.hits@.len() > 0);
            let x = summary_of(e);
            let ghost xv = SummaryView { key: x.0@, display: x.1.display@, count: x.1.count as nat };
            assert(xv == sv[i as int]);
            let ghost cur = sorted@.map_values(|p: (String, TagSummary)| SummaryView { key: p.0@, display: p.1.display@, count: p.1.count as nat });
            let mut p = sorted.len();
            while p > 0 && str_less(x.0.as_str(), sorted[p - 1].0.as_str())
                invariant
                    p <= sorted.len(),
                    cur == sorted@.map_values(|p: (String, TagSummary)| SummaryView { key: p.0@, display: p.1.display@, count: p.1.count as nat }),
                    forall|q: int| p <= q < sorted.len() ==> str_lt(xv.key, #[trigger] cur[q].key),
                    xv.key == x.0@,
                decreases p,
            {
                assert(cur[p - 1].key == sorted@[p - 1].0@);
                p -= 1;
            }
            proof {
                lemma_insert_summary_at(cur, xv, p as int);
                assert(sv.take(i + 1).drop_last() =~= sv.take(i as int));
                assert(sv.take(i + 1).last() == xv);
            }
            let ghost before = sorted@;
            sorted.insert(p, x);
            proof {
                let f = |p: (String, TagSummary)| SummaryView { key: p.0@, display: p.1.display@, count: p.1.count as nat };
                assert(sorted@.map_values(f) =~= cur.take(p as int).push(xv) + cur.skip(p as int));
            }
            i += 1;
        }
        assert(sv.take(self.entries.len() as int) =~= sv);
        let ghost sorted_v = sorted@.map_values(|p: (String, TagSummary)| SummaryView { key: p.0@, display: p.1.display@, count: p.1.count as nat });
        let mut out: Vec<TagSummary> = Vec::new();
        let mut rest = sorted;
        let ghost all = rest@;
        let ghost mut k: int = 0;
        assert(out@.map_values(|t: TagSummary| (t.display@, t.count as nat)) =~= Seq::<(Seq<char>, nat)>::empty());
        while rest.len() > 0
            invariant
                0 <= k <= all.len(),
                rest@ == all.skip(k),
                sorted_v == all.map_values(|p: (String, TagSummary)| SummaryView { key: p.0@, display: p.1.display@, count: p.1.count as nat }),
                out@.map_values(|t: TagSummary| (t.display@, t.count as nat))
                    == sorted_v.take(k).map_values(|x: SummaryView| (x.display, x.count)),
            decreases rest.len(),
        {
            let ghost r0 = rest@;
            assert(r0[0] == all[k]);
            let (_, summary) = rest.remove(0);
            assert(rest@ =~= all.skip(k + 1));
            let ghost o0 = out@;
            out.push(summary);
            proof {
                assert(sorted_v.take(k + 1) =~= sorted_v.take(k).push(sorted_v[k]));
                assert(out@.map_values(|t: TagSummary| (t.display@, t.count as nat)) =~= o0.map_values(
                    |t: TagSummary| (t.display@, t.count as nat),
                ).push((sorted_v[k].display, sorted_v[k].count)));
                k = k + 1;
            }
        }
        assert(sorted_v.take(k) =~= sorted_v);
        out
    }
}


} // verus!
