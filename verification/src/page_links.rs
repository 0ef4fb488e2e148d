//! `[[Page Name]]` links in block text.

use vstd::prelude::*;
use std::ops::Range;
use crate::block_render::{
    all_found_in, events_of, found_per_event, found_views, lemma_view_blks_push,
    lemma_view_inlines_push, lower_events, lower_spec, markdown_event_lists, text_events,
    view_blk, view_blks, view_inline, view_inlines, Blk, BlockNode, ExtensionMatch, Found, Inline,
    InlineExtension, InlineNode, MdClass, MdEvent, found_in, found_view,
};
use crate::forest::{nodes, Node};
use crate::outline::{all_blocks, blocks_read, chars_read, parsed, view_block, Block, BlockId, IdSource, Outline};
use crate::page::Page;
use crate::journal::JournalDate;
use crate::linked_refs::{date_lt, dated_after};
use crate::tags::{copy_source, lemma_source_step, same_source, source_view, sources_of, SourceView, TagSource};
use crate::text::{str_less, str_lt, to_lower, lowercase, 
    byte_len, byte_offset, byte_offsets, byte_slice, chars_of, is_boundary, regex_captures,
    regex_captures_of, regex_valid, slice_bytes, span_in, str_len, trim, trimmed,
};

verus! {

broadcast use vstd::seq_lib::group_seq_properties;

/// `[[`, a name of at least one character that is not a bracket or a line
/// break (as few as possible), then `]]`.
pub const PAGE_LINK_PATTERN: &'static str = "\\[\\[([^\\[\\]\\n]+?)\\]\\]";

/// The kind of extension node a page link becomes.
pub open spec fn page_link_kind() -> Seq<char> {
    seq!['p', 'a', 'g', 'e', '-', 'l', 'i', 'n', 'k']
}

/// The page links among the first captures: whole `[[...]]` spans whose name
/// is not blank.
pub open spec fn link_found(text: Seq<char>, caps: Seq<Seq<Option<(usize, usize)>>>) -> Seq<Found>
    decreases caps.len(),
{
    if caps.len() == 0 {
        Seq::empty()
    } else {
        let rest = link_found(text, caps.drop_last());
        let c = caps.last();
        if c.len() > 1 && c[0] is Some && c[1] is Some && trim(
            byte_slice(text, c[1]->Some_0.0 as int, c[1]->Some_0.1 as int),
        ).len() > 0 {
            rest.push(
                Found {
                    start: c[0]->Some_0.0 as int,
                    end: c[0]->Some_0.1 as int,
                    kind: page_link_kind(),
                },
            )
        } else {
            rest
        }
    }
}

/// The page links of `text`, as the link pattern finds them.
pub open spec fn link_matches(text: Seq<char>) -> Seq<Found> {
    if regex_valid(PAGE_LINK_PATTERN@) {
        link_found(text, regex_captures(PAGE_LINK_PATTERN@, text))
    } else {
        Seq::empty()
    }
}

/// Matches `[[Page Name]]` spans.
pub struct PageLinkExt;

impl PageLinkExt {
    /// The `[[...]]` spans of `text` whose name is not blank.
    pub fn matches(&self, text: &str) -> (r: Vec<ExtensionMatch>)
        ensures
            r@.map_values(|m: ExtensionMatch| found_view(m)) == link_matches(text@),
            forall|j: int| 0 <= j < r.len() ==> found_in(text@, #[trigger] found_view(r@[j])),
    {
        let mut r: Vec<ExtensionMatch> = Vec::new();
        let caps = match regex_captures_of(PAGE_LINK_PATTERN, text) {
            Some(v) => v,
            None => {
                assert(r@.map_values(|m: ExtensionMatch| found_view(m)) =~= Seq::<Found>::empty());
                return r;
            },
        };
        let ghost cv = caps@.map_values(|c: Vec<Option<(usize, usize)>>| c@);
        let chars = chars_of(text);
        let total = str_len(text);
        let offs = byte_offsets(&chars, total);
        let ghost t = text@;
        let mut i: usize = 0;
        assert(r@.map_values(|m: ExtensionMatch| found_view(m)) =~= link_found(t, cv.take(0)));
        while i < caps.len()
            invariant
                i <= caps.len(),
                cv == caps@.map_values(|c: Vec<Option<(usize, usize)>>| c@),
                cv == regex_captures(PAGE_LINK_PATTERN@, t),
                regex_valid(PAGE_LINK_PATTERN@),
                forall|a: int, b: int|
                    0 <= a < caps.len() && 0 <= b < caps@[a].len() && caps@[a]@[b] is Some
                        ==> span_in(t, #[trigger] caps@[a]@[b]->Some_0),
                chars@ == t,
                total == byte_len(t),
                offs.len() == chars.len() + 1,
                forall|q: int| 0 <= q <= chars.len() ==> offs@[q] == byte_offset(chars@, q),
                r@.map_values(|m: ExtensionMatch| found_view(m)) == link_found(t, cv.take(i as int)),
                forall|j: int| 0 <= j < r.len() ==> found_in(t, #[trigger] found_view(r@[j])),
            decreases caps.len() - i,
        {
            let ghost before = r@;
            let c = &caps[i];
            assert(cv.take(i + 1).drop_last() =~= cv.take(i as int));
            assert(cv.take(i + 1).last() == c@);
            if c.len() > 1 {
                if let (Some((s0, e0)), Some((s1, e1))) = (c[0], c[1]) {
                    assert(span_in(t, caps@[i as int]@[0]->Some_0));
                    assert(span_in(t, caps@[i as int]@[1]->Some_0));
                    let name = slice_bytes(&chars, &offs, s1, e1);
                    let nv = chars_of(name.as_str());
                    let trimmed_name = trimmed(&nv, 0, nv.len());
                    assert(nv@.subrange(0, nv.len() as int) =~= nv@);
                    if !trimmed_name.as_str().is_empty() {
                        let kind = "page-link".to_owned();
                        proof {
                            reveal_strlit("page-link");
                            assert(kind@ =~= page_link_kind());
                        }
                        let m = ExtensionMatch { range: Range { start: s0, end: e0 }, kind };
                        r.push(m);
                        proof {
                            assert(r@.map_values(|m: ExtensionMatch| found_view(m)) =~= before.map_values(
                                |m: ExtensionMatch| found_view(m),
                            ).push(found_view(m)));
                        }
                    }
                }
            }
            i += 1;
        }
        assert(cv.take(caps.len() as int) =~= cv);
        r
    }
}

impl InlineExtension for PageLinkExt {
    open spec fn matched(&self, text: Seq<char>) -> Seq<Found> {
        link_matches(text)
    }

    fn extract(&self, text: &str) -> (r: Vec<ExtensionMatch>)
        ensures
            r@.map_values(|m: ExtensionMatch| found_view(m)) == link_matches(text@),
    {
        self.matches(text)
    }
}

/// The page name of a `[[...]]` source: the part between the brackets,
/// without surrounding white space, if that is not empty.
pub open spec fn page_name_spec(source: Seq<char>) -> Option<Seq<char>> {
    if source.len() >= 4 && source[0] == '[' && source[1] == '[' && source[source.len() - 2] == ']'
        && source[source.len() - 1] == ']' {
        let name = trim(source.subrange(2, source.len() - 2));
        if name.len() > 0 {
            Some(name)
        } else {
            None
        }
    } else {
        None
    }
}

/// The page name of a `[[...]]` source: the part between the brackets,
/// without surrounding white space, if that is not empty.
pub fn page_name(source: &str) -> (r: Option<String>)
    ensures
        match r {
            Some(n) => page_name_spec(source@) == Some(n@),
            None => page_name_spec(source@) is None,
        },
{
    let v = chars_of(source);
    let n = v.len();
    if n >= 4 && v[0] == '[' && v[1] == '[' && v[n - 2] == ']' && v[n - 1] == ']' {
        let name = trimmed(&v, 2, n - 2);
        if name.as_str().is_empty() {
            None
        } else {
            Some(name)
        }
    } else {
        None
    }
}

// ---------------------------------------------------------------------------
// Links of a block's text.

/// The link targets of an inline node, in order.
pub open spec fn links_of_inline(n: Inline) -> Seq<Seq<char>>
    decreases n,
{
    match n {
        Inline::Ext(kind, source, _) => if kind == page_link_kind() && page_name_spec(source) is Some {
            seq![page_name_spec(source)->Some_0]
        } else {
            Seq::empty()
        },
        Inline::Link(_, children) => links_of_inlines(children),
        _ => Seq::empty(),
    }
}

pub open spec fn links_of_inlines(s: Seq<Inline>) -> Seq<Seq<char>>
    decreases s,
{
    if s.len() == 0 {
        Seq::empty()
    } else {
        links_of_inline(s[0]) + links_of_inlines(s.subrange(1, s.len() as int))
    }
}

/// The link targets of a block node, in order; code has none.
pub open spec fn links_of_blk(b: Blk) -> Seq<Seq<char>>
    decreases b,
{
    match b {
        Blk::Paragraph(c) => links_of_inlines(c),
        Blk::Heading(_, c) => links_of_inlines(c),
        Blk::Quote(c) => links_of_blks(c),
        Blk::CodeBlock(_, _) => Seq::empty(),
    }
}

pub open spec fn links_of_blks(s: Seq<Blk>) -> Seq<Seq<char>>
    decreases s,
{
    if s.len() == 0 {
        Seq::empty()
    } else {
        links_of_blk(s[0]) + links_of_blks(s.subrange(1, s.len() as int))
    }
}

/// `acc` with `n` added unless it is there already.
pub open spec fn add_name(acc: Seq<Seq<char>>, n: Seq<char>) -> Seq<Seq<char>> {
    if acc.contains(n) {
        acc
    } else {
        acc.push(n)
    }
}

/// `acc` with each of `ns` added in turn.
pub open spec fn add_names(acc: Seq<Seq<char>>, ns: Seq<Seq<char>>) -> Seq<Seq<char>>
    decreases ns.len(),
{
    if ns.len() == 0 {
        acc
    } else {
        add_name(add_names(acc, ns.drop_last()), ns.last())
    }
}

proof fn lemma_add_names_concat(acc: Seq<Seq<char>>, a: Seq<Seq<char>>, b: Seq<Seq<char>>)
    ensures
        add_names(acc, a + b) == add_names(add_names(acc, a), b),
    decreases b.len(),
{
    if b.len() == 0 {
        assert(a + b =~= a);
    } else {
        assert((a + b).drop_last() =~= a + b.drop_last());
        lemma_add_names_concat(acc, a, b.drop_last());
    }
}

proof fn lemma_links_of_inlines_concat(a: Seq<Inline>, b: Seq<Inline>)
    ensures
        links_of_inlines(a + b) == links_of_inlines(a) + links_of_inlines(b),
    decreases a.len(),
{
    if a.len() == 0 {
        assert(a + b =~= b);
    } else {
        assert((a + b).subrange(1, (a + b).len() as int) =~= a.subrange(1, a.len() as int) + b);
        lemma_links_of_inlines_concat(a.subrange(1, a.len() as int), b);
    }
}

proof fn lemma_links_of_blks_concat(a: Seq<Blk>, b: Seq<Blk>)
    ensures
        links_of_blks(a + b) == links_of_blks(a) + links_of_blks(b),
    decreases a.len(),
{
    if a.len() == 0 {
        assert(a + b =~= b);
    } else {
        assert((a + b).subrange(1, (a + b).len() as int) =~= a.subrange(1, a.len() as int) + b);
        lemma_links_of_blks_concat(a.subrange(1, a.len() as int), b);
    }
}

proof fn lemma_links_of_inlines_one(n: Inline)
    ensures
        links_of_inlines(seq![n]) == links_of_inline(n),
{
    let s = seq![n];
    assert(s[0] == n);
    assert(s.subrange(1, 1) =~= Seq::<Inline>::empty());
    assert(links_of_inlines(s.subrange(1, 1)) == Seq::<Seq<char>>::empty());
    assert(links_of_inlines(s) == links_of_inline(n) + links_of_inlines(s.subrange(1, 1)));
    assert(links_of_inline(n) + Seq::<Seq<char>>::empty() =~= links_of_inline(n));
}

proof fn lemma_links_of_blks_one(b: Blk)
    ensures
        links_of_blks(seq![b]) == links_of_blk(b),
{
    let s = seq![b];
    assert(s[0] == b);
    assert(s.subrange(1, 1) =~= Seq::<Blk>::empty());
    assert(links_of_blks(s.subrange(1, 1)) == Seq::<Seq<char>>::empty());
    assert(links_of_blks(s) == links_of_blk(b) + links_of_blks(s.subrange(1, 1)));
    assert(links_of_blk(b) + Seq::<Seq<char>>::empty() =~= links_of_blk(b));
}

pub open spec fn names_view(v: Seq<String>) -> Seq<Seq<char>> {
    v.map_values(|s: String| s@)
}

/// Adds `name` unless it is there already.
fn add_link(out: &mut Vec<String>, name: String)
    ensures
        names_view(final(out)@) == add_name(names_view(old(out)@), name@),
{
    let ghost nv = names_view(out@);
    let mut i: usize = 0;
    while i < out.len()
        invariant
            i <= out.len(),
            nv == names_view(out@),
            forall|j: int| 0 <= j < i ==> nv[j] != name@,
        decreases out.len() - i,
    {
        if out[i] == name {
            assert(nv[i as int] == name@);
            return;
        }
        i += 1;
    }
    assert(!nv.contains(name@));
    out.push(name);
    assert(names_view(out@) =~= nv.push(name@));
}

fn collect_links_from_inlines(nodes: &Vec<InlineNode>, out: &mut Vec<String>)
    ensures
        names_view(final(out)@) == add_names(names_view(old(out)@), links_of_inlines(view_inlines(nodes@))),
    decreases nodes@,
{
    let ghost start = names_view(out@);
    let kind = "page-link".to_owned();
    proof {
        reveal_strlit("page-link");
        assert(kind@ =~= page_link_kind());
        assert(nodes@.take(0) =~= Seq::<InlineNode>::empty());
        assert(view_inlines(Seq::<InlineNode>::empty()) =~= Seq::<Inline>::empty());
    }
    let mut i: usize = 0;
    while i < nodes.len()
        invariant
            i <= nodes.len(),
            kind@ == page_link_kind(),
            names_view(out@) == add_names(start, links_of_inlines(view_inlines(nodes@.take(i as int)))),
        decreases nodes.len() - i,
    {
        let ghost seen = links_of_inlines(view_inlines(nodes@.take(i as int)));
        let ghost x = view_inline(nodes@[i as int]);
        let ghost mid = names_view(out@);
        proof {
            let a = view_inlines(nodes@.take(i as int));
            assert(nodes@.take(i + 1) =~= nodes@.take(i as int).push(nodes@[i as int]));
            lemma_view_inlines_push(nodes@.take(i as int), nodes@[i as int]);
            assert(a.push(x) =~= a + seq![x]);
            lemma_links_of_inlines_concat(a, seq![x]);
            lemma_links_of_inlines_one(x);
            lemma_add_names_concat(start, seen, links_of_inline(x));
        }
        match &nodes[i] {
            InlineNode::Extension(e) => {
                let named = if e.kind == kind {
                    page_name(e.source.as_str())
                } else {
                    None
                };
                match named {
                    Some(name) => {
                        let ghost before = names_view(out@);
                        add_link(out, name);
                        proof {
                            let one = seq![name@];
                            assert(links_of_inline(x) == one);
                            assert(one.drop_last() =~= Seq::<Seq<char>>::empty());
                        }
                    },
                    None => {
                        assert(links_of_inline(x) =~= Seq::<Seq<char>>::empty());
                    },
                }
            },
            InlineNode::Link { url: _, children } => {
                collect_links_from_inlines(children, out);
            },
            _ => {
                assert(links_of_inline(x) =~= Seq::<Seq<char>>::empty());
            },
        }
        assert(names_view(out@) == add_names(mid, links_of_inline(x)));
        i += 1;
    }
    assert(nodes@.take(nodes.len() as int) =~= nodes@);
}

fn collect_links_from_blocks(blocks: &Vec<BlockNode>, out: &mut Vec<String>)
    ensures
        names_view(final(out)@) == add_names(names_view(old(out)@), links_of_blks(view_blks(blocks@))),
    decreases blocks@,
{
    let ghost start = names_view(out@);
    proof {
        assert(blocks@.take(0) =~= Seq::<BlockNode>::empty());
        assert(view_blks(Seq::<BlockNode>::empty()) =~= Seq::<Blk>::empty());
    }
    let mut i: usize = 0;
    while i < blocks.len()
        invariant
            i <= blocks.len(),
            names_view(out@) == add_names(start, links_of_blks(view_blks(blocks@.take(i as int)))),
        decreases blocks.len() - i,
    {
        let ghost seen = links_of_blks(view_blks(blocks@.take(i as int)));
        let ghost x = view_blk(blocks@[i as int]);
        let ghost mid = names_view(out@);
        proof {
            let a = view_blks(blocks@.take(i as int));
            assert(blocks@.take(i + 1) =~= blocks@.take(i as int).push(blocks@[i as int]));
            lemma_view_blks_push(blocks@.take(i as int), blocks@[i as int]);
            assert(a.push(x) =~= a + seq![x]);
            lemma_links_of_blks_concat(a, seq![x]);
            lemma_links_of_blks_one(x);
            lemma_add_names_concat(start, seen, links_of_blk(x));
        }
        match &blocks[i] {
            BlockNode::Paragraph(children) => collect_links_from_inlines(children, out),
            BlockNode::Heading { level: _, children } => collect_links_from_inlines(children, out),
            BlockNode::Quote(children) => collect_links_from_blocks(children, out),
            BlockNode::CodeBlock { .. } => {
                assert(links_of_blk(x) =~= Seq::<Seq<char>>::empty());
            },
        }
        assert(names_view(out@) == add_names(mid, links_of_blk(x)));
        i += 1;
    }
    assert(blocks@.take(blocks.len() as int) =~= blocks@);
}

/// The events' matches of the page-link extension: one list per text event.
pub open spec fn link_found_per_event(events: Seq<MdEvent>) -> Seq<Seq<Seq<Found>>> {
    Seq::new(
        events.len(),
        |i: int|
            if events[i].class == MdClass::Text {
                seq![link_matches(events[i].payload)]
            } else {
                Seq::empty()
            },
    )
}

/// The pages a markdown text links to, each once, in the order of their
/// first link.
pub open spec fn links_in_text_spec(text: Seq<char>) -> Seq<Seq<char>> {
    let events = text_events(text);
    add_names(Seq::empty(), links_of_blks(lower_spec(events, link_found_per_event(events))))
}

/// The pages a block's markdown text links to, each once, in the order of
/// their first link. Links in code are not links.
pub fn page_links_in_text(text: &str) -> (r: Vec<String>)
    ensures
        names_view(r@) == links_in_text_spec(text@),
{
    let (classes, tags, payloads) = markdown_event_lists(text);
    let ghost events = text_events(text@);
    let mut found: Vec<Vec<Vec<ExtensionMatch>>> = Vec::new();
    let mut i: usize = 0;
    while i < classes.len()
        invariant
            i <= classes.len(),
            tags.len() == classes.len(),
            payloads.len() == classes.len(),
            events == events_of(classes@, tags@, payloads@),
            found.len() == i,
            forall|j: int| 0 <= j < i ==> found_per_event(found@)[j] == #[trigger] link_found_per_event(events)[j],
            forall|j: int|
                0 <= j < i && classes@[j] == MdClass::Text ==> all_found_in(
                    payloads@[j]@,
                    #[trigger] found_views(found@[j]@),
                ),
        decreases classes.len() - i,
    {
        let ghost f0 = found@;
        if classes[i] == MdClass::Text {
            let m = PageLinkExt.matches(payloads[i].as_str());
            let here = vec![m];
            proof {
                assert(found_views(here@) =~= seq![link_matches(payloads@[i as int]@)]);
                assert(all_found_in(payloads@[i as int]@, found_views(here@))) by {
                    assert forall|a: int, b: int|
                        0 <= a < found_views(here@).len() && 0 <= b < found_views(here@)[a].len()
                        implies found_in(payloads@[i as int]@, #[trigger] found_views(here@)[a][b]) by {
                        assert(found_views(here@)[a][b] == found_view(m@[b]));
                    }
                }
            }
            found.push(here);
        } else {
            let here: Vec<Vec<ExtensionMatch>> = Vec::new();
            assert(found_views(here@) =~= Seq::<Seq<Found>>::empty());
            found.push(here);
        }
        proof {
            assert forall|j: int| 0 <= j < i + 1 implies found_per_event(found@)[j] == #[trigger] link_found_per_event(events)[j] by {
                if j < i {
                    assert(found@[j] == f0[j]);
                    assert(found_per_event(f0)[j] == link_found_per_event(events)[j]);
                }
            }
        }
        i += 1;
    }
    proof {
        assert(found_per_event(found@) =~= link_found_per_event(events));
    }
    let blocks = lower_events(&classes, &tags, &payloads, &found);
    let mut out: Vec<String> = Vec::new();
    proof {
        assert(names_view(out@) =~= Seq::<Seq<char>>::empty());
    }
    collect_links_from_blocks(&blocks, &mut out);
    out
}


// ---------------------------------------------------------------------------
// The link index.

/// The model of a target's backlinks: the target and the (source, block)
/// pairs that link to it, oldest first.
pub struct BacklinksView {
    pub target: Seq<char>,
    pub from: Seq<(SourceView, u64)>,
}

/// The model of a source's links: the page or journal and the pages it
/// links to.
pub struct TargetsView {
    pub source: SourceView,
    pub targets: Seq<Seq<char>>,
}

/// The model of the link index.
pub struct LinkIndexView {
    pub reverse: Seq<BacklinksView>,
    pub forward: Seq<TargetsView>,
    pub pages: Seq<Seq<char>>,
}

struct Backlinks {
    target: String,
    from: Vec<(TagSource, BlockId)>,
}

struct Targets {
    source: TagSource,
    targets: Vec<String>,
}

pub open spec fn pair_view(p: (TagSource, BlockId)) -> (SourceView, u64) {
    (source_view(p.0), p.1.0)
}

spec fn backlinks_view(b: Backlinks) -> BacklinksView {
    BacklinksView { target: b.target@, from: b.from@.map_values(|p: (TagSource, BlockId)| pair_view(p)) }
}

spec fn targets_view(t: Targets) -> TargetsView {
    TargetsView { source: source_view(t.source), targets: names_view(t.targets@) }
}

/// Page links, forwards and backwards. Page names are case-preserving and
/// case-sensitive; the set of indexed pages tells a missing target apart
/// without a look at the disk. The maps are vectors: with text keys,
/// vstd's specifications of `HashMap`, `HashSet` and `BTreeSet` let Verus
/// prove next to nothing about a lookup, so the index keeps each target
/// once (see `links_wf`) and states every contract over that model.
pub struct LinkIndex {
    reverse: Vec<Backlinks>,
    forward: Vec<Targets>,
    pages: Vec<String>,
}

impl View for LinkIndex {
    type V = LinkIndexView;

    closed spec fn view(&self) -> LinkIndexView {
        LinkIndexView {
            reverse: self.reverse@.map_values(|b: Backlinks| backlinks_view(b)),
            forward: self.forward@.map_values(|t: Targets| targets_view(t)),
            pages: names_view(self.pages@),
        }
    }
}

/// The position of the backlinks of `target`.
pub open spec fn find_target(rs: Seq<BacklinksView>, target: Seq<char>) -> Option<int>
    decreases rs.len(),
{
    if rs.len() == 0 {
        None
    } else if rs.last().target == target {
        Some(rs.len() - 1)
    } else {
        find_target(rs.drop_last(), target)
    }
}

/// The position of the links of `source`.
pub open spec fn find_source(fs: Seq<TargetsView>, source: SourceView) -> Option<int>
    decreases fs.len(),
{
    if fs.len() == 0 {
        None
    } else if fs.last().source == source {
        Some(fs.len() - 1)
    } else {
        find_source(fs.drop_last(), source)
    }
}

/// The pairs not from page `source`.
pub open spec fn pairs_not_from(ps: Seq<(SourceView, u64)>, source: SourceView) -> Seq<(SourceView, u64)>
    decreases ps.len(),
{
    if ps.len() == 0 {
        Seq::empty()
    } else {
        let r = pairs_not_from(ps.drop_last(), source);
        if ps.last().0 == source {
            r
        } else {
            r.push(ps.last())
        }
    }
}

/// The backlinks without those from `source` to the targets in `gone`;
/// targets left without backlinks go.
pub open spec fn unlink_spec(rs: Seq<BacklinksView>, source: SourceView, gone: Seq<Seq<char>>) -> Seq<BacklinksView>
    decreases rs.len(),
{
    if rs.len() == 0 {
        Seq::empty()
    } else {
        let r = unlink_spec(rs.drop_last(), source, gone);
        let e = rs.last();
        if gone.contains(e.target) {
            let f = pairs_not_from(e.from, source);
            if f.len() > 0 {
                r.push(BacklinksView { target: e.target, from: f })
            } else {
                r
            }
        } else {
            r.push(e)
        }
    }
}

/// The backlinks with `(source, block)` added to `target`, unless it is there.
pub open spec fn link_spec(rs: Seq<BacklinksView>, target: Seq<char>, source: SourceView, block: u64) -> Seq<BacklinksView> {
    match find_target(rs, target) {
        Some(i) => if rs[i].from.contains((source, block)) {
            rs
        } else {
            rs.update(i, BacklinksView { target, from: rs[i].from.push((source, block)) })
        },
        None => rs.push(BacklinksView { target, from: seq![(source, block)] }),
    }
}

/// The backlinks with the first `n` links of a block added.
pub open spec fn link_targets_spec(
    rs: Seq<BacklinksView>,
    source: SourceView,
    block: u64,
    ts: Seq<Seq<char>>,
    n: int,
) -> Seq<BacklinksView>
    decreases n,
{
    if n <= 0 {
        rs
    } else {
        link_spec(link_targets_spec(rs, source, block, ts, n - 1), ts[n - 1], source, block)
    }
}

/// The backlinks and the page's targets so far, after the first `n` blocks.
pub open spec fn link_blocks_spec(
    rs: Seq<BacklinksView>,
    source: SourceView,
    blocks: Seq<Node>,
    n: int,
) -> (Seq<BacklinksView>, Seq<Seq<char>>)
    decreases n,
{
    if n <= 0 {
        (rs, Seq::empty())
    } else {
        let (r, ts) = link_blocks_spec(rs, source, blocks, n - 1);
        let here = links_in_text_spec(blocks[n - 1].text);
        (
            link_targets_spec(r, source, blocks[n - 1].id, here, here.len() as int),
            add_names(ts, here),
        )
    }
}

/// Re-indexing the links of `source` (a page or a journal) from its
/// outline: its old backlinks go, then each block adds a backlink for each
/// page it links to; its targets are what its blocks link to; a page
/// becomes known, a journal stays out of the set of pages.
pub open spec fn reindex_links_spec(ix: LinkIndexView, source: SourceView, outline: Seq<Node>) -> LinkIndexView {
    let prev = match find_source(ix.forward, source) {
        Some(i) => ix.forward[i].targets,
        None => Seq::empty(),
    };
    let bs = nodes(outline);
    let (rs, ts) = link_blocks_spec(unlink_spec(ix.reverse, source, prev), source, bs, bs.len() as int);
    LinkIndexView {
        reverse: rs,
        forward: match find_source(ix.forward, source) {
            Some(i) => ix.forward.update(i, TargetsView { source, targets: ts }),
            None => ix.forward.push(TargetsView { source, targets: ts }),
        },
        pages: match source {
            SourceView::Page(n) => add_name(ix.pages, n),
            SourceView::Journal(_) => ix.pages,
        },
    }
}

/// The index built from sources `(source, body)`, each re-indexed in turn
/// from the outline its body reads as, the blocks taking ids on from
/// `first`.
pub open spec fn rebuild_sources_spec(srcs: Seq<(SourceView, Seq<char>)>, first: int) -> LinkIndexView
    decreases srcs.len(),
{
    if srcs.len() == 0 {
        LinkIndexView { reverse: Seq::empty(), forward: Seq::empty(), pages: Seq::empty() }
    } else {
        reindex_links_spec(
            rebuild_sources_spec(srcs.drop_last(), first),
            srcs.last().0,
            parsed(srcs.last().1, first + blocks_read(srcs.drop_last())),
        )
    }
}

/// The index built from every page and then every journal, the blocks
/// taking ids on from `first`.
pub open spec fn rebuild_links_spec(
    pages: Seq<(Seq<char>, Seq<char>)>,
    journals: Seq<(JournalDate, Seq<char>)>,
    first: int,
) -> LinkIndexView {
    rebuild_sources_spec(sources_of(pages, journals), first)
}

/// The ids, in preorder, of the blocks among `bs` that link to `target`.
pub open spec fn linking_ids(bs: Seq<Node>, target: Seq<char>) -> Seq<u64>
    decreases bs.len(),
{
    if bs.len() == 0 {
        Seq::empty()
    } else if links_in_text_spec(bs.last().text).contains(target) {
        linking_ids(bs.drop_last(), target).push(bs.last().id)
    } else {
        linking_ids(bs.drop_last(), target)
    }
}

/// Source `a` sorts before `b`: pages first, by name, then journals, oldest
/// first.
pub open spec fn source_lt(a: SourceView, b: SourceView) -> bool {
    match a {
        SourceView::Page(x) => match b {
            SourceView::Page(y) => str_lt(x, y),
            SourceView::Journal(_) => true,
        },
        SourceView::Journal(x) => match b {
            SourceView::Page(_) => false,
            SourceView::Journal(y) => date_lt(x, y),
        },
    }
}

/// `a` sorts before `b`: by source, then by block.
pub open spec fn pair_lt(a: (SourceView, u64), b: (SourceView, u64)) -> bool {
    source_lt(a.0, b.0) || (a.0 == b.0 && a.1 < b.1)
}

pub open spec fn insert_pair(s: Seq<(SourceView, u64)>, x: (SourceView, u64)) -> Seq<(SourceView, u64)>
    decreases s.len(),
{
    if s.len() == 0 {
        seq![x]
    } else if pair_lt(x, s.last()) {
        insert_pair(s.drop_last(), x).push(s.last())
    } else {
        s.push(x)
    }
}

/// `s` ordered by page name, then block.
pub open spec fn sort_pairs(s: Seq<(SourceView, u64)>) -> Seq<(SourceView, u64)>
    decreases s.len(),
{
    if s.len() == 0 {
        Seq::empty()
    } else {
        insert_pair(sort_pairs(s.drop_last()), s.last())
    }
}

/// The backlinks of `target`, ordered by source, then block.
pub open spec fn backlinks_spec(ix: LinkIndexView, target: Seq<char>) -> Seq<(SourceView, u64)> {
    match find_target(ix.reverse, target) {
        Some(i) => sort_pairs(ix.reverse[i].from),
        None => Seq::empty(),
    }
}

/// The pages `source` links to.
pub open spec fn targets_spec(ix: LinkIndexView, source: SourceView) -> Seq<Seq<char>> {
    match find_source(ix.forward, source) {
        Some(i) => ix.forward[i].targets,
        None => Seq::empty(),
    }
}

// ---------------------------------------------------------------------------
// Re-indexing replaces.

/// No page's backlinks come from `src`, and every target has backlinks.
pub open spec fn clean_of(rs: Seq<BacklinksView>, src: SourceView) -> bool {
    &&& forall|i: int| 0 <= i < rs.len() ==> (#[trigger] rs[i]).from.len() > 0
    &&& forall|i: int, k: int| 0 <= i < rs.len() && 0 <= k < rs[i].from.len() ==> (#[trigger] rs[i].from[k]).0 != src
}

/// A well-formed link index: no target is listed twice, every listed target
/// has backlinks, and every backlink from a page is to one of that page's
/// targets.
pub open spec fn links_wf(ix: LinkIndexView) -> bool {
    &&& forall|i: int, j: int| 0 <= i < j < ix.reverse.len() ==> (#[trigger] ix.reverse[i]).target != (#[trigger] ix.reverse[j]).target
    &&& forall|i: int| 0 <= i < ix.reverse.len() ==> (#[trigger] ix.reverse[i]).from.len() > 0
    &&& forall|i: int, k: int|
        0 <= i < ix.reverse.len() && 0 <= k < ix.reverse[i].from.len() ==> targets_spec(ix, (#[trigger] ix.reverse[i].from[k]).0).contains(
            ix.reverse[i].target,
        )
}

/// `rs` is `r0` with backlinks from `src` appended to some targets, and new
/// targets (with backlinks from `src` only) appended; every target that
/// gained a backlink is in `t`.
pub open spec fn extends(r0: Seq<BacklinksView>, rs: Seq<BacklinksView>, src: SourceView, t: Seq<Seq<char>>) -> bool {
    &&& rs.len() >= r0.len()
    &&& forall|i: int| 0 <= i < r0.len() ==> {
        &&& (#[trigger] rs[i]).target == r0[i].target
        &&& rs[i].from.len() >= r0[i].from.len()
        &&& rs[i].from.take(r0[i].from.len() as int) == r0[i].from
        &&& (forall|k: int| r0[i].from.len() <= k < rs[i].from.len() ==> (#[trigger] rs[i].from[k]).0 == src)
        &&& (rs[i].from.len() > r0[i].from.len() ==> t.contains(rs[i].target))
    }
    &&& forall|i: int| r0.len() <= i < rs.len() ==> {
        &&& (#[trigger] rs[i]).from.len() > 0
        &&& (forall|k: int| 0 <= k < rs[i].from.len() ==> (#[trigger] rs[i].from[k]).0 == src)
        &&& t.contains(rs[i].target)
    }
}

proof fn lemma_find_target(rs: Seq<BacklinksView>, target: Seq<char>)
    ensures
        match find_target(rs, target) {
            Some(i) => 0 <= i < rs.len() && rs[i].target == target,
            None => forall|j: int| 0 <= j < rs.len() ==> (#[trigger] rs[j]).target != target,
        },
    decreases rs.len(),
{
    if rs.len() > 0 {
        lemma_find_target(rs.drop_last(), target);
        if rs.last().target != target {
            assert forall|j: int| 0 <= j < rs.len() - 1 implies rs.drop_last()[j] == #[trigger] rs[j] by {}
        }
    }
}

proof fn lemma_find_source(fs: Seq<TargetsView>, source: SourceView)
    ensures
        match find_source(fs, source) {
            Some(i) => 0 <= i < fs.len() && fs[i].source == source && forall|j: int| i < j < fs.len() ==> (#[trigger] fs[j]).source != source,
            None => forall|j: int| 0 <= j < fs.len() ==> (#[trigger] fs[j]).source != source,
        },
    decreases fs.len(),
{
    if fs.len() > 0 {
        lemma_find_source(fs.drop_last(), source);
        if fs.last().source != source {
            assert forall|j: int| 0 <= j < fs.len() - 1 implies fs.drop_last()[j] == #[trigger] fs[j] by {}
        }
    }
}

/// Finding a source after its entry was replaced by one for the same source.
proof fn lemma_find_source_update(fs: Seq<TargetsView>, source: SourceView, i: int, e: TargetsView)
    requires
        find_source(fs, source) == Some(i),
        e.source == source,
    ensures
        find_source(fs.update(i, e), source) == Some(i),
    decreases fs.len(),
{
    lemma_find_source(fs, source);
    let u = fs.update(i, e);
    if i < fs.len() - 1 {
        assert(fs.last().source != source);
        assert(u.drop_last() =~= fs.drop_last().update(i, e));
        assert(find_source(fs.drop_last(), source) == Some(i));
        lemma_find_source_update(fs.drop_last(), source, i, e);
    }
}

proof fn lemma_pairs_not_from_none(ps: Seq<(SourceView, u64)>, src: SourceView)
    requires
        forall|k: int| 0 <= k < ps.len() ==> (#[trigger] ps[k]).0 != src,
    ensures
        pairs_not_from(ps, src) == ps,
    decreases ps.len(),
{
    if ps.len() > 0 {
        lemma_pairs_not_from_none(ps.drop_last(), src);
        assert(ps.drop_last().push(ps.last()) =~= ps);
    }
}

proof fn lemma_pairs_not_from_clean(ps: Seq<(SourceView, u64)>, src: SourceView)
    ensures
        forall|k: int| 0 <= k < pairs_not_from(ps, src).len() ==> (#[trigger] pairs_not_from(ps, src)[k]).0 != src,
    decreases ps.len(),
{
    if ps.len() > 0 {
        lemma_pairs_not_from_clean(ps.drop_last(), src);
        let r = pairs_not_from(ps.drop_last(), src);
        let res = pairs_not_from(ps, src);
        assert forall|k: int| 0 <= k < res.len() implies (#[trigger] res[k]).0 != src by {
            if k < r.len() {
                assert(res[k] == r[k]);
            }
        }
    }
}

/// Dropping the pairs from `src` of `p0` followed by pairs from `src` gives
/// `p0` back, when `p0` has none from `src`.
proof fn lemma_pairs_not_from_appended(p0: Seq<(SourceView, u64)>, ps: Seq<(SourceView, u64)>, src: SourceView)
    requires
        ps.len() >= p0.len(),
        ps.take(p0.len() as int) == p0,
        forall|k: int| p0.len() <= k < ps.len() ==> (#[trigger] ps[k]).0 == src,
        forall|k: int| 0 <= k < p0.len() ==> (#[trigger] p0[k]).0 != src,
    ensures
        pairs_not_from(ps, src) == p0,
    decreases ps.len(),
{
    if ps.len() > p0.len() {
        assert(ps.last() == ps[ps.len() - 1]);
        assert(ps.drop_last().take(p0.len() as int) =~= p0);
        lemma_pairs_not_from_appended(p0, ps.drop_last(), src);
    } else {
        assert(ps =~= p0);
        lemma_pairs_not_from_none(p0, src);
    }
}

/// Unlinking `src` from the targets it had leaves no backlink from it.
proof fn lemma_unlink_clean(rs: Seq<BacklinksView>, src: SourceView, gone: Seq<Seq<char>>)
    requires
        forall|i: int| 0 <= i < rs.len() ==> (#[trigger] rs[i]).from.len() > 0,
        forall|i: int, k: int|
            0 <= i < rs.len() && 0 <= k < rs[i].from.len() && (#[trigger] rs[i].from[k]).0 == src ==> gone.contains(rs[i].target),
    ensures
        clean_of(unlink_spec(rs, src, gone), src),
    decreases rs.len(),
{
    if rs.len() > 0 {
        let d = rs.drop_last();
        assert forall|i: int| 0 <= i < d.len() implies (#[trigger] d[i]).from.len() > 0 by {
            assert(d[i] == rs[i]);
        }
        assert forall|i: int, k: int|
            0 <= i < d.len() && 0 <= k < d[i].from.len() && (#[trigger] d[i].from[k]).0 == src implies gone.contains(d[i].target) by {
            assert(d[i] == rs[i]);
        }
        lemma_unlink_clean(d, src, gone);
        let e = rs.last();
        assert(e == rs[rs.len() - 1]);
        lemma_pairs_not_from_clean(e.from, src);
        if !gone.contains(e.target) {
            assert forall|k: int| 0 <= k < e.from.len() implies (#[trigger] e.from[k]).0 != src by {
                assert(rs[rs.len() - 1].from[k] == e.from[k]);
            }
        }
    }
}

/// Undoing what linking added: unlinking `src` from the targets it gained
/// backlinks on gives back the clean index it started from.
proof fn lemma_unlink_extends(r0: Seq<BacklinksView>, rs: Seq<BacklinksView>, src: SourceView, t: Seq<Seq<char>>)
    requires
        clean_of(r0, src),
        extends(r0, rs, src, t),
    ensures
        unlink_spec(rs, src, t) == r0,
    decreases rs.len(),
{
    if rs.len() == 0 {
        assert(r0 =~= Seq::<BacklinksView>::empty());
    } else if rs.len() > r0.len() {
        let e = rs.last();
        assert(e == rs[rs.len() - 1]);
        assert(extends(r0, rs.drop_last(), src, t)) by {
            assert forall|i: int| 0 <= i < r0.len() implies #[trigger] rs.drop_last()[i] == rs[i] by {}
            assert forall|i: int| r0.len() <= i < rs.drop_last().len() implies #[trigger] rs.drop_last()[i] == rs[i] by {}
        }
        lemma_unlink_extends(r0, rs.drop_last(), src, t);
        lemma_pairs_not_from_appended(Seq::empty(), e.from, src);
    } else {
        let e = rs.last();
        let e0 = r0.last();
        let n = r0.len() - 1;
        assert(e == rs[n] && e0 == r0[n]);
        let d0 = r0.drop_last();
        assert(clean_of(d0, src)) by {
            assert forall|i: int| 0 <= i < d0.len() implies #[trigger] d0[i] == r0[i] by {}
        }
        assert(extends(d0, rs.drop_last(), src, t)) by {
            assert forall|i: int| 0 <= i < d0.len() implies #[trigger] rs.drop_last()[i] == rs[i] && d0[i] == r0[i] by {}
        }
        lemma_unlink_extends(d0, rs.drop_last(), src, t);
        assert forall|k: int| 0 <= k < e0.from.len() implies (#[trigger] e0.from[k]).0 != src by {
            assert(r0[n].from[k] == e0.from[k]);
        }
        if t.contains(e.target) {
            lemma_pairs_not_from_appended(e0.from, e.from, src);
        } else {
            assert(e.from =~= e0.from);
        }
        assert(d0.push(e0) =~= r0);
    }
}

proof fn lemma_add_name_keeps(t: Seq<Seq<char>>, x: Seq<char>)
    ensures
        add_name(t, x).contains(x),
        forall|y: Seq<char>| t.contains(y) ==> add_name(t, x).contains(y),
{
    if !t.contains(x) {
        assert(t.push(x)[t.len() as int] == x);
        assert forall|y: Seq<char>| t.contains(y) implies add_name(t, x).contains(y) by {
            let k = choose|k: int| 0 <= k < t.len() && t[k] == y;
            assert(t.push(x)[k] == y);
        }
    }
}

/// One backlink added keeps the extension, with its target noted.
proof fn lemma_link_extends(
    r0: Seq<BacklinksView>,
    rs: Seq<BacklinksView>,
    src: SourceView,
    t: Seq<Seq<char>>,
    target: Seq<char>,
    block: u64,
)
    requires
        extends(r0, rs, src, t),
    ensures
        extends(r0, link_spec(rs, target, src, block), src, add_name(t, target)),
{
    lemma_find_target(rs, target);
    lemma_add_name_keeps(t, target);
    let t2 = add_name(t, target);
    match find_target(rs, target) {
        Some(i) => {
            if !rs[i].from.contains((src, block)) {
                let r2 = rs.update(i, BacklinksView { target, from: rs[i].from.push((src, block)) });
                assert forall|j: int| 0 <= j < r0.len() implies {
                    &&& (#[trigger] r2[j]).target == r0[j].target
                    &&& r2[j].from.len() >= r0[j].from.len()
                    &&& r2[j].from.take(r0[j].from.len() as int) == r0[j].from
                    &&& (forall|k: int| r0[j].from.len() <= k < r2[j].from.len() ==> (#[trigger] r2[j].from[k]).0 == src)
                    &&& (r2[j].from.len() > r0[j].from.len() ==> t2.contains(r2[j].target))
                } by {
                    if j == i {
                        assert(r2[j].from.take(r0[j].from.len() as int) =~= rs[j].from.take(r0[j].from.len() as int));
                        assert forall|k: int| r0[j].from.len() <= k < r2[j].from.len() implies (#[trigger] r2[j].from[k]).0 == src by {
                            if k < rs[j].from.len() {
                                assert(r2[j].from[k] == rs[j].from[k]);
                            }
                        }
                    }
                }
                assert forall|j: int| r0.len() <= j < r2.len() implies {
                    &&& (#[trigger] r2[j]).from.len() > 0
                    &&& (forall|k: int| 0 <= k < r2[j].from.len() ==> (#[trigger] r2[j].from[k]).0 == src)
                    &&& t2.contains(r2[j].target)
                } by {
                    if j == i {
                        assert forall|k: int| 0 <= k < r2[j].from.len() implies (#[trigger] r2[j].from[k]).0 == src by {
                            if k < rs[j].from.len() {
                                assert(r2[j].from[k] == rs[j].from[k]);
                            }
                        }
                    }
                }
            }
        },
        None => {
            let r2 = rs.push(BacklinksView { target, from: seq![(src, block)] });
            assert forall|j: int| 0 <= j < r0.len() implies #[trigger] r2[j] == rs[j] by {}
            assert forall|j: int| r0.len() <= j < r2.len() implies {
                &&& (#[trigger] r2[j]).from.len() > 0
                &&& (forall|k: int| 0 <= k < r2[j].from.len() ==> (#[trigger] r2[j].from[k]).0 == src)
                &&& t2.contains(r2[j].target)
            } by {
                if j < rs.len() {
                    assert(r2[j] == rs[j]);
                }
            }
        },
    }
}

proof fn lemma_link_targets_extends(
    r0: Seq<BacklinksView>,
    rs: Seq<BacklinksView>,
    src: SourceView,
    t: Seq<Seq<char>>,
    block: u64,
    ts: Seq<Seq<char>>,
    n: int,
)
    requires
        extends(r0, rs, src, t),
        0 <= n <= ts.len(),
    ensures
        extends(r0, link_targets_spec(rs, src, block, ts, n), src, add_names(t, ts.take(n))),
    decreases n,
{
    if n == 0 {
        assert(ts.take(0) =~= Seq::<Seq<char>>::empty());
    } else {
        lemma_link_targets_extends(r0, rs, src, t, block, ts, n - 1);
        lemma_link_extends(
            r0,
            link_targets_spec(rs, src, block, ts, n - 1),
            src,
            add_names(t, ts.take(n - 1)),
            ts[n - 1],
            block,
        );
        assert(ts.take(n).drop_last() =~= ts.take(n - 1));
        assert(ts.take(n).last() == ts[n - 1]);
    }
}

/// Linking the blocks of a page extends the index, noting each target in
/// the page's targets.
proof fn lemma_link_blocks_extends(r0: Seq<BacklinksView>, src: SourceView, blocks: Seq<Node>, n: int)
    requires
        0 <= n <= blocks.len(),
    ensures
        extends(r0, link_blocks_spec(r0, src, blocks, n).0, src, link_blocks_spec(r0, src, blocks, n).1),
    decreases n,
{
    if n == 0 {
        assert(extends(r0, r0, src, Seq::empty())) by {
            assert forall|i: int| 0 <= i < r0.len() implies (#[trigger] r0[i]).from.take(r0[i].from.len() as int) == r0[i].from by {
                assert(r0[i].from.take(r0[i].from.len() as int) =~= r0[i].from);
            }
        }
    } else {
        lemma_link_blocks_extends(r0, src, blocks, n - 1);
        let (r, ts) = link_blocks_spec(r0, src, blocks, n - 1);
        let here = links_in_text_spec(blocks[n - 1].text);
        lemma_link_targets_extends(r0, r, src, ts, blocks[n - 1].id, here, here.len() as int);
        assert(here.take(here.len() as int) =~= here);
    }
}

/// The targets noted while linking depend on the blocks alone.
proof fn lemma_link_blocks_targets(a: Seq<BacklinksView>, b: Seq<BacklinksView>, src: SourceView, blocks: Seq<Node>, n: int)
    ensures
        link_blocks_spec(a, src, blocks, n).1 == link_blocks_spec(b, src, blocks, n).1,
    decreases n,
{
    if n > 0 {
        lemma_link_blocks_targets(a, b, src, blocks, n - 1);
    }
}

pub open spec fn unique_targets(rs: Seq<BacklinksView>) -> bool {
    forall|i: int, j: int| 0 <= i < j < rs.len() ==> (#[trigger] rs[i]).target != (#[trigger] rs[j]).target
}

/// Each entry of an unlinked index comes from an entry of the index with
/// the same target and all its backlinks, and the targets stay distinct.
proof fn lemma_unlink_from(rs: Seq<BacklinksView>, src: SourceView, gone: Seq<Seq<char>>)
    requires
        unique_targets(rs),
    ensures
        unique_targets(unlink_spec(rs, src, gone)),
        forall|i: int| 0 <= i < unlink_spec(rs, src, gone).len() ==> exists|j: int| 0 <= j < rs.len() && (#[trigger] rs[j]).target
            == (#[trigger] unlink_spec(rs, src, gone)[i]).target && forall|k: int|
            0 <= k < unlink_spec(rs, src, gone)[i].from.len() ==> rs[j].from.contains(#[trigger] unlink_spec(rs, src, gone)[i].from[k]),
    decreases rs.len(),
{
    if rs.len() > 0 {
        let d = rs.drop_last();
        assert(unique_targets(d)) by {
            assert forall|i: int, j: int| 0 <= i < j < d.len() implies (#[trigger] d[i]).target != (#[trigger] d[j]).target by {
                assert(d[i] == rs[i] && d[j] == rs[j]);
            }
        }
        lemma_unlink_from(d, src, gone);
        let r = unlink_spec(d, src, gone);
        let res = unlink_spec(rs, src, gone);
        let e = rs.last();
        let n = rs.len() - 1;
        assert(e == rs[n]);
        assert forall|i: int| 0 <= i < r.len() implies exists|j: int| 0 <= j < n && (#[trigger] rs[j]).target == (#[trigger] r[i]).target by {
            let j = choose|j: int| 0 <= j < d.len() && (#[trigger] d[j]).target == r[i].target && forall|k: int|
                0 <= k < r[i].from.len() ==> d[j].from.contains(#[trigger] r[i].from[k]);
            assert(d[j] == rs[j]);
        }
        let f = pairs_not_from(e.from, src);
        lemma_pairs_not_from_sub(e.from, src);
        assert forall|i: int, j: int| 0 <= i < j < res.len() implies (#[trigger] res[i]).target != (#[trigger] res[j]).target by {
            if j == r.len() {
                assert(res[i] == r[i]);
                let q = choose|q: int| 0 <= q < n && (#[trigger] rs[q]).target == r[i].target;
                assert(rs[q].target != rs[n].target);
            } else {
                assert(res[i] == r[i] && res[j] == r[j]);
            }
        }
        assert forall|i: int| 0 <= i < res.len() implies exists|j: int| 0 <= j < rs.len() && (#[trigger] rs[j]).target
            == (#[trigger] res[i]).target && forall|k: int| 0 <= k < res[i].from.len() ==> rs[j].from.contains(#[trigger] res[i].from[k]) by {
            if i < r.len() {
                assert(res[i] == r[i]);
                let j = choose|j: int| 0 <= j < d.len() && (#[trigger] d[j]).target == r[i].target && forall|k: int|
                    0 <= k < r[i].from.len() ==> d[j].from.contains(#[trigger] r[i].from[k]);
                assert(d[j] == rs[j]);
            } else {
                assert(rs[n].target == res[i].target);
                assert forall|k: int| 0 <= k < res[i].from.len() implies rs[n].from.contains(#[trigger] res[i].from[k]) by {
                    if gone.contains(e.target) {
                        assert(res[i].from == f);
                    } else {
                        assert(res[i].from[k] == rs[n].from[k]);
                    }
                }
            }
        }
    }
}

proof fn lemma_pairs_not_from_sub(ps: Seq<(SourceView, u64)>, src: SourceView)
    ensures
        forall|k: int| 0 <= k < pairs_not_from(ps, src).len() ==> ps.contains(#[trigger] pairs_not_from(ps, src)[k]),
    decreases ps.len(),
{
    if ps.len() > 0 {
        lemma_pairs_not_from_sub(ps.drop_last(), src);
        let r = pairs_not_from(ps.drop_last(), src);
        let res = pairs_not_from(ps, src);
        assert forall|k: int| 0 <= k < res.len() implies ps.contains(#[trigger] res[k]) by {
            if k < r.len() {
                assert(res[k] == r[k]);
                let q = choose|q: int| 0 <= q < ps.drop_last().len() && ps.drop_last()[q] == r[k];
                assert(ps[q] == r[k]);
            } else {
                assert(ps[ps.len() - 1] == res[k]);
            }
        }
    }
}

proof fn lemma_link_unique(rs: Seq<BacklinksView>, target: Seq<char>, src: SourceView, block: u64)
    requires
        unique_targets(rs),
    ensures
        unique_targets(link_spec(rs, target, src, block)),
{
    lemma_find_target(rs, target);
    let r2 = link_spec(rs, target, src, block);
    assert forall|i: int, j: int| 0 <= i < j < r2.len() implies (#[trigger] r2[i]).target != (#[trigger] r2[j]).target by {
        if j < rs.len() {
            assert(r2[i].target == rs[i].target && r2[j].target == rs[j].target);
        } else {
            assert(r2[i] == rs[i]);
        }
    }
}

proof fn lemma_link_targets_unique(rs: Seq<BacklinksView>, src: SourceView, block: u64, ts: Seq<Seq<char>>, n: int)
    requires
        unique_targets(rs),
    ensures
        unique_targets(link_targets_spec(rs, src, block, ts, n)),
    decreases n,
{
    if n > 0 {
        lemma_link_targets_unique(rs, src, block, ts, n - 1);
        lemma_link_unique(link_targets_spec(rs, src, block, ts, n - 1), ts[n - 1], src, block);
    }
}

proof fn lemma_link_blocks_unique(rs: Seq<BacklinksView>, src: SourceView, blocks: Seq<Node>, n: int)
    requires
        unique_targets(rs),
    ensures
        unique_targets(link_blocks_spec(rs, src, blocks, n).0),
    decreases n,
{
    if n > 0 {
        lemma_link_blocks_unique(rs, src, blocks, n - 1);
        let (r, ts) = link_blocks_spec(rs, src, blocks, n - 1);
        let here = links_in_text_spec(blocks[n - 1].text);
        lemma_link_targets_unique(r, src, blocks[n - 1].id, here, here.len() as int);
    }
}

/// Replacing or adding the entry of one source leaves where the others are
/// found.
proof fn lemma_find_other_source(fs: Seq<TargetsView>, i: int, e: TargetsView, u: SourceView)
    requires
        0 <= i < fs.len(),
        fs[i].source == e.source,
        e.source != u,
    ensures
        find_source(fs.update(i, e), u) == find_source(fs, u),
        find_source(fs.push(e), u) == find_source(fs, u),
    decreases fs.len(),
{
    let v = fs.update(i, e);
    assert(fs.push(e).drop_last() =~= fs);
    if i < fs.len() - 1 {
        lemma_find_other_source(fs.drop_last(), i, e, u);
        assert(v.drop_last() =~= fs.drop_last().update(i, e));
        assert(v.last() == fs.last());
    } else {
        assert(v.drop_last() =~= fs.drop_last());
    }
}

proof fn lemma_find_other_source_push(fs: Seq<TargetsView>, e: TargetsView, u: SourceView)
    requires
        e.source != u,
    ensures
        find_source(fs.push(e), u) == find_source(fs, u),
{
    assert(fs.push(e).drop_last() =~= fs);
}

/// Law: re-indexing a page or journal keeps the index well formed (see
/// `links_wf`).
pub proof fn law_reindex_links_keeps_wf(ix: LinkIndexView, source: SourceView, outline: Seq<Node>)
    requires
        links_wf(ix),
    ensures
        links_wf(reindex_links_spec(ix, source, outline)),
{
    let prev = targets_spec(ix, source);
    let r0 = unlink_spec(ix.reverse, source, prev);
    lemma_unlink_clean(ix.reverse, source, prev);
    lemma_unlink_from(ix.reverse, source, prev);
    let bs = nodes(outline);
    let (r1, ts1) = link_blocks_spec(r0, source, bs, bs.len() as int);
    lemma_link_blocks_extends(r0, source, bs, bs.len() as int);
    lemma_link_blocks_unique(r0, source, bs, bs.len() as int);
    let ix1 = reindex_links_spec(ix, source, outline);
    lemma_find_source(ix.forward, source);
    // Where the other pages' targets are found does not change.
    assert forall|u: SourceView| u != source implies #[trigger] targets_spec(ix1, u) == targets_spec(ix, u) by {
        match find_source(ix.forward, source) {
            Some(i) => {
                assert(ix1.forward == ix.forward.update(i, TargetsView { source, targets: ts1 }));
                lemma_find_other_source(ix.forward, i, TargetsView { source, targets: ts1 }, u);
                assert(find_source(ix1.forward, u) == find_source(ix.forward, u));
            },
            None => {
                assert(ix1.forward == ix.forward.push(TargetsView { source, targets: ts1 }));
                lemma_find_other_source_push(ix.forward, TargetsView { source, targets: ts1 }, u);
                assert(find_source(ix1.forward, u) == find_source(ix.forward, u));
            },
        }
        match find_source(ix.forward, u) {
            Some(j) => {
                assert(ix1.forward[j] == ix.forward[j]) by {
                    lemma_find_source(ix.forward, u);
                    match find_source(ix.forward, source) {
                        Some(i) => {
                            assert(i != j);
                        },
                        None => {},
                    }
                }
            },
            None => {},
        }
    }
    assert(targets_spec(ix1, source) == ts1) by {
        match find_source(ix.forward, source) {
            Some(i) => lemma_find_source_update(ix.forward, source, i, TargetsView { source, targets: ts1 }),
            None => {
                assert(ix.forward.push(TargetsView { source, targets: ts1 }).drop_last() =~= ix.forward);
            },
        }
    }
    assert forall|i: int, k: int|
        0 <= i < r1.len() && 0 <= k < r1[i].from.len() implies targets_spec(ix1, (#[trigger] r1[i].from[k]).0).contains(r1[i].target) by {
        if i < r0.len() && k < r0[i].from.len() {
            assert(r1[i].from.take(r0[i].from.len() as int)[k] == r1[i].from[k]);
            let p = r0[i].from[k];
            assert(p.0 != source);
            let j = choose|j: int| 0 <= j < ix.reverse.len() && (#[trigger] ix.reverse[j]).target == r0[i].target && forall|q: int|
                0 <= q < r0[i].from.len() ==> ix.reverse[j].from.contains(#[trigger] r0[i].from[q]);
            assert(ix.reverse[j].from.contains(p));
            let q = choose|q: int| 0 <= q < ix.reverse[j].from.len() && ix.reverse[j].from[q] == p;
            assert(targets_spec(ix, ix.reverse[j].from[q].0).contains(ix.reverse[j].target));
        }
    }
    assert forall|i: int| 0 <= i < r1.len() implies (#[trigger] r1[i]).from.len() > 0 by {
        if i < r0.len() {
            assert(r0[i].from.len() > 0);
        }
    }
}

/// Law: re-indexing a page or journal forgets what it was indexed with
/// before: the index after re-indexing it from `first` and then from
/// `second` is the index after re-indexing it from `second` alone (so
/// re-indexing twice from the same outline is re-indexing once).
pub proof fn law_reindex_links_replaces(ix: LinkIndexView, source: SourceView, first: Seq<Node>, second: Seq<Node>)
    requires
        links_wf(ix),
    ensures
        reindex_links_spec(reindex_links_spec(ix, source, first), source, second) == reindex_links_spec(ix, source, second),
{
    let prev = targets_spec(ix, source);
    let r0 = unlink_spec(ix.reverse, source, prev);
    assert forall|i: int, k: int|
        0 <= i < ix.reverse.len() && 0 <= k < ix.reverse[i].from.len() && (#[trigger] ix.reverse[i].from[k]).0 == source implies prev.contains(
        ix.reverse[i].target,
    ) by {}
    lemma_unlink_clean(ix.reverse, source, prev);
    let b1 = nodes(first);
    let (r1, ts1) = link_blocks_spec(r0, source, b1, b1.len() as int);
    lemma_link_blocks_extends(r0, source, b1, b1.len() as int);
    lemma_unlink_extends(r0, r1, source, ts1);
    let ix1 = reindex_links_spec(ix, source, first);
    lemma_find_source(ix.forward, source);
    match find_source(ix.forward, source) {
        Some(i) => {
            lemma_find_source_update(ix.forward, source, i, TargetsView { source, targets: ts1 });
            assert(ix1.forward.update(i, TargetsView { source, targets: link_blocks_spec(r0, source, nodes(second), nodes(second).len() as int).1 })
                =~= ix.forward.update(i, TargetsView { source, targets: link_blocks_spec(r0, source, nodes(second), nodes(second).len() as int).1 }));
        },
        None => {
            let f1 = ix.forward.push(TargetsView { source, targets: ts1 });
            assert(f1.drop_last() =~= ix.forward);
            assert(find_source(f1, source) == Some(ix.forward.len() as int));
            assert(f1.update(ix.forward.len() as int, TargetsView { source, targets: link_blocks_spec(r0, source, nodes(second), nodes(second).len() as int).1 })
                =~= ix.forward.push(TargetsView { source, targets: link_blocks_spec(r0, source, nodes(second), nodes(second).len() as int).1 }));
        },
    }
    if let SourceView::Page(n) = source {
        lemma_add_name_keeps(ix.pages, n);
    }
}

// ---------------------------------------------------------------------------
// What a link gives back.

/// Some entry of `rs` for target `t` holds the backlink `p`.
pub open spec fn has_link(rs: Seq<BacklinksView>, t: Seq<char>, p: (SourceView, u64)) -> bool {
    exists|i: int| #![trigger rs[i]] 0 <= i < rs.len() && rs[i].target == t && rs[i].from.contains(p)
}

proof fn lemma_link_has(rs: Seq<BacklinksView>, target: Seq<char>, src: SourceView, block: u64)
    ensures
        has_link(link_spec(rs, target, src, block), target, (src, block)),
        forall|t: Seq<char>, p: (SourceView, u64)|
            has_link(rs, t, p) ==> #[trigger] has_link(link_spec(rs, target, src, block), t, p),
{
    lemma_find_target(rs, target);
    let r2 = link_spec(rs, target, src, block);
    let x = (src, block);
    match find_target(rs, target) {
        Some(i) => {
            if rs[i].from.contains(x) {
                assert(r2[i] == rs[i]);
            } else {
                assert(r2[i].from.last() == x);
                assert(r2[i].from[r2[i].from.len() - 1] == x);
            }
        },
        None => {
            assert(r2[rs.len() as int].from[0] == x);
        },
    }
    assert forall|t: Seq<char>, p: (SourceView, u64)| has_link(rs, t, p) implies #[trigger] has_link(r2, t, p) by {
        let i = choose|i: int| #![trigger rs[i]] 0 <= i < rs.len() && rs[i].target == t && rs[i].from.contains(p);
        let k = choose|k: int| 0 <= k < rs[i].from.len() && rs[i].from[k] == p;
        match find_target(rs, target) {
            Some(i2) => {
                if i == i2 && !rs[i].from.contains(x) {
                    assert(r2[i].from[k] == p);
                } else {
                    assert(r2[i] == rs[i]);
                }
            },
            None => {
                assert(r2[i] == rs[i]);
            },
        }
    }
}

proof fn lemma_link_targets_has(rs: Seq<BacklinksView>, src: SourceView, block: u64, ts: Seq<Seq<char>>, n: int)
    requires
        0 <= n <= ts.len(),
    ensures
        forall|t: Seq<char>, p: (SourceView, u64)|
            has_link(rs, t, p) ==> #[trigger] has_link(link_targets_spec(rs, src, block, ts, n), t, p),
        forall|m: int| 0 <= m < n ==> has_link(link_targets_spec(rs, src, block, ts, n), #[trigger] ts[m], (src, block)),
    decreases n,
{
    if n > 0 {
        lemma_link_targets_has(rs, src, block, ts, n - 1);
        let r = link_targets_spec(rs, src, block, ts, n - 1);
        lemma_link_has(r, ts[n - 1], src, block);
    }
}

proof fn lemma_link_blocks_has(rs: Seq<BacklinksView>, src: SourceView, blocks: Seq<Node>, n: int)
    requires
        0 <= n <= blocks.len(),
    ensures
        forall|m: int, x: Seq<char>|
            0 <= m < n && links_in_text_spec(blocks[m].text).contains(x) ==> #[trigger] has_link(
                link_blocks_spec(rs, src, blocks, n).0,
                x,
                (src, blocks[m].id),
            ),
    decreases n,
{
    if n > 0 {
        lemma_link_blocks_has(rs, src, blocks, n - 1);
        let r = link_blocks_spec(rs, src, blocks, n - 1).0;
        let here = links_in_text_spec(blocks[n - 1].text);
        lemma_link_targets_has(r, src, blocks[n - 1].id, here, here.len() as int);
        assert forall|m: int, x: Seq<char>|
            0 <= m < n && links_in_text_spec(blocks[m].text).contains(x) implies #[trigger] has_link(
            link_blocks_spec(rs, src, blocks, n).0,
            x,
            (src, blocks[m].id),
        ) by {
            if m == n - 1 {
                let q = choose|q: int| 0 <= q < here.len() && here[q] == x;
                assert(has_link(link_blocks_spec(rs, src, blocks, n).0, here[q], (src, blocks[n - 1].id)));
            } else {
                assert(has_link(r, x, (src, blocks[m].id)));
            }
        }
    }
}

proof fn lemma_insert_pair_has(s: Seq<(SourceView, u64)>, x: (SourceView, u64))
    ensures
        insert_pair(s, x).contains(x),
        forall|y: (SourceView, u64)| s.contains(y) ==> #[trigger] insert_pair(s, x).contains(y),
    decreases s.len(),
{
    let r = insert_pair(s, x);
    if s.len() == 0 {
        assert(r[0] == x);
    } else if pair_lt(x, s.last()) {
        let d = s.drop_last();
        lemma_insert_pair_has(d, x);
        let rd = insert_pair(d, x);
        let q = choose|q: int| 0 <= q < rd.len() && rd[q] == x;
        assert(r[q] == x);
        assert forall|y: (SourceView, u64)| s.contains(y) implies #[trigger] r.contains(y) by {
            let k = choose|k: int| 0 <= k < s.len() && s[k] == y;
            if k == s.len() - 1 {
                assert(r[r.len() - 1] == y);
            } else {
                assert(d[k] == y);
                assert(d.contains(y));
                assert(rd.contains(y));
                let q2 = choose|q2: int| 0 <= q2 < rd.len() && rd[q2] == y;
                assert(r[q2] == y);
            }
        }
    } else {
        assert(r[r.len() - 1] == x);
        assert forall|y: (SourceView, u64)| s.contains(y) implies #[trigger] r.contains(y) by {
            let k = choose|k: int| 0 <= k < s.len() && s[k] == y;
            assert(r[k] == y);
        }
    }
}

proof fn lemma_sort_pairs_has(s: Seq<(SourceView, u64)>)
    ensures
        forall|y: (SourceView, u64)| s.contains(y) ==> #[trigger] sort_pairs(s).contains(y),
    decreases s.len(),
{
    if s.len() > 0 {
        let d = s.drop_last();
        lemma_sort_pairs_has(d);
        lemma_insert_pair_has(sort_pairs(d), s.last());
        assert forall|y: (SourceView, u64)| s.contains(y) implies #[trigger] sort_pairs(s).contains(y) by {
            let k = choose|k: int| 0 <= k < s.len() && s[k] == y;
            if k < s.len() - 1 {
                assert(d[k] == y);
            }
        }
    }
}

/// Law: every link written in a page or journal is read back as a backlink:
/// after re-indexing `source` from its outline, the backlinks of each page
/// that a block links to include that source and block.
pub proof fn law_links_become_backlinks(
    ix: LinkIndexView,
    source: SourceView,
    outline: Seq<Node>,
    j: int,
    target: Seq<char>,
)
    requires
        links_wf(ix),
        0 <= j < nodes(outline).len(),
        links_in_text_spec(nodes(outline)[j].text).contains(target),
    ensures
        backlinks_spec(reindex_links_spec(ix, source, outline), target).contains((source, nodes(outline)[j].id)),
{
    let prev = targets_spec(ix, source);
    let r0 = unlink_spec(ix.reverse, source, prev);
    lemma_unlink_from(ix.reverse, source, prev);
    let bs = nodes(outline);
    lemma_link_blocks_unique(r0, source, bs, bs.len() as int);
    lemma_link_blocks_has(r0, source, bs, bs.len() as int);
    let rs = link_blocks_spec(r0, source, bs, bs.len() as int).0;
    let p = (source, bs[j].id);
    assert(has_link(rs, target, p));
    let i = choose|i: int| #![trigger rs[i]] 0 <= i < rs.len() && rs[i].target == target && rs[i].from.contains(p);
    lemma_find_target(rs, target);
    let i2 = find_target(rs, target)->0;
    assert(i2 == i);
    lemma_sort_pairs_has(rs[i].from);
    assert(reindex_links_spec(ix, source, outline).reverse == rs);
}

/// Law: indexing a journal never makes it a known page: the pages the index
/// knows are unchanged, so a date never shows as a page or a completion.
pub proof fn law_journals_stay_out_of_pages(ix: LinkIndexView, date: JournalDate, outline: Seq<Node>)
    ensures
        reindex_links_spec(ix, SourceView::Journal(date), outline).pages == ix.pages,
{
}

// ---------------------------------------------------------------------------
// The order of backlinks.

/// `r` lists pages before journals, pages by name and journals oldest first,
/// and the blocks of one source in increasing order.
pub open spec fn in_backlink_order(r: Seq<(SourceView, u64)>) -> bool {
    forall|i: int, j: int|
        0 <= i < j < r.len() ==> {
            &&& ((#[trigger] r[i]).0 is Journal ==> (#[trigger] r[j]).0 is Journal)
            &&& (r[i].0 matches SourceView::Journal(a) ==> (r[j].0 matches SourceView::Journal(b) ==> !dated_after(a, b)))
            &&& (r[i].0 matches SourceView::Page(x) ==> (r[j].0 matches SourceView::Page(y) ==> !str_lt(y, x)))
            &&& (r[i].0 == r[j].0 ==> r[i].1 <= r[j].1)
        }
}

/// No pair of `s` sorts before an earlier one.
spec fn pairs_sorted(s: Seq<(SourceView, u64)>) -> bool {
    forall|i: int, j: int| 0 <= i < j < s.len() ==> !pair_lt(#[trigger] s[j], #[trigger] s[i])
}

proof fn lemma_source_lt_total(a: SourceView, b: SourceView)
    ensures
        a != b ==> source_lt(a, b) || source_lt(b, a),
        source_lt(a, b) ==> !source_lt(b, a),
{
    match a {
        SourceView::Page(x) => {
            if let SourceView::Page(y) = b {
                crate::text::lemma_str_lt_total(x, y);
                crate::text::lemma_str_lt_asym(x, y);
            }
        },
        SourceView::Journal(x) => {
            if let SourceView::Journal(y) = b {
                if x.y() == y.y() && x.m() == y.m() && x.d() == y.d() {
                    crate::journal::lemma_date_ext(x, y);
                }
            }
        },
    }
}

proof fn lemma_source_lt_split(a: SourceView, b: SourceView, c: SourceView)
    ensures
        source_lt(a, c) ==> source_lt(a, b) || source_lt(b, c),
{
    if let SourceView::Page(x) = a {
        if let SourceView::Page(y) = b {
            if let SourceView::Page(z) = c {
                crate::text::lemma_str_lt_split(x, y, z);
            }
        }
    }
}

proof fn lemma_pair_lt_order(a: (SourceView, u64), b: (SourceView, u64), c: (SourceView, u64))
    ensures
        pair_lt(a, b) ==> !pair_lt(b, a),
        pair_lt(a, c) ==> pair_lt(a, b) || pair_lt(b, c),
{
    lemma_source_lt_total(a.0, b.0);
    lemma_source_lt_total(b.0, c.0);
    lemma_source_lt_total(a.0, c.0);
    lemma_source_lt_split(a.0, b.0, c.0);
}

proof fn lemma_insert_pair_sorted(s: Seq<(SourceView, u64)>, x: (SourceView, u64))
    requires
        pairs_sorted(s),
    ensures
        pairs_sorted(insert_pair(s, x)),
        forall|y: (SourceView, u64)| #[trigger] insert_pair(s, x).contains(y) <==> (y == x || s.contains(y)),
    decreases s.len(),
{
    let r = insert_pair(s, x);
    if s.len() == 0 {
        assert(r =~= seq![x]);
        assert forall|y: (SourceView, u64)| #[trigger] r.contains(y) <==> (y == x || s.contains(y)) by {
            if r.contains(y) {
                assert(r[0] == y);
            }
            if y == x {
                assert(r[0] == y);
            }
        }
    } else if pair_lt(x, s.last()) {
        let d = s.drop_last();
        let last = s.last();
        assert(pairs_sorted(d)) by {
            assert forall|i: int, j: int| 0 <= i < j < d.len() implies !pair_lt(#[trigger] d[j], #[trigger] d[i]) by {
                assert(d[i] == s[i] && d[j] == s[j]);
            }
        }
        lemma_insert_pair_sorted(d, x);
        let m = insert_pair(d, x);
        assert(r == m.push(last));
        lemma_pair_lt_order(x, last, x);
        assert forall|i: int, j: int| 0 <= i < j < r.len() implies !pair_lt(#[trigger] r[j], #[trigger] r[i]) by {
            if j < m.len() {
                assert(r[i] == m[i] && r[j] == m[j]);
            } else {
                assert(r[j] == last);
                assert(r[i] == m[i]);
                assert(m.contains(m[i]));
                if m[i] != x {
                    assert(d.contains(m[i]));
                    let k = choose|k: int| 0 <= k < d.len() && d[k] == m[i];
                    assert(s[k] == d[k]);
                    assert(s[s.len() - 1] == last);
                }
            }
        }
        assert forall|y: (SourceView, u64)| #[trigger] r.contains(y) <==> (y == x || s.contains(y)) by {
            if r.contains(y) {
                let k = choose|k: int| 0 <= k < r.len() && r[k] == y;
                if k < m.len() {
                    assert(m[k] == y);
                    assert(m.contains(y));
                    if y != x {
                        let q = choose|q: int| 0 <= q < d.len() && d[q] == y;
                        assert(s[q] == y);
                    }
                } else {
                    assert(s[s.len() - 1] == y);
                }
            }
            if y == x {
                assert(m.contains(y));
                let q = choose|q: int| 0 <= q < m.len() && m[q] == y;
                assert(r[q] == y);
            } else if s.contains(y) {
                let k = choose|k: int| 0 <= k < s.len() && s[k] == y;
                if k < s.len() - 1 {
                    assert(d[k] == y);
                    assert(d.contains(y));
                    assert(m.contains(y));
                    let q = choose|q: int| 0 <= q < m.len() && m[q] == y;
                    assert(r[q] == y);
                } else {
                    assert(r[r.len() - 1] == y);
                }
            }
        }
    } else {
        assert(r == s.push(x));
        assert forall|i: int, j: int| 0 <= i < j < r.len() implies !pair_lt(#[trigger] r[j], #[trigger] r[i]) by {
            if j < s.len() {
                assert(r[i] == s[i] && r[j] == s[j]);
            } else {
                assert(r[j] == x && r[i] == s[i]);
                if i < s.len() - 1 {
                    assert(!pair_lt(s[s.len() - 1], s[i]));
                    lemma_pair_lt_order(x, s[s.len() - 1], s[i]);
                }
            }
        }
        assert forall|y: (SourceView, u64)| #[trigger] r.contains(y) <==> (y == x || s.contains(y)) by {
            if r.contains(y) {
                let k = choose|k: int| 0 <= k < r.len() && r[k] == y;
                if k < s.len() {
                    assert(s[k] == y);
                }
            }
            if y == x {
                assert(r[r.len() - 1] == y);
            } else if s.contains(y) {
                let k = choose|k: int| 0 <= k < s.len() && s[k] == y;
                assert(r[k] == y);
            }
        }
    }
}

proof fn lemma_sort_pairs_sorted(s: Seq<(SourceView, u64)>)
    ensures
        pairs_sorted(sort_pairs(s)),
        forall|y: (SourceView, u64)| #[trigger] sort_pairs(s).contains(y) <==> s.contains(y),
    decreases s.len(),
{
    if s.len() > 0 {
        let d = s.drop_last();
        lemma_sort_pairs_sorted(d);
        lemma_insert_pair_sorted(sort_pairs(d), s.last());
        assert forall|y: (SourceView, u64)| #[trigger] sort_pairs(s).contains(y) <==> s.contains(y) by {
            if s.contains(y) && y != s.last() {
                let k = choose|k: int| 0 <= k < s.len() && s[k] == y;
                assert(d[k] == y);
                assert(d.contains(y));
            }
            if d.contains(y) {
                let k = choose|k: int| 0 <= k < d.len() && d[k] == y;
                assert(s[k] == y);
            }
            if y == s.last() {
                assert(s[s.len() - 1] == y);
            }
        }
    } else {
        assert(sort_pairs(s) =~= Seq::<(SourceView, u64)>::empty());
    }
}

/// Law: the backlinks of a target come pages first, by name, then journals,
/// oldest first, each source's blocks in increasing order; and each of
/// them is a link recorded in the index.
pub proof fn law_backlink_order(ix: LinkIndexView, target: Seq<char>)
    ensures
        in_backlink_order(backlinks_spec(ix, target)),
        forall|p: (SourceView, u64)| #[trigger] backlinks_spec(ix, target).contains(p) ==> has_link(ix.reverse, target, p),
{
    let r = backlinks_spec(ix, target);
    lemma_find_target(ix.reverse, target);
    match find_target(ix.reverse, target) {
        Some(i) => {
            lemma_sort_pairs_sorted(ix.reverse[i].from);
            assert forall|p: (SourceView, u64)| #[trigger] r.contains(p) implies has_link(ix.reverse, target, p) by {
                assert(ix.reverse[i].from.contains(p));
            }
        },
        None => {
            assert(r =~= Seq::<(SourceView, u64)>::empty());
        },
    }
    assert forall|i: int, j: int| 0 <= i < j < r.len() implies {
        &&& ((#[trigger] r[i]).0 is Journal ==> (#[trigger] r[j]).0 is Journal)
        &&& (r[i].0 matches SourceView::Journal(a) ==> (r[j].0 matches SourceView::Journal(b) ==> !dated_after(a, b)))
        &&& (r[i].0 matches SourceView::Page(x) ==> (r[j].0 matches SourceView::Page(y) ==> !str_lt(y, x)))
        &&& (r[i].0 == r[j].0 ==> r[i].1 <= r[j].1)
    } by {
        assert(!pair_lt(r[j], r[i]));
    }
}

proof fn lemma_insert_pair_at(s: Seq<(SourceView, u64)>, x: (SourceView, u64), p: int)
    requires
        0 <= p <= s.len(),
        forall|q: int| p <= q < s.len() ==> pair_lt(x, #[trigger] s[q]),
        p == 0 || !pair_lt(x, s[p - 1]),
    ensures
        insert_pair(s, x) == s.take(p).push(x) + s.skip(p),
    decreases s.len(),
{
    if s.len() == 0 {
        assert(s.take(p).push(x) + s.skip(p) =~= seq![x]);
    } else if pair_lt(x, s.last()) {
        lemma_insert_pair_at(s.drop_last(), x, p);
        assert(s.drop_last().take(p) == s.take(p));
        assert(s.take(p).push(x) + s.skip(p) =~= (s.take(p).push(x) + s.drop_last().skip(p)).push(
            s.last(),
        ));
    } else {
        assert(p == s.len());
        assert(s.take(p).push(x) + s.skip(p) =~= s.push(x));
    }
}

pub open spec fn pairs_view(v: Seq<(TagSource, BlockId)>) -> Seq<(SourceView, u64)> {
    v.map_values(|p: (TagSource, BlockId)| pair_view(p))
}

fn source_before(a: &TagSource, b: &TagSource) -> (r: bool)
    ensures
        r == source_lt(source_view(*a), source_view(*b)),
{
    match a {
        TagSource::Page(x) => match b {
            TagSource::Page(y) => str_less(x.as_str(), y.as_str()),
            TagSource::Journal(_) => true,
        },
        TagSource::Journal(x) => match b {
            TagSource::Page(_) => false,
            TagSource::Journal(y) => x.year() < y.year() || (x.year() == y.year() && (x.month()
                < y.month() || (x.month() == y.month() && x.day() < y.day()))),
        },
    }
}

fn pair_before(a: &(TagSource, BlockId), b: &(TagSource, BlockId)) -> (r: bool)
    ensures
        r == pair_lt(pair_view(*a), pair_view(*b)),
{
    source_before(&a.0, &b.0) || (same_source(&a.0, &b.0) && a.1.0 < b.1.0)
}

/// Inserts `n` into `s`, ordered by lower-case form, after every name
/// whose lower-case form does not sort after it.
pub open spec fn insert_by_lower(s: Seq<Seq<char>>, n: Seq<char>) -> Seq<Seq<char>>
    decreases s.len(),
{
    if s.len() == 0 {
        seq![n]
    } else if str_lt(lowercase(n), lowercase(s.last())) {
        insert_by_lower(s.drop_last(), n).push(s.last())
    } else {
        s.push(n)
    }
}

/// `s` ordered by lower-case form, ties keeping their order.
pub open spec fn sort_by_lower(s: Seq<Seq<char>>) -> Seq<Seq<char>>
    decreases s.len(),
{
    if s.len() == 0 {
        Seq::empty()
    } else {
        insert_by_lower(sort_by_lower(s.drop_last()), s.last())
    }
}

proof fn lemma_insert_lower_at(s: Seq<Seq<char>>, n: Seq<char>, p: int)
    requires
        0 <= p <= s.len(),
        forall|q: int| p <= q < s.len() ==> str_lt(lowercase(n), lowercase(#[trigger] s[q])),
        p == 0 || !str_lt(lowercase(n), lowercase(s[p - 1])),
    ensures
        insert_by_lower(s, n) == s.take(p).push(n) + s.skip(p),
    decreases s.len(),
{
    if s.len() == 0 {
        assert(s.take(p).push(n) + s.skip(p) =~= seq![n]);
    } else if str_lt(lowercase(n), lowercase(s.last())) {
        lemma_insert_lower_at(s.drop_last(), n, p);
        assert(s.drop_last().take(p) == s.take(p));
        assert(s.take(p).push(n) + s.skip(p) =~= (s.take(p).push(n) + s.drop_last().skip(p)).push(
            s.last(),
        ));
    } else {
        assert(p == s.len());
        assert(s.take(p).push(n) + s.skip(p) =~= s.push(n));
    }
}

/// The blocks of `outline`, nested ones included, in preorder, whose text
/// links to page `target` (a link in code does not count).
pub fn blocks_linking_to(outline: &Outline, target: &str) -> (r: Vec<BlockId>)
    ensures
        r@.map_values(|b: BlockId| b.0) == linking_ids(nodes(outline@), target@),
{
    let blocks = all_blocks(outline.roots());
    let ghost bs = nodes(outline@);
    let wanted = target.to_owned();
    let mut out: Vec<BlockId> = Vec::new();
    let mut k: usize = 0;
    assert(bs.take(0) =~= Seq::<Node>::empty());
    assert(out@.map_values(|b: BlockId| b.0) =~= Seq::<u64>::empty());
    while k < blocks.len()
        invariant
            k <= blocks.len(),
            blocks@.map_values(|b: &Block| view_block(*b)) == bs,
            wanted@ == target@,
            out@.map_values(|b: BlockId| b.0) == linking_ids(bs.take(k as int), target@),
        decreases blocks.len() - k,
    {
        let b = blocks[k];
        assert(bs[k as int] == view_block(*b));
        let here = page_links_in_text(b.text.as_str());
        let ghost hv = names_view(here@);
        let mut hit = false;
        let mut j: usize = 0;
        while j < here.len()
            invariant
                j <= here.len(),
                hv == names_view(here@),
                wanted@ == target@,
                hit == exists|q: int| 0 <= q < j && hv[q] == target@,
            decreases here.len() - j,
        {
            if here[j] == wanted {
                hit = true;
            }
            assert(hv[j as int] == here@[j as int]@);
            j += 1;
        }
        assert(hit == hv.contains(target@));
        assert(bs.take(k + 1).drop_last() =~= bs.take(k as int));
        assert(bs.take(k + 1).last() == bs[k as int]);
        if hit {
            let ghost o0 = out@;
            out.push(b.id);
            assert(out@.map_values(|b: BlockId| b.0) =~= o0.map_values(|b: BlockId| b.0).push(b.id.0));
        }
        k += 1;
    }
    assert(bs.take(blocks.len() as int) =~= bs);
    out
}

impl Default for LinkIndex {
    fn default() -> (r: LinkIndex)
        ensures
            r@ == (LinkIndexView { reverse: Seq::empty(), forward: Seq::empty(), pages: Seq::empty() }),
            r.wf(),
    {
        LinkIndex::new()
    }
}

impl LinkIndex {
    /// The index is well formed (see `links_wf`).
    pub closed spec fn wf(&self) -> bool {
        links_wf(self@)
    }

    /// An empty index.
    pub fn new() -> (r: LinkIndex)
        ensures
            r@ == (LinkIndexView { reverse: Seq::empty(), forward: Seq::empty(), pages: Seq::empty() }),
            r.wf(),
    {
        let r = LinkIndex { reverse: Vec::new(), forward: Vec::new(), pages: Vec::new() };
        assert(r@.reverse =~= Seq::<BacklinksView>::empty());
        assert(r@.forward =~= Seq::<TargetsView>::empty());
        assert(r@.pages =~= Seq::<Seq<char>>::empty());
        r
    }

    /// Whether the index knows page `name`.
    pub fn page_exists(&self, name: &str) -> (r: bool)
        ensures
            r == self@.pages.contains(name@),
    {
        let ghost ps = self@.pages;
        let n = name.to_owned();
        let mut i: usize = 0;
        while i < self.pages.len()
            invariant
                i <= self.pages.len(),
                n@ == name@,
                ps == self@.pages,
                ps == names_view(self.pages@),
                forall|j: int| 0 <= j < i ==> ps[j] != name@,
            decreases self.pages.len() - i,
        {
            if self.pages[i] == n {
                assert(ps[i as int] == name@);
                return true;
            }
            i += 1;
        }
        false
    }

    /// The pages that page `source` links to, each once.
    pub fn targets(&self, source: &str) -> (r: Vec<String>)
        ensures
            names_view(r@) == targets_spec(self@, SourceView::Page(source@)),
    {
        let ghost fs = self@.forward;
        let ghost sv = SourceView::Page(source@);
        let src = TagSource::Page(source.to_owned());
        let mut i = self.forward.len();
        while i > 0 && !same_source(&self.forward[i - 1].source, &src)
            invariant
                i <= self.forward.len(),
                fs == self@.forward,
                source_view(src) == sv,
                find_source(fs, sv) == find_source(fs.take(i as int), sv),
            decreases i,
        {
            assert(fs.take(i as int).drop_last() =~= fs.take(i - 1));
            assert(fs.take(i as int).last() == fs[i - 1]);
            assert(fs[i - 1].source == source_view(self.forward@[i - 1].source));
            i -= 1;
        }
        let mut out: Vec<String> = Vec::new();
        if i == 0 {
            assert(names_view(out@) =~= Seq::<Seq<char>>::empty());
            return out;
        }
        assert(fs.take(i as int).last() == fs[i - 1]);
        assert(fs[i - 1] == targets_view(self.forward@[i - 1]));
        let t = &self.forward[i - 1].targets;
        let mut j: usize = 0;
        while j < t.len()
            invariant
                j <= t.len(),
                names_view(out@) == names_view(t@).take(j as int),
            decreases t.len() - j,
        {
            let ghost o0 = out@;
            let c = t[j].clone();
            out.push(c);
            assert(names_view(t@)[j as int] == t@[j as int]@);
            assert(c@ == t@[j as int]@);
            assert(out@ =~= o0.push(c));
            assert(names_view(out@) =~= names_view(o0).push(c@));
            assert(names_view(t@).take(j + 1) =~= names_view(t@).take(j as int).push(names_view(t@)[j as int]));
            j += 1;
        }
        assert(names_view(t@).take(t.len() as int) =~= names_view(t@));
        out
    }

    /// The (source, block) pairs that link to `target`, pages and journals
    /// alike: ordered by source (pages by name, then journals by date), then
    /// block.
    pub fn backlinks(&self, target: &str) -> (r: Vec<(TagSource, BlockId)>)
        ensures
            pairs_view(r@) == backlinks_spec(self@, target@),
    {
        let ghost rs = self@.reverse;
        let tgt = target.to_owned();
        let mut i = self.reverse.len();
        while i > 0 && !(self.reverse[i - 1].target == tgt)
            invariant
                i <= self.reverse.len(),
                rs == self@.reverse,
                tgt@ == target@,
                find_target(rs, target@) == find_target(rs.take(i as int), target@),
            decreases i,
        {
            assert(rs.take(i as int).drop_last() =~= rs.take(i - 1));
            assert(rs.take(i as int).last() == rs[i - 1]);
            assert(rs[i - 1].target == self.reverse@[i - 1].target@);
            i -= 1;
        }
        let mut out: Vec<(TagSource, BlockId)> = Vec::new();
        if i == 0 {
            assert(pairs_view(out@) =~= Seq::<(SourceView, u64)>::empty());
            return out;
        }
        assert(rs.take(i as int).last() == rs[i - 1]);
        assert(rs[i - 1] == backlinks_view(self.reverse@[i - 1]));
        let from = &self.reverse[i - 1].from;
        let ghost fv = pairs_view(from@);
        let mut k: usize = 0;
        assert(fv.take(0) =~= Seq::<(SourceView, u64)>::empty());
        assert(pairs_view(out@) =~= Seq::<(SourceView, u64)>::empty());
        while k < from.len()
            invariant
                k <= from.len(),
                fv == pairs_view(from@),
                pairs_view(out@) == sort_pairs(fv.take(k as int)),
            decreases from.len() - k,
        {
            let x = (copy_source(&from[k].0), from[k].1);
            let ghost xv = pair_view(x);
            assert(xv == fv[k as int]);
            let ghost cur = pairs_view(out@);
            let mut p = out.len();
            while p > 0 && pair_before(&x, &out[p - 1])
                invariant
                    p <= out.len(),
                    cur == pairs_view(out@),
                    xv == pair_view(x),
                    forall|q: int| p <= q < out.len() ==> pair_lt(xv, #[trigger] cur[q]),
                decreases p,
            {
                assert(cur[p - 1] == pair_view(out@[p - 1]));
                p -= 1;
            }
            proof {
                lemma_insert_pair_at(cur, xv, p as int);
                assert(fv.take(k + 1).drop_last() =~= fv.take(k as int));
                assert(fv.take(k + 1).last() == xv);
            }
            out.insert(p, x);
            assert(pairs_view(out@) =~= cur.take(p as int).push(xv) + cur.skip(p as int));
            k += 1;
        }
        assert(fv.take(from.len() as int) =~= fv);
        out
    }

    /// Drops the backlinks from `source` to the targets in `prev`; targets
    /// left without backlinks go.
    fn unlink(&mut self, source: &TagSource, prev: &Vec<String>)
        ensures
            final(self)@ == (LinkIndexView {
                reverse: unlink_spec(old(self)@.reverse, source_view(*source), names_view(prev@)),
                ..old(self)@
            }),
    {
        let ghost ov = names_view(prev@);
        let ghost ix = self@;
        let mut rest: Vec<Backlinks> = Vec::new();
        std::mem::swap(&mut self.reverse, &mut rest);
        let ghost all = rest@;
        let ghost rs = all.map_values(|b: Backlinks| backlinks_view(b));
        assert(rs == ix.reverse);
        let ghost mut i: int = 0;
        assert(rs.take(0) =~= Seq::<BacklinksView>::empty());
        assert(self.reverse@.map_values(|b: Backlinks| backlinks_view(b)) =~= Seq::<BacklinksView>::empty());
        while rest.len() > 0
            invariant
                0 <= i <= all.len(),
                rs == all.map_values(|b: Backlinks| backlinks_view(b)),
                rest@ == all.skip(i),
                ov == names_view(prev@),
                self.reverse@.map_values(|b: Backlinks| backlinks_view(b)) == unlink_spec(rs.take(i), source_view(*source), ov),
                self.forward@.map_values(|t: Targets| targets_view(t)) == ix.forward,
                names_view(self.pages@) == ix.pages,
            decreases rest.len(),
        {
            let ghost r0 = rest@;
            assert(r0[0] == all[i]);
            let e = rest.remove(0);
            assert(rest@ =~= all.skip(i + 1));
            proof {
                assert(rs.take(i + 1).drop_last() =~= rs.take(i));
                assert(rs.take(i + 1).last() == backlinks_view(e));
            }
            // Is the target one of the old ones?
            let mut hit = false;
            let mut j: usize = 0;
            while j < prev.len()
                invariant
                    j <= prev.len(),
                    ov == names_view(prev@),
                    hit == exists|q: int| 0 <= q < j && ov[q] == e.target@,
                decreases prev.len() - j,
            {
                if prev[j] == e.target {
                    hit = true;
                }
                assert(ov[j as int] == prev@[j as int]@);
                j += 1;
            }
            assert(hit == ov.contains(e.target@));
            let ghost before = self.reverse@;
            if hit {
                let Backlinks { target, from } = e;
                let ghost fv = pairs_view(from@);
                let ghost fall = from@;
                let mut frest = from;
                let mut kept: Vec<(TagSource, BlockId)> = Vec::new();
                let ghost mut k: int = 0;
                assert(fv.take(0) =~= Seq::<(SourceView, u64)>::empty());
                assert(pairs_view(kept@) =~= Seq::<(SourceView, u64)>::empty());
                while frest.len() > 0
                    invariant
                        0 <= k <= fall.len(),
                        fv == pairs_view(fall),
                        frest@ == fall.skip(k),
                        pairs_view(kept@) == pairs_not_from(fv.take(k), source_view(*source)),
                    decreases frest.len(),
                {
                    let ghost f0 = frest@;
                    assert(f0[0] == fall[k]);
                    let pr = frest.remove(0);
                    assert(frest@ =~= fall.skip(k + 1));
                    assert(fv.take(k + 1).drop_last() =~= fv.take(k));
                    assert(fv.take(k + 1).last() == pair_view(pr));
                    if !same_source(&pr.0, source) {
                        let ghost kb = kept@;
                        kept.push(pr);
                        assert(pairs_view(kept@) =~= pairs_view(kb).push(pair_view(pr)));
                    }
                    proof {
                        k = k + 1;
                    }
                }
                assert(fv.take(k) =~= fv);
                if kept.len() > 0 {
                    let ne = Backlinks { target, from: kept };
                    self.reverse.push(ne);
                    assert(self.reverse@.map_values(|b: Backlinks| backlinks_view(b)) =~= before.map_values(
                        |b: Backlinks| backlinks_view(b),
                    ).push(backlinks_view(ne)));
                }
            } else {
                let ghost ev = backlinks_view(e);
                self.reverse.push(e);
                assert(self.reverse@.map_values(|b: Backlinks| backlinks_view(b)) =~= before.map_values(
                    |b: Backlinks| backlinks_view(b),
                ).push(ev));
            }
            proof {
                i = i + 1;
            }
        }
        assert(rs.take(i) =~= rs);
        assert(self@.reverse == unlink_spec(ix.reverse, source_view(*source), ov));
        assert(self@.forward == ix.forward);
        assert(self@.pages == ix.pages);
    }

    /// Adds the backlink `(source, block)` to `target`, unless it is there.
    fn link(&mut self, target: String, source: &TagSource, block: BlockId)
        ensures
            final(self)@ == (LinkIndexView {
                reverse: link_spec(old(self)@.reverse, target@, source_view(*source), block.0),
                ..old(self)@
            }),
    {
        let ghost ix = self@;
        let ghost rs = ix.reverse;
        let mut i = self.reverse.len();
        while i > 0 && !(self.reverse[i - 1].target == target)
            invariant
                i <= self.reverse.len(),
                rs == self@.reverse,
                find_target(rs, target@) == find_target(rs.take(i as int), target@),
            decreases i,
        {
            assert(rs.take(i as int).drop_last() =~= rs.take(i - 1));
            assert(rs.take(i as int).last() == rs[i - 1]);
            assert(rs[i - 1].target == self.reverse@[i - 1].target@);
            i -= 1;
        }
        let pr = (copy_source(source), block);
        let ghost pv = pair_view(pr);
        if i == 0 {
            let ghost t0 = target@;
            let from = vec![pr];
            assert(pairs_view(from@) =~= seq![pv]);
            self.reverse.push(Backlinks { target, from });
            assert(self@.reverse =~= rs.push(BacklinksView { target: t0, from: seq![pv] }));
            return;
        }
        assert(rs.take(i as int).last() == rs[i - 1]);
        assert(find_target(rs, target@) == Some(i - 1));
        let ghost fv = rs[i - 1].from;
        let mut found = false;
        {
            let from = &self.reverse[i - 1].from;
            assert(fv == pairs_view(from@));
            let mut j: usize = 0;
            while j < from.len()
                invariant
                    j <= from.len(),
                    fv == pairs_view(from@),
                    pv == pair_view(pr),
                    found == exists|q: int| 0 <= q < j && fv[q] == pv,
                decreases from.len() - j,
            {
                if same_source(&from[j].0, &pr.0) && from[j].1.0 == pr.1.0 {
                    found = true;
                }
                assert(fv[j as int] == pair_view(from@[j as int]));
                j += 1;
            }
        }
        assert(found == fv.contains(pv));
        if found {
            return;
        }
        let mut e = self.reverse.remove(i - 1);
        let ghost f0 = e.from@;
        e.from.push(pr);
        assert(pairs_view(e.from@) =~= pairs_view(f0).push(pv));
        self.reverse.insert(i - 1, e);
        assert(self@.reverse =~= rs.update(i - 1, BacklinksView { target: target@, from: fv.push(pv) }));
    }

    /// Builds an index from every page `(name, body)` and then every
    /// journal `(date, body)`, in order, their blocks taking fresh ids from
    /// `ids`: journals are link sources too, but only pages become known
    /// pages.
    #[verifier::spinoff_prover]
    #[verifier::rlimit(60)]
    pub fn rebuild_from_pages(
        pages: &[(String, String)],
        journals: &[(JournalDate, String)],
        ids: &mut IdSource,
    ) -> (r: LinkIndex)
        requires
            forall|i: int| 0 <= i < pages@.len() ==> (#[trigger] pages@[i]).1@.len() <= usize::MAX / 2,
            forall|i: int| 0 <= i < journals@.len() ==> (#[trigger] journals@[i]).1@.len() <= usize::MAX / 2,
            old(ids).upcoming() + chars_read(
                sources_of(
                    pages@.map_values(|p: (String, String)| (p.0@, p.1@)),
                    journals@.map_values(|j: (JournalDate, String)| (j.0, j.1@)),
                ),
            ) < u64::MAX,
        ensures
            r.wf(),
            r@ == rebuild_links_spec(
                pages@.map_values(|p: (String, String)| (p.0@, p.1@)),
                journals@.map_values(|j: (JournalDate, String)| (j.0, j.1@)),
                old(ids).upcoming() as int,
            ),
            final(ids).upcoming() == old(ids).upcoming() + blocks_read(
                sources_of(
                    pages@.map_values(|p: (String, String)| (p.0@, p.1@)),
                    journals@.map_values(|j: (JournalDate, String)| (j.0, j.1@)),
                ),
            ),
    {
        let ghost pv = pages@.map_values(|p: (String, String)| (p.0@, p.1@));
        let ghost jv = journals@.map_values(|j: (JournalDate, String)| (j.0, j.1@));
        let ghost all = sources_of(pv, jv);
        let ghost first = old(ids).upcoming() as int;
        let ghost np = pages@.len();
        let mut index = LinkIndex::new();
        assert(all.take(0) =~= Seq::<(SourceView, Seq<char>)>::empty());
        assert(index@ == rebuild_sources_spec(all.take(0), first));
        let mut i: usize = 0;
        while i < pages.len()
            invariant
                i <= pages.len(),
                np == pages@.len(),
                pv == pages@.map_values(|p: (String, String)| (p.0@, p.1@)),
                all == sources_of(pv, jv),
                all.len() == np + journals@.len(),
                forall|j: int| 0 <= j < pages@.len() ==> (#[trigger] pages@[j]).1@.len() <= usize::MAX / 2,
                first + chars_read(all) < u64::MAX,
                ids.upcoming() == first + blocks_read(all.take(i as int)),
                index.wf(),
                index@ == rebuild_sources_spec(all.take(i as int), first),
            decreases pages.len() - i,
        {
            assert(all[i as int] == (SourceView::Page(pv[i as int].0), pv[i as int].1));
            proof {
                lemma_source_step(all, i as int);
            }
            let outline = Outline::parse(pages[i].1.as_str(), ids);
            let src = TagSource::Page(pages[i].0.clone());
            index.reindex_source(&src, &outline);
            i += 1;
        }
        let mut k: usize = 0;
        while k < journals.len()
            invariant
                k <= journals.len(),
                np == pages@.len(),
                jv == journals@.map_values(|j: (JournalDate, String)| (j.0, j.1@)),
                all == sources_of(pv, jv),
                all.len() == np + journals@.len(),
                forall|j: int| 0 <= j < journals@.len() ==> (#[trigger] journals@[j]).1@.len() <= usize::MAX / 2,
                first + chars_read(all) < u64::MAX,
                ids.upcoming() == first + blocks_read(all.take(np + k)),
                index.wf(),
                index@ == rebuild_sources_spec(all.take(np + k), first),
            decreases journals.len() - k,
        {
            assert(all[np + k] == (SourceView::Journal(jv[k as int].0), jv[k as int].1));
            proof {
                lemma_source_step(all, np + k);
            }
            let outline = Outline::parse(journals[k].1.as_str(), ids);
            let src = TagSource::Journal(journals[k].0);
            index.reindex_source(&src, &outline);
            k += 1;
        }
        assert(all.take((np + journals@.len()) as int) =~= all);
        index
    }

    /// Replaces all the links indexed for `page` with those of its current
    /// outline.
    pub fn reindex_page(&mut self, page: &Page)
        requires
            old(self).wf(),
        ensures
            final(self).wf(),
            final(self)@ == reindex_links_spec(old(self)@, SourceView::Page(page@.name), page@.outline),
    {
        self.reindex_outline(page.name(), page.outline());
    }

    /// Re-indexes the links of page `source` from its outline (see
    /// `reindex_source`).
    pub fn reindex_outline(&mut self, source: &String, outline: &Outline)
        requires
            old(self).wf(),
        ensures
            final(self).wf(),
            final(self)@ == reindex_links_spec(old(self)@, SourceView::Page(source@), outline@),
    {
        let src = TagSource::Page(source.clone());
        self.reindex_source(&src, outline);
    }

    /// Re-indexes the links of `source`, a page or a journal, from its
    /// outline: its old backlinks go, then each block adds a backlink for
    /// each page it links to, and its targets are the pages its blocks link
    /// to; a page becomes known, a journal does not.
    #[verifier::rlimit(40)]
    pub fn reindex_source(&mut self, source: &TagSource, outline: &Outline)
        requires
            old(self).wf(),
        ensures
            final(self).wf(),
            final(self)@ == reindex_links_spec(old(self)@, source_view(*source), outline@),
    {
        let ghost sv = source_view(*source);
        proof {
            law_reindex_links_keeps_wf(self@, sv, outline@);
        }
        let ghost ix = self@;
        // The page's old targets.
        let ghost fs = ix.forward;
        let mut fi = self.forward.len();
        while fi > 0 && !same_source(&self.forward[fi - 1].source, source)
            invariant
                fi <= self.forward.len(),
                fs == self@.forward,
                sv == source_view(*source),
                find_source(fs, sv) == find_source(fs.take(fi as int), sv),
            decreases fi,
        {
            assert(fs.take(fi as int).drop_last() =~= fs.take(fi - 1));
            assert(fs.take(fi as int).last() == fs[fi - 1]);
            assert(fs[fi - 1].source == source_view(self.forward@[fi - 1].source));
            fi -= 1;
        }
        let mut prev: Vec<String> = Vec::new();
        if fi > 0 {
            assert(fs.take(fi as int).last() == fs[fi - 1]);
            let t = &self.forward[fi - 1].targets;
            let mut j: usize = 0;
            while j < t.len()
                invariant
                    j <= t.len(),
                    names_view(prev@) == names_view(t@).take(j as int),
                decreases t.len() - j,
            {
                let ghost o0 = prev@;
                let c = t[j].clone();
                prev.push(c);
                assert(names_view(t@)[j as int] == t@[j as int]@);
                assert(prev@ =~= o0.push(c));
                assert(names_view(prev@) =~= names_view(o0).push(c@));
                assert(names_view(t@).take(j + 1) =~= names_view(t@).take(j as int).push(names_view(t@)[j as int]));
                j += 1;
            }
            assert(names_view(t@).take(t.len() as int) =~= names_view(t@));
            assert(fs[fi - 1] == targets_view(self.forward@[fi - 1]));
        } else {
            assert(names_view(prev@) =~= Seq::<Seq<char>>::empty());
        }
        let ghost oldv = match find_source(fs, sv) {
            Some(i) => fs[i].targets,
            None => Seq::<Seq<char>>::empty(),
        };
        assert(names_view(prev@) == oldv);
        self.unlink(source, &prev);
        let ghost base = self@.reverse;
        // Each block's links.
        let blocks = all_blocks(outline.roots());
        let ghost bs = nodes(outline@);
        let mut ts: Vec<String> = Vec::new();
        let mut k: usize = 0;
        assert(names_view(ts@) =~= Seq::<Seq<char>>::empty());
        while k < blocks.len()
            invariant
                k <= blocks.len(),
                blocks@.map_values(|b: &Block| view_block(*b)) == bs,
                (self@.reverse, names_view(ts@)) == link_blocks_spec(base, sv, bs, k as int),
                sv == source_view(*source),
                self@.forward == ix.forward,
                self@.pages == ix.pages,
                self.forward@.len() == fs.len(),
            decreases blocks.len() - k,
        {
            let b = blocks[k];
            let ghost bn = bs[k as int];
            assert(bn == view_block(*b));
            let here = page_links_in_text(b.text.as_str());
            let ghost hv = names_view(here@);
            let ghost r0 = self@.reverse;
            let ghost t0 = names_view(ts@);
            let mut t: usize = 0;
            while t < here.len()
                invariant
                    t <= here.len(),
                    hv == names_view(here@),
                    hv == links_in_text_spec(bn.text),
                    bn.id == b.id.0,
                    self@.reverse == link_targets_spec(r0, sv, bn.id, hv, t as int),
                    sv == source_view(*source),
                    names_view(ts@) == add_names(t0, hv.take(t as int)),
                    self@.forward == ix.forward,
                    self@.pages == ix.pages,
                    self.forward@.len() == fs.len(),
                decreases here.len() - t,
            {
                assert(hv[t as int] == here@[t as int]@);
                self.link(here[t].clone(), source, b.id);
                proof {
                    assert(hv.take(t + 1).drop_last() =~= hv.take(t as int));
                    assert(hv.take(t + 1).last() == hv[t as int]);
                    assert(self@.forward.len() == self.forward@.len());
                }
                add_link(&mut ts, here[t].clone());
                t += 1;
            }
            assert(hv.take(here.len() as int) =~= hv);
            k += 1;
        }
        let ghost tsv = names_view(ts@);
        // A page becomes known; the source's targets are replaced.
        match source {
            TagSource::Page(n) => add_link(&mut self.pages, n.clone()),
            TagSource::Journal(_) => {},
        }
        if fi > 0 {
            let mut e = self.forward.remove(fi - 1);
            e.targets = ts;
            self.forward.insert(fi - 1, e);
            assert(self@.forward =~= ix.forward.update(fi - 1, TargetsView { source: sv, targets: tsv }));
        } else {
            let ne = Targets { source: copy_source(source), targets: ts };
            self.forward.push(ne);
            assert(self@.forward =~= ix.forward.push(TargetsView { source: sv, targets: tsv }));
        }
    }

    /// Every page the index knows, ordered by their lower-case forms (pages
    /// that differ only in case stay in the order they became known).
    pub fn page_names(&self) -> (r: Vec<String>)
        ensures
            names_view(r@) == sort_by_lower(self@.pages),
    {
        let ghost ps = self@.pages;
        let mut sorted: Vec<(String, String)> = Vec::new();
        let mut i: usize = 0;
        assert(ps.take(0) =~= Seq::<Seq<char>>::empty());
        assert(sorted@.map_values(|p: (String, String)| p.1@) =~= Seq::<Seq<char>>::empty());
        while i < self.pages.len()
            invariant
                i <= self.pages.len(),
                ps == names_view(self.pages@),
                sorted@.map_values(|p: (String, String)| p.1@) == sort_by_lower(ps.take(i as int)),
                forall|q: int| 0 <= q < sorted.len() ==> (#[trigger] sorted@[q]).0@ == lowercase(sorted@[q].1@),
            decreases self.pages.len() - i,
        {
            let name = self.pages[i].clone();
            let key = to_lower(name.as_str());
            let ghost cur = sorted@.map_values(|p: (String, String)| p.1@);
            let mut p = sorted.len();
            while p > 0 && str_less(key.as_str(), sorted[p - 1].0.as_str())
                invariant
                    p <= sorted.len(),
                    cur == sorted@.map_values(|p: (String, String)| p.1@),
                    forall|q: int| 0 <= q < sorted.len() ==> (#[trigger] sorted@[q]).0@ == lowercase(sorted@[q].1@),
                    key@ == lowercase(name@),
                    forall|q: int| p <= q < sorted.len() ==> str_lt(lowercase(name@), lowercase(#[trigger] cur[q])),
                decreases p,
            {
                assert(cur[p - 1] == sorted@[p - 1].1@);
                p -= 1;
            }
            proof {
                lemma_insert_lower_at(cur, name@, p as int);
                assert(ps.take(i + 1).drop_last() =~= ps.take(i as int));
                assert(ps.take(i + 1).last() == name@);
            }
            let ghost sb = sorted@;
            sorted.insert(p, (key, name));
            proof {
                assert(sorted@.map_values(|p: (String, String)| p.1@) =~= cur.take(p as int).push(ps[i as int])
                    + cur.skip(p as int));
                assert forall|q: int| 0 <= q < sorted.len() implies (#[trigger] sorted@[q]).0@ == lowercase(sorted@[q].1@) by {
                    if q < p {
                        assert(sorted@[q] == sb[q]);
                    } else if q > p {
                        assert(sorted@[q] == sb[q - 1]);
                    }
                }
            }
            i += 1;
        }
        assert(ps.take(self.pages.len() as int) =~= ps);
        let mut out: Vec<String> = Vec::new();
        let mut k: usize = 0;
        while k < sorted.len()
            invariant
                k <= sorted.len(),
                names_view(out@) == sorted@.map_values(|p: (String, String)| p.1@).take(k as int),
            decreases sorted.len() - k,
        {
            let ghost o0 = out@;
            let c = sorted[k].1.clone();
            out.push(c);
            assert(names_view(out@) =~= names_view(o0).push(c@));
            assert(sorted@.map_values(|p: (String, String)| p.1@).take(k + 1) =~= sorted@.map_values(
                |p: (String, String)| p.1@,
            ).take(k as int).push(sorted@[k as int].1@));
            k += 1;
        }
        assert(sorted@.map_values(|p: (String, String)| p.1@).take(sorted.len() as int) =~= sorted@.map_values(
            |p: (String, String)| p.1@,
        ));
        out
    }
}

} // verus!