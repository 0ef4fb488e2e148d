//! Lowering a block's markdown into a small tree of block and inline nodes.
//!
//! Covered: bold, italic, inline code, links, headings, fenced code blocks and
//! blockquotes. List events of the markdown parser are ignored: the outline
//! owns bullet nesting. Inline extensions (page links, tags) match byte ranges
//! inside plain-text runs and become nodes of their own.

use vstd::prelude::*;
use vstd::string::*;
use std::ops::Range;
use pulldown_cmark::{CodeBlockKind, Event, Options, Parser, Tag, TagEnd};
use crate::text::{
    byte_len, byte_offset, byte_offsets, byte_slice, char_at_byte, char_index_at, slice_bytes, chars_of, is_boundary,
    lemma_byte_offset_injective, lemma_byte_offset_mono, str_len, string_of,
};

verus! {

broadcast use vstd::seq_lib::group_seq_properties;

/// Inline emphasis in effect for a run of text.
#[derive(Clone, Copy, Debug, PartialEq, Eq, Structural)]
pub struct Style {
    pub bold: bool,
    pub italic: bool,
}

/// Neither bold nor italic.
pub open spec fn plain_style() -> Style {
    Style { bold: false, italic: false }
}

impl Default for Style {
    fn default() -> (s: Style)
        ensures
            s == plain_style(),
    {
        Style { bold: false, italic: false }
    }
}

/// A match of an inline extension on a run of text: a byte range and the
/// kind of node it becomes.
#[derive(Debug)]
pub struct ExtensionMatch {
    pub range: Range<usize>,
    pub kind: String,
}

/// The model of an extension match.
pub struct Found {
    pub start: int,
    pub end: int,
    pub kind: Seq<char>,
}

pub open spec fn found_view(m: ExtensionMatch) -> Found {
    Found { start: m.range.start as int, end: m.range.end as int, kind: m.kind@ }
}

/// `m` lies inside `text`, and both its ends are character boundaries.
pub open spec fn found_in(text: Seq<char>, m: Found) -> bool {
    &&& 0 <= m.start <= m.end <= byte_len(text)
    &&& is_boundary(text, m.start)
    &&& is_boundary(text, m.end)
}

/// A hook for token matchers such as page links and tags.
pub trait InlineExtension {
    /// The spans this extension matches in `text`. An implementation states
    /// them; the default matches nothing.
    open spec fn matched(&self, text: Seq<char>) -> Seq<Found> {
        Seq::empty()
    }

    /// Non-overlapping byte ranges within `text`, each starting and ending on
    /// a character boundary: the spans `matched` names. Overlaps across
    /// extensions are resolved by the lowering: the earliest start wins, then
    /// the earlier extension.
    fn extract(&self, text: &str) -> (r: Vec<ExtensionMatch>)
        ensures
            r@.map_values(|m: ExtensionMatch| found_view(m)) == self.matched(text@),
            forall|j: int| 0 <= j < r.len() ==> found_in(text@, #[trigger] found_view(r@[j])),
    ;
}

/// A matched span, as it appears in the lowered tree.
#[derive(Clone, Debug, PartialEq, Eq)]
pub struct ExtensionNode {
    pub kind: String,
    pub source: String,
    /// Index of the extension that matched, in the list given to `lower`.
    pub extension_idx: usize,
}

/// A piece of inline content.
#[derive(Debug, PartialEq, Eq)]
pub enum InlineNode {
    Text { text: String, style: Style },
    Code(String),
    Link { url: String, children: Vec<InlineNode> },
    Extension(ExtensionNode),
    SoftBreak,
    HardBreak,
}

/// A block-level piece of content.
#[derive(Debug, PartialEq, Eq)]
pub enum BlockNode {
    Paragraph(Vec<InlineNode>),
    Heading { level: u8, children: Vec<InlineNode> },
    CodeBlock { lang: Option<String>, text: String },
    Quote(Vec<BlockNode>),
}

/// The model of an inline node.
pub enum Inline {
    Text(Seq<char>, Style),
    Code(Seq<char>),
    Link(Seq<char>, Seq<Inline>),
    Ext(Seq<char>, Seq<char>, nat),
    SoftBreak,
    HardBreak,
}

/// The model of a block node.
pub enum Blk {
    Paragraph(Seq<Inline>),
    Heading(u8, Seq<Inline>),
    CodeBlock(Option<Seq<char>>, Seq<char>),
    Quote(Seq<Blk>),
}

pub open spec fn view_inline(n: InlineNode) -> Inline
    decreases n,
{
    match n {
        InlineNode::Text { text, style } => Inline::Text(text@, style),
        InlineNode::Code(t) => Inline::Code(t@),
        InlineNode::Link { url, children } => Inline::Link(url@, view_inlines(children@)),
        InlineNode::Extension(e) => Inline::Ext(e.kind@, e.source@, e.extension_idx as nat),
        InlineNode::SoftBreak => Inline::SoftBreak,
        InlineNode::HardBreak => Inline::HardBreak,
    }
}

pub open spec fn view_inlines(s: Seq<InlineNode>) -> Seq<Inline>
    decreases s,
{
    if s.len() == 0 {
        Seq::empty()
    } else {
        seq![view_inline(s[0])] + view_inlines(s.subrange(1, s.len() as int))
    }
}

pub open spec fn view_blk(b: BlockNode) -> Blk
    decreases b,
{
    match b {
        BlockNode::Paragraph(c) => Blk::Paragraph(view_inlines(c@)),
        BlockNode::Heading { level, children } => Blk::Heading(level, view_inlines(children@)),
        BlockNode::CodeBlock { lang, text } => Blk::CodeBlock(
            match lang {
                Some(l) => Some(l@),
                None => None,
            },
            text@,
        ),
        BlockNode::Quote(c) => Blk::Quote(view_blks(c@)),
    }
}

pub open spec fn view_blks(s: Seq<BlockNode>) -> Seq<Blk>
    decreases s,
{
    if s.len() == 0 {
        Seq::empty()
    } else {
        seq![view_blk(s[0])] + view_blks(s.subrange(1, s.len() as int))
    }
}

/// The model of an inline list is the list of the nodes' models.
pub broadcast proof fn lemma_view_inlines(s: Seq<InlineNode>)
    ensures
        #[trigger] view_inlines(s).len() == s.len(),
        forall|i: int| 0 <= i < s.len() ==> view_inlines(s)[i] == view_inline(s[i]),
    decreases s.len(),
{
    if s.len() > 0 {
        let r = s.subrange(1, s.len() as int);
        lemma_view_inlines(r);
        assert forall|i: int| 0 <= i < s.len() implies view_inlines(s)[i] == view_inline(s[i]) by {
            if i > 0 {
                assert(r[i - 1] == s[i]);
            }
        }
    }
}

/// The model of a block list is the list of the nodes' models.
pub broadcast proof fn lemma_view_blks(s: Seq<BlockNode>)
    ensures
        #[trigger] view_blks(s).len() == s.len(),
        forall|i: int| 0 <= i < s.len() ==> view_blks(s)[i] == view_blk(s[i]),
    decreases s.len(),
{
    if s.len() > 0 {
        let r = s.subrange(1, s.len() as int);
        lemma_view_blks(r);
        assert forall|i: int| 0 <= i < s.len() implies view_blks(s)[i] == view_blk(s[i]) by {
            if i > 0 {
                assert(r[i - 1] == s[i]);
            }
        }
    }
}

pub proof fn lemma_view_inlines_push(s: Seq<InlineNode>, n: InlineNode)
    ensures
        view_inlines(s.push(n)) == view_inlines(s).push(view_inline(n)),
{
    lemma_view_inlines(s);
    lemma_view_inlines(s.push(n));
    assert(view_inlines(s.push(n)) =~= view_inlines(s).push(view_inline(n)));
}

pub proof fn lemma_view_blks_push(s: Seq<BlockNode>, n: BlockNode)
    ensures
        view_blks(s.push(n)) == view_blks(s).push(view_blk(n)),
{
    lemma_view_blks(s);
    lemma_view_blks(s.push(n));
    assert(view_blks(s.push(n)) =~= view_blks(s).push(view_blk(n)));
}

// ---------------------------------------------------------------------------
// Splicing extension matches into a run of text.

/// A match tagged with the extension that produced it.
pub struct Cand {
    pub start: int,
    pub end: int,
    pub idx: nat,
    pub kind: Seq<char>,
}

/// The matches of every extension, in extension order.
pub open spec fn flatten(found: Seq<Seq<Found>>) -> Seq<Cand>
    decreases found.len(),
{
    if found.len() == 0 {
        Seq::empty()
    } else {
        let n = (found.len() - 1) as nat;
        flatten(found.drop_last()) + found.last().map_values(
            |m: Found| Cand { start: m.start, end: m.end, idx: n, kind: m.kind },
        )
    }
}

/// `a` sorts strictly before `b`: by start, then by extension.
pub open spec fn cand_lt(a: Cand, b: Cand) -> bool {
    a.start < b.start || (a.start == b.start && a.idx < b.idx)
}

/// Inserts `c` into the sorted `s`, after every entry that does not sort
/// after it.
pub open spec fn insert_cand(s: Seq<Cand>, c: Cand) -> Seq<Cand>
    decreases s.len(),
{
    if s.len() == 0 {
        seq![c]
    } else if cand_lt(c, s.last()) {
        insert_cand(s.drop_last(), c).push(s.last())
    } else {
        s.push(c)
    }
}

/// The stable sort of `s` by start, then extension.
pub open spec fn sort_cands(s: Seq<Cand>) -> Seq<Cand>
    decreases s.len(),
{
    if s.len() == 0 {
        Seq::empty()
    } else {
        insert_cand(sort_cands(s.drop_last()), s.last())
    }
}

/// Whether `c` is dropped when the previous kept match ended at `cursor`.
pub open spec fn dropped(c: Cand, cursor: int, len: int) -> bool {
    c.start < cursor || c.end > len || c.start >= c.end
}

/// The first `n` of the sorted matches after overlaps are resolved: the kept
/// matches and where the last one ends.
pub open spec fn resolve(s: Seq<Cand>, len: int, n: int) -> (Seq<Cand>, int)
    decreases n,
{
    if n <= 0 {
        (Seq::empty(), 0)
    } else {
        let (kept, cursor) = resolve(s, len, n - 1);
        let c = s[n - 1];
        if dropped(c, cursor, len) {
            (kept, cursor)
        } else {
            (kept.push(c), c.end)
        }
    }
}

/// The nodes for the first `n` kept matches, and where the last one ends.
pub open spec fn emit(text: Seq<char>, style: Style, kept: Seq<Cand>, n: int) -> (Seq<Inline>, int)
    decreases n,
{
    if n <= 0 {
        (Seq::empty(), 0)
    } else {
        let (out, cursor) = emit(text, style, kept, n - 1);
        let c = kept[n - 1];
        let gap = if c.start > cursor {
            seq![Inline::Text(byte_slice(text, cursor, c.start), style)]
        } else {
            Seq::empty()
        };
        (out + gap + seq![Inline::Ext(c.kind, byte_slice(text, c.start, c.end), c.idx)], c.end)
    }
}

/// The inline nodes for a run of `text` in `style`, given what each extension
/// matched in it: plain text around the spliced-in matches.
pub open spec fn splice_spec(text: Seq<char>, style: Style, found: Seq<Seq<Found>>) -> Seq<Inline> {
    let sorted = sort_cands(flatten(found));
    let kept = resolve(sorted, byte_len(text) as int, sorted.len() as int).0;
    let (out, cursor) = emit(text, style, kept, kept.len() as int);
    if cursor < byte_len(text) {
        out.push(Inline::Text(byte_slice(text, cursor, byte_len(text) as int), style))
    } else {
        out
    }
}

/// Every match of every extension lies inside `text` on character boundaries.
pub open spec fn all_found_in(text: Seq<char>, found: Seq<Seq<Found>>) -> bool {
    forall|i: int, j: int|
        0 <= i < found.len() && 0 <= j < found[i].len() ==> found_in(text, #[trigger] found[i][j])
}


/// The models of what each extension matched.
pub open spec fn found_views(found: Seq<Vec<ExtensionMatch>>) -> Seq<Seq<Found>> {
    found.map_values(|v: Vec<ExtensionMatch>| v@.map_values(|m: ExtensionMatch| found_view(m)))
}

struct Candidate {
    start: usize,
    end: usize,
    idx: usize,
    kind: String,
}

spec fn cand_view(c: Candidate) -> Cand {
    Cand { start: c.start as int, end: c.end as int, idx: c.idx as nat, kind: c.kind@ }
}

spec fn cands_view(s: Seq<Candidate>) -> Seq<Cand> {
    s.map_values(|c: Candidate| cand_view(c))
}

fn cand_before(a: &Candidate, b: &Candidate) -> (r: bool)
    ensures
        r == cand_lt(cand_view(*a), cand_view(*b)),
{
    a.start < b.start || (a.start == b.start && a.idx < b.idx)
}

/// All matches tagged with their extension's index, in extension order.
fn flatten_found(found: &Vec<Vec<ExtensionMatch>>) -> (r: Vec<Candidate>)
    ensures
        cands_view(r@) == flatten(found_views(found@)),
{
    let mut r: Vec<Candidate> = Vec::new();
    let mut i: usize = 0;
    while i < found.len()
        invariant
            i <= found.len(),
            cands_view(r@) == flatten(found_views(found@).take(i as int)),
        decreases found.len() - i,
    {
        let ghost before = r@;
        let ghost fv = found_views(found@);
        assert(fv.take(i + 1).drop_last() =~= fv.take(i as int));
        let row = &found[i];
        let mut j: usize = 0;
        while j < row.len()
            invariant
                i < found.len(),
                row == &found@[i as int],
                j <= row.len(),
                r@.len() == before.len() + j,
                r@.take(before.len() as int) == before,
                forall|q: int| 0 <= q < j ==> cand_view(#[trigger] r@[before.len() + q]) == (Cand {
                    start: found_view(row@[q]).start,
                    end: found_view(row@[q]).end,
                    idx: i as nat,
                    kind: found_view(row@[q]).kind,
                }),
            decreases row.len() - j,
        {
            let m = &row[j];
            r.push(Candidate { start: m.range.start, end: m.range.end, idx: i, kind: m.kind.clone() });
            assert(r@.take(before.len() as int) =~= before);
            j += 1;
        }
        proof {
            let added = fv[i as int].map_values(
                |m: Found| Cand { start: m.start, end: m.end, idx: i as nat, kind: m.kind },
            );
            assert(fv.take(i + 1).last() == fv[i as int]);
            assert(cands_view(r@) =~= cands_view(before) + added) by {
                assert forall|q: int| 0 <= q < r@.len() implies cands_view(r@)[q] == (cands_view(before) + added)[q] by {
                    if q < before.len() {
                        assert(r@[q] == r@.take(before.len() as int)[q]);
                    } else {
                        assert(r@[before.len() + (q - before.len())] == r@[q]);
                    }
                }
            }
        }
        i += 1;
    }
    assert(found_views(found@).take(found.len() as int) =~= found_views(found@));
    r
}

/// Where `insert_cand` puts `c`: after the last entry that does not sort
/// after it.
proof fn lemma_insert_at(s: Seq<Cand>, c: Cand, p: int)
    requires
        0 <= p <= s.len(),
        forall|q: int| p <= q < s.len() ==> cand_lt(c, #[trigger] s[q]),
        p == 0 || !cand_lt(c, s[p - 1]),
    ensures
        insert_cand(s, c) == s.take(p).push(c) + s.skip(p),
    decreases s.len(),
{
    if s.len() == 0 {
        assert(s.take(p).push(c) + s.skip(p) =~= seq![c]);
    } else if cand_lt(c, s.last()) {
        lemma_insert_at(s.drop_last(), c, p);
        assert(s.drop_last().take(p) == s.take(p));
        assert(s.take(p).push(c) + s.skip(p) =~= (s.take(p).push(c) + s.drop_last().skip(p)).push(
            s.last(),
        ));
    } else {
        assert(p == s.len());
        assert(s.take(p).push(c) + s.skip(p) =~= s.push(c));
    }
}

/// Sorts the matches by start, then extension, keeping the order of ties.
fn sort_candidates(v: Vec<Candidate>) -> (r: Vec<Candidate>)
    ensures
        cands_view(r@) == sort_cands(cands_view(v@)),
{
    let ghost orig = cands_view(v@);
    let mut rest = v;
    let mut out: Vec<Candidate> = Vec::new();
    let ghost mut i: int = 0;
    assert(orig.take(0) =~= Seq::<Cand>::empty());
    while rest.len() > 0
        invariant
            0 <= i <= orig.len(),
            cands_view(rest@) == orig.skip(i),
            cands_view(out@) == sort_cands(orig.take(i)),
        decreases rest.len(),
    {
        let ghost r0 = rest@;
        assert(cands_view(r0).len() == r0.len());
        assert(cands_view(r0)[0] == cand_view(r0[0]));
        assert(orig.skip(i)[0] == orig[i]);
        let x = rest.remove(0);
        assert(cand_view(x) == orig[i]);
        let mut p = out.len();
        while p > 0 && cand_before(&x, &out[p - 1])
            invariant
                p <= out.len(),
                forall|q: int| p <= q < out.len() ==> cand_lt(cand_view(x), #[trigger] cands_view(out@)[q]),
            decreases p,
        {
            p -= 1;
        }
        proof {
            lemma_insert_at(cands_view(out@), cand_view(x), p as int);
            assert(orig.take(i + 1).drop_last() =~= orig.take(i));
            assert(orig.take(i + 1).last() == orig[i]);
            assert(cands_view(rest@) =~= orig.skip(i + 1));
        }
        let ghost before = out@;
        out.insert(p, x);
        proof {
            assert(cands_view(out@) =~= cands_view(before).take(p as int).push(cand_view(x))
                + cands_view(before).skip(p as int));
            i = i + 1;
        }
    }
    assert(orig.take(i) =~= orig);
    out
}


/// `c` lies inside `text`, and both its ends are character boundaries.
pub open spec fn cand_in(text: Seq<char>, c: Cand) -> bool {
    &&& 0 <= c.start <= c.end <= byte_len(text)
    &&& is_boundary(text, c.start)
    &&& is_boundary(text, c.end)
}

proof fn lemma_flatten_in(text: Seq<char>, found: Seq<Seq<Found>>)
    requires
        all_found_in(text, found),
    ensures
        forall|k: int| 0 <= k < flatten(found).len() ==> cand_in(text, #[trigger] flatten(found)[k]),
    decreases found.len(),
{
    if found.len() > 0 {
        let n = (found.len() - 1) as nat;
        assert(all_found_in(text, found.drop_last())) by {
            assert forall|i: int, j: int|
                0 <= i < found.drop_last().len() && 0 <= j < found.drop_last()[i].len()
                implies found_in(text, #[trigger] found.drop_last()[i][j]) by {
                assert(found.drop_last()[i] == found[i]);
            }
        }
        lemma_flatten_in(text, found.drop_last());
        let added = found.last().map_values(
            |m: Found| Cand { start: m.start, end: m.end, idx: n, kind: m.kind },
        );
        assert forall|k: int| 0 <= k < flatten(found).len() implies cand_in(text, #[trigger] flatten(found)[k]) by {
            let a = flatten(found.drop_last());
            if k >= a.len() {
                assert(found_in(text, found[n as int][k - a.len()]));
            }
        }
    }
}

proof fn lemma_insert_keeps(text: Seq<char>, s: Seq<Cand>, c: Cand)
    requires
        forall|k: int| 0 <= k < s.len() ==> cand_in(text, #[trigger] s[k]),
        cand_in(text, c),
    ensures
        forall|k: int| 0 <= k < insert_cand(s, c).len() ==> cand_in(text, #[trigger] insert_cand(s, c)[k]),
        insert_cand(s, c).len() == s.len() + 1,
    decreases s.len(),
{
    if s.len() > 0 && cand_lt(c, s.last()) {
        lemma_insert_keeps(text, s.drop_last(), c);
    }
}

proof fn lemma_sort_keeps(text: Seq<char>, s: Seq<Cand>)
    requires
        forall|k: int| 0 <= k < s.len() ==> cand_in(text, #[trigger] s[k]),
    ensures
        forall|k: int| 0 <= k < sort_cands(s).len() ==> cand_in(text, #[trigger] sort_cands(s)[k]),
        sort_cands(s).len() == s.len(),
    decreases s.len(),
{
    if s.len() > 0 {
        lemma_sort_keeps(text, s.drop_last());
        lemma_insert_keeps(text, sort_cands(s.drop_last()), s.last());
    }
}

/// What the kept matches look like: each inside the text, in order, not
/// overlapping, the last one ending at the cursor.
proof fn lemma_resolve(text: Seq<char>, s: Seq<Cand>, n: int)
    requires
        0 <= n <= s.len(),
        forall|k: int| 0 <= k < s.len() ==> cand_in(text, #[trigger] s[k]),
    ensures
        ({
            let (kept, cursor) = resolve(s, byte_len(text) as int, n);
            &&& 0 <= cursor <= byte_len(text)
            &&& is_boundary(text, cursor)
            &&& kept.len() == 0 ==> cursor == 0
            &&& kept.len() > 0 ==> cursor == kept.last().end
            &&& forall|k: int| 0 <= k < kept.len() ==> cand_in(text, #[trigger] kept[k])
            &&& forall|k: int| 0 <= k < kept.len() ==> kept[k].start < kept[k].end
            &&& forall|k: int| 0 < k < kept.len() ==> kept[k - 1].end <= #[trigger] kept[k].start
        }),
    decreases n,
{
    if n == 0 {
        assert(byte_offset(text, 0) == 0) by {
            assert(text.take(0) =~= Seq::<char>::empty());
        }
    } else {
        lemma_resolve(text, s, n - 1);
        let (kept, cursor) = resolve(s, byte_len(text) as int, n - 1);
        let c = s[n - 1];
        if !dropped(c, cursor, byte_len(text) as int) {
            let k2 = kept.push(c);
            assert forall|k: int| 0 < k < k2.len() implies k2[k - 1].end <= #[trigger] k2[k].start by {
                if k == k2.len() - 1 {
                    if kept.len() > 0 {
                        assert(k2[k - 1] == kept.last());
                    }
                } else {
                    assert(k2[k - 1] == kept[k - 1]);
                    assert(k2[k] == kept[k]);
                }
            }
        }
    }
}

/// The inline nodes for a run of `text` in `style`, given what each extension
/// matched in it.
fn splice_matches(text: &str, style: Style, found: &Vec<Vec<ExtensionMatch>>) -> (r: Vec<InlineNode>)
    requires
        all_found_in(text@, found_views(found@)),
    ensures
        view_inlines(r@) == splice_spec(text@, style, found_views(found@)),
{
    let chars = chars_of(text);
    let total = str_len(text);
    let offs = byte_offsets(&chars, total);
    let ghost t = text@;
    let flat = flatten_found(found);
    proof {
        lemma_flatten_in(t, found_views(found@));
    }
    let sorted = sort_candidates(flat);
    let ghost sv = cands_view(sorted@);
    proof {
        lemma_sort_keeps(t, flatten(found_views(found@)));
    }
    // Resolve overlaps: the earliest start wins, then the earlier extension.
    let mut kept: Vec<Candidate> = Vec::new();
    let mut cursor: usize = 0;
    let mut rest = sorted;
    let ghost mut n: int = 0;
    while rest.len() > 0
        invariant
            0 <= n <= sv.len(),
            cands_view(rest@) == sv.skip(n),
            forall|k: int| 0 <= k < sv.len() ==> cand_in(t, #[trigger] sv[k]),
            (cands_view(kept@), cursor as int) == resolve(sv, byte_len(t) as int, n),
            total == byte_len(t),
        decreases rest.len(),
    {
        proof {
            lemma_resolve(t, sv, n);
        }
        let ghost r0 = rest@;
        assert(cands_view(r0).len() == r0.len());
        assert(cands_view(r0)[0] == cand_view(r0[0]));
        assert(sv.skip(n)[0] == sv[n]);
        let c = rest.remove(0);
        assert(cands_view(rest@) =~= sv.skip(n + 1));
        if !(c.start < cursor || c.end > total || c.start >= c.end) {
            cursor = c.end;
            let ghost kb = kept@;
            kept.push(c);
            assert(cands_view(kept@) =~= cands_view(kb).push(sv[n]));
        }
        proof {
            n = n + 1;
        }
    }
    assert(sv.skip(n).len() == 0);
    assert(n == sv.len());
    proof {
        lemma_resolve(t, sv, n);
    }
    let ghost kv = cands_view(kept@);
    // Plain text around the spliced-in matches.
    let mut out: Vec<InlineNode> = Vec::new();
    let mut at: usize = 0;
    let mut k: usize = 0;
    assert(view_inlines(out@) =~= Seq::<Inline>::empty());
    assert(byte_offset(t, 0) == 0) by {
        assert(t.take(0) =~= Seq::<char>::empty());
    }
    assert(is_boundary(t, 0));
    while k < kept.len()
        invariant
            k <= kept.len(),
            kv == cands_view(kept@),
            kv == resolve(sv, byte_len(t) as int, sv.len() as int).0,
            forall|q: int| 0 <= q < kv.len() ==> cand_in(t, #[trigger] kv[q]),
            forall|q: int| 0 <= q < kv.len() ==> kv[q].start < kv[q].end,
            forall|q: int| 0 < q < kv.len() ==> kv[q - 1].end <= #[trigger] kv[q].start,
            (view_inlines(out@), at as int) == emit(t, style, kv, k as int),
            k == 0 ==> at == 0,
            k > 0 ==> at == kv[k - 1].end,
            is_boundary(t, at as int),
            offs.len() == chars.len() + 1,
            forall|q: int| 0 <= q <= chars.len() ==> offs@[q] == byte_offset(chars@, q),
            chars@ == t,
            total == byte_len(t),
        decreases kept.len() - k,
    {
        let c = &kept[k];
        assert(kv[k as int] == cand_view(*c));
        let ghost before = out@;
        if c.start > at {
            let gap = slice_bytes(&chars, &offs, at, c.start);
            out.push(InlineNode::Text { text: gap, style });
        } else {
            if k > 0 {
                assert(kv[k - 1].end <= kv[k as int].start);
            }
        }
        let src = slice_bytes(&chars, &offs, c.start, c.end);
        out.push(InlineNode::Extension(ExtensionNode { kind: c.kind.clone(), source: src, extension_idx: c.idx }));
        proof {
            lemma_view_inlines(before);
            lemma_view_inlines(out@);
            let (o1, _) = emit(t, style, kv, k as int);
            assert(view_inlines(out@) =~= emit(t, style, kv, k + 1).0);
        }
        at = c.end;
        k += 1;
    }
    let ghost before = out@;
    if at < total {
        proof {
            assert(byte_offset(t, t.len() as int) == byte_len(t)) by {
                assert(t.take(t.len() as int) =~= t);
            }
        }
        let tail = slice_bytes(&chars, &offs, at, total);
        out.push(InlineNode::Text { text: tail, style });
        proof {
            lemma_view_inlines_push(before, InlineNode::Text { text: tail, style });
        }
    }
    out
}


// ---------------------------------------------------------------------------
// Markdown events.

/// What kind of markdown event it is.
#[derive(Clone, Copy, Debug, PartialEq, Eq, Structural)]
pub enum MdClass {
    /// A tag opens.
    Start,
    /// A tag closes.
    End,
    Text,
    Code,
    SoftBreak,
    HardBreak,
    /// Block or inline HTML, kept as text.
    Html,
    Other,
}

/// The tag a `Start` or `End` event is about (`Other` for any other event).
#[derive(Clone, Copy, Debug, PartialEq, Eq, Structural)]
pub enum MdTag {
    Paragraph,
    Heading(u8),
    Quote,
    CodeBlock,
    Emphasis,
    Strong,
    Link,
    Other,
}

/// A markdown event: its class, its tag, and its text. The text is the
/// content of a text, code or HTML event, the destination of an opening link,
/// the info string of an opening fenced code block, and empty otherwise.
pub struct MdEvent {
    pub class: MdClass,
    pub tag: MdTag,
    pub payload: Seq<char>,
}

/// The events of the markdown parser on `text`, with no extensions enabled.
pub uninterp spec fn markdown_events(text: Seq<char>) -> Seq<MdEvent>;

/// Runs the markdown parser (`pulldown_cmark::Parser::new_ext` with no
/// options) over `text` and keeps the class of each event. The contract
/// claims that the result is the class of each event of the named parse.
#[verifier::external_body]
fn event_classes(text: &str) -> (r: Vec<MdClass>)
    ensures
        r@ == markdown_events(text@).map_values(|e: MdEvent| e.class),
{
    Parser::new_ext(text, Options::empty())
        .map(|e| match e {
            Event::Start(_) => MdClass::Start,
            Event::End(_) => MdClass::End,
            Event::Text(_) => MdClass::Text,
            Event::Code(_) => MdClass::Code,
            Event::SoftBreak => MdClass::SoftBreak,
            Event::HardBreak => MdClass::HardBreak,
            Event::Html(_) | Event::InlineHtml(_) => MdClass::Html,
            _ => MdClass::Other,
        })
        .collect()
}

/// Runs the same parse (`pulldown_cmark::Parser::new_ext`, no options) and
/// keeps the tag each event opens or closes (`Tag::to_end` gives the closing
/// form of an opening tag). The contract claims that the result is the tag of
/// each event of the named parse.
#[verifier::external_body]
fn event_tags(text: &str) -> (r: Vec<MdTag>)
    ensures
        r@ == markdown_events(text@).map_values(|e: MdEvent| e.tag),
{
    Parser::new_ext(text, Options::empty())
        .map(|e| match e { Event::Start(t) => Some(t.to_end()), Event::End(t) => Some(t), _ => None })
        .map(|t| match t {
            Some(TagEnd::Paragraph) => MdTag::Paragraph,
            Some(TagEnd::Heading(level)) => MdTag::Heading(level as u8),
            Some(TagEnd::BlockQuote(_)) => MdTag::Quote,
            Some(TagEnd::CodeBlock) => MdTag::CodeBlock,
            Some(TagEnd::Emphasis) => MdTag::Emphasis,
            Some(TagEnd::Strong) => MdTag::Strong,
            Some(TagEnd::Link) => MdTag::Link,
            _ => MdTag::Other,
        })
        .collect()
}

/// Runs the same parse (`pulldown_cmark::Parser::new_ext`, no options) and
/// keeps the text each event carries. The contract claims that the result is
/// the payload of each event of the named parse.
#[verifier::external_body]
fn event_payloads(text: &str) -> (r: Vec<String>)
    ensures
        r@.map_values(|s: String| s@) == markdown_events(text@).map_values(|e: MdEvent| e.payload),
{
    Parser::new_ext(text, Options::empty())
        .map(|e| match e {
            Event::Text(s) | Event::Code(s) | Event::Html(s) | Event::InlineHtml(s) => s.into_string(),
            Event::Start(Tag::Link { dest_url, .. }) => dest_url.into_string(),
            Event::Start(Tag::CodeBlock(CodeBlockKind::Fenced(info))) => info.into_string(),
            _ => String::new(),
        })
        .collect()
}

/// The events given as three parallel lists.
pub open spec fn events_of(classes: Seq<MdClass>, tags: Seq<MdTag>, payloads: Seq<String>) -> Seq<MdEvent> {
    Seq::new(
        classes.len(),
        |i: int| MdEvent { class: classes[i], tag: tags[i], payload: payloads[i]@ },
    )
}

// ---------------------------------------------------------------------------
// Lowering.

/// What an open inline buffer is for.
pub enum Ctx {
    Paragraph,
    Heading(u8),
    Link(Seq<char>),
}

/// The lowering's state between events.
pub struct LowerState {
    /// Finished top-level blocks.
    pub blocks: Seq<Blk>,
    /// Children of the open block quotes, innermost last.
    pub quotes: Seq<Seq<Blk>>,
    /// Children of the open inline containers, innermost last.
    pub inlines: Seq<Seq<Inline>>,
    /// What each open inline container is.
    pub ctx: Seq<Ctx>,
    /// Emphasis in effect, innermost last.
    pub styles: Seq<Style>,
    /// The open code block: its language and text so far.
    pub code: Option<(Option<Seq<char>>, Seq<char>)>,
}

pub open spec fn initial_state() -> LowerState {
    LowerState {
        blocks: Seq::empty(),
        quotes: Seq::empty(),
        inlines: Seq::empty(),
        ctx: Seq::empty(),
        styles: seq![plain_style()],
        code: None,
    }
}

pub open spec fn top_style(styles: Seq<Style>) -> Style {
    if styles.len() > 0 {
        styles.last()
    } else {
        plain_style()
    }
}

pub open spec fn last_or_empty<T>(s: Seq<Seq<T>>) -> Seq<T> {
    if s.len() > 0 {
        s.last()
    } else {
        Seq::empty()
    }
}

pub open spec fn pop_last<T>(s: Seq<T>) -> Seq<T> {
    if s.len() > 0 {
        s.drop_last()
    } else {
        s
    }
}

/// A finished block goes into the innermost open quote, else to the top level.
pub open spec fn push_block(st: LowerState, b: Blk) -> LowerState {
    if st.quotes.len() > 0 {
        LowerState { quotes: st.quotes.update(st.quotes.len() - 1, st.quotes.last().push(b)), ..st }
    } else {
        LowerState { blocks: st.blocks.push(b), ..st }
    }
}

/// Inline nodes go into the innermost open inline container; with none open
/// they are dropped.
pub open spec fn push_inlines(st: LowerState, ns: Seq<Inline>) -> LowerState {
    if st.inlines.len() > 0 {
        LowerState { inlines: st.inlines.update(st.inlines.len() - 1, st.inlines.last() + ns), ..st }
    } else {
        st
    }
}

/// Opens an inline container.
pub open spec fn open_inline(st: LowerState, c: Ctx) -> LowerState {
    LowerState { inlines: st.inlines.push(Seq::empty()), ctx: st.ctx.push(c), ..st }
}

/// Closes the innermost inline container.
pub open spec fn close_inline(st: LowerState) -> LowerState {
    LowerState { inlines: pop_last(st.inlines), ctx: pop_last(st.ctx), ..st }
}

/// The level of a closing heading: that of its open context, else 1.
pub open spec fn heading_level_of(ctx: Seq<Ctx>) -> u8 {
    if ctx.len() > 0 {
        match ctx.last() {
            Ctx::Heading(l) => l,
            _ => 1,
        }
    } else {
        1
    }
}

/// The destination of a closing link: that of its open context, else empty.
pub open spec fn link_url_of(ctx: Seq<Ctx>) -> Seq<char> {
    if ctx.len() > 0 {
        match ctx.last() {
            Ctx::Link(u) => u,
            _ => Seq::empty(),
        }
    } else {
        Seq::empty()
    }
}

/// The state after an opening tag.
pub open spec fn step_start(st: LowerState, tag: MdTag, payload: Seq<char>) -> LowerState {
    match tag {
        MdTag::Paragraph => open_inline(st, Ctx::Paragraph),
        MdTag::Heading(l) => open_inline(st, Ctx::Heading(l)),
        MdTag::Quote => LowerState { quotes: st.quotes.push(Seq::empty()), ..st },
        MdTag::CodeBlock => LowerState {
            code: Some((if payload.len() > 0 { Some(payload) } else { None }, Seq::empty())),
            ..st
        },
        MdTag::Emphasis => LowerState {
            styles: st.styles.push(Style { italic: true, ..top_style(st.styles) }),
            ..st
        },
        MdTag::Strong => LowerState {
            styles: st.styles.push(Style { bold: true, ..top_style(st.styles) }),
            ..st
        },
        MdTag::Link => open_inline(st, Ctx::Link(payload)),
        MdTag::Other => st,
    }
}

/// The state after a closing tag.
pub open spec fn step_end(st: LowerState, tag: MdTag) -> LowerState {
    match tag {
        MdTag::Paragraph => push_block(close_inline(st), Blk::Paragraph(last_or_empty(st.inlines))),
        MdTag::Heading(_) => push_block(
            close_inline(st),
            Blk::Heading(heading_level_of(st.ctx), last_or_empty(st.inlines)),
        ),
        MdTag::Quote => push_block(
            LowerState { quotes: pop_last(st.quotes), ..st },
            Blk::Quote(last_or_empty(st.quotes)),
        ),
        MdTag::CodeBlock => match st.code {
            Some((lang, text)) => push_block(LowerState { code: None, ..st }, Blk::CodeBlock(lang, text)),
            None => st,
        },
        MdTag::Emphasis | MdTag::Strong => LowerState {
            styles: if st.styles.len() > 1 { st.styles.drop_last() } else { seq![plain_style()] },
            ..st
        },
        MdTag::Link => push_inlines(
            close_inline(st),
            seq![Inline::Link(link_url_of(st.ctx), last_or_empty(st.inlines))],
        ),
        MdTag::Other => st,
    }
}

/// The state after event `e`; `found` is what each extension matched in its
/// text, when it is a text event outside code.
pub open spec fn step(st: LowerState, e: MdEvent, found: Seq<Seq<Found>>) -> LowerState {
    match e.class {
        MdClass::Start => step_start(st, e.tag, e.payload),
        MdClass::End => step_end(st, e.tag),
        MdClass::Text => match st.code {
            Some((lang, text)) => LowerState { code: Some((lang, text + e.payload)), ..st },
            None => push_inlines(st, splice_spec(e.payload, top_style(st.styles), found)),
        },
        MdClass::Code => push_inlines(st, seq![Inline::Code(e.payload)]),
        MdClass::SoftBreak => push_inlines(st, seq![Inline::SoftBreak]),
        MdClass::HardBreak => push_inlines(st, seq![Inline::HardBreak]),
        MdClass::Html => push_inlines(st, seq![Inline::Text(e.payload, top_style(st.styles))]),
        MdClass::Other => st,
    }
}

/// The state after the first `n` events.
pub open spec fn run(events: Seq<MdEvent>, found: Seq<Seq<Seq<Found>>>, n: int) -> LowerState
    decreases n,
{
    if n <= 0 {
        initial_state()
    } else {
        step(run(events, found, n - 1), events[n - 1], found[n - 1])
    }
}

/// The blocks of a markdown text, given its events and, for each text event,
/// what each extension matched in it.
pub open spec fn lower_spec(events: Seq<MdEvent>, found: Seq<Seq<Seq<Found>>>) -> Seq<Blk> {
    run(events, found, events.len() as int).blocks
}


/// What an open inline buffer is for.
enum InlineCtx {
    Paragraph,
    Heading(u8),
    Link(String),
}

spec fn ctx_view(c: InlineCtx) -> Ctx {
    match c {
        InlineCtx::Paragraph => Ctx::Paragraph,
        InlineCtx::Heading(l) => Ctx::Heading(l),
        InlineCtx::Link(u) => Ctx::Link(u@),
    }
}

spec fn lang_view(l: Option<String>) -> Option<Seq<char>> {
    match l {
        Some(s) => Some(s@),
        None => None,
    }
}

/// The lowering's state, as a value being built.
struct Lowering {
    blocks: Vec<BlockNode>,
    quotes: Vec<Vec<BlockNode>>,
    inlines: Vec<Vec<InlineNode>>,
    ctx: Vec<InlineCtx>,
    styles: Vec<Style>,
    code: Option<(Option<String>, String)>,
}

impl Lowering {
    spec fn model(&self) -> LowerState {
        LowerState {
            blocks: view_blks(self.blocks@),
            quotes: self.quotes@.map_values(|q: Vec<BlockNode>| view_blks(q@)),
            inlines: self.inlines@.map_values(|v: Vec<InlineNode>| view_inlines(v@)),
            ctx: self.ctx@.map_values(|c: InlineCtx| ctx_view(c)),
            styles: self.styles@,
            code: match self.code {
                Some((l, t)) => Some((lang_view(l), t@)),
                None => None,
            },
        }
    }

    fn new() -> (l: Lowering)
        ensures
            l.model() == initial_state(),
    {
        let l = Lowering {
            blocks: Vec::new(),
            quotes: Vec::new(),
            inlines: Vec::new(),
            ctx: Vec::new(),
            styles: vec![Style::default()],
            code: None,
        };
        proof {
            assert(view_blks(l.blocks@) =~= Seq::<Blk>::empty());
            assert(l.model().quotes =~= Seq::<Seq<Blk>>::empty());
            assert(l.model().inlines =~= Seq::<Seq<Inline>>::empty());
            assert(l.model().ctx =~= Seq::<Ctx>::empty());
            assert(l.model().styles =~= seq![plain_style()]);
        }
        l
    }

    fn top_style(&self) -> (s: Style)
        ensures
            s == top_style(self.model().styles),
    {
        if self.styles.len() > 0 {
            self.styles[self.styles.len() - 1]
        } else {
            Style::default()
        }
    }

    fn push_block(&mut self, b: BlockNode)
        ensures
            final(self).model() == push_block(old(self).model(), view_blk(b)),
    {
        let ghost m = self.model();
        let ghost q0 = self.quotes@;
        match self.quotes.pop() {
            Some(mut top) => {
                let ghost t0 = top@;
                top.push(b);
                self.quotes.push(top);
                proof {
                    lemma_view_blks_push(t0, b);
                    assert(self.model().quotes =~= m.quotes.update(
                        m.quotes.len() - 1,
                        m.quotes.last().push(view_blk(b)),
                    ));
                    assert(self.model().inlines =~= m.inlines);
                    assert(self.model().ctx =~= m.ctx);
                }
            },
            None => {
                let ghost b0 = self.blocks@;
                self.blocks.push(b);
                proof {
                    lemma_view_blks_push(b0, b);
                    assert(self.model().quotes =~= m.quotes);
                }
            },
        }
    }

    fn push_inlines(&mut self, ns: Vec<InlineNode>)
        ensures
            final(self).model() == push_inlines(old(self).model(), view_inlines(ns@)),
    {
        let ghost m = self.model();
        match self.inlines.pop() {
            Some(mut top) => {
                let ghost t0 = top@;
                let mut rest = ns;
                let ghost n0 = rest@;
                let ghost mut i: int = 0;
                while rest.len() > 0
                    invariant
                        0 <= i <= n0.len(),
                        rest@ == n0.skip(i),
                        view_inlines(top@) == view_inlines(t0) + view_inlines(n0).take(i),
                    decreases rest.len(),
                {
                    proof {
                        lemma_view_inlines(n0);
                    }
                    let x = rest.remove(0);
                    let ghost tb = top@;
                    top.push(x);
                    proof {
                        lemma_view_inlines_push(tb, x);
                        assert(n0.skip(i)[0] == n0[i]);
                        assert(view_inlines(n0).take(i + 1) =~= view_inlines(n0).take(i).push(
                            view_inlines(n0)[i],
                        ));
                        assert(rest@ =~= n0.skip(i + 1));
                        i = i + 1;
                    }
                }
                proof {
                    lemma_view_inlines(n0);
                    assert(view_inlines(n0).take(i) =~= view_inlines(n0));
                }
                self.inlines.push(top);
                proof {
                    assert(self.model().inlines =~= m.inlines.update(
                        m.inlines.len() - 1,
                        m.inlines.last() + view_inlines(n0),
                    ));
                    assert(self.model().quotes =~= m.quotes);
                    assert(self.model().ctx =~= m.ctx);
                }
            },
            None => {
                proof {
                    assert(self.model().inlines =~= m.inlines);
                }
            },
        }
    }

    fn push_inline(&mut self, n: InlineNode)
        ensures
            final(self).model() == push_inlines(old(self).model(), seq![view_inline(n)]),
    {
        let v = vec![n];
        proof {
            lemma_view_inlines(v@);
            assert(view_inlines(v@) =~= seq![view_inline(n)]);
        }
        self.push_inlines(v);
    }

    fn open_inline(&mut self, c: InlineCtx)
        ensures
            final(self).model() == open_inline(old(self).model(), ctx_view(c)),
    {
        let ghost m = self.model();
        self.inlines.push(Vec::new());
        self.ctx.push(c);
        proof {
            assert(view_inlines(Seq::<InlineNode>::empty()) =~= Seq::<Inline>::empty());
            assert(self.model().inlines =~= m.inlines.push(Seq::empty()));
            assert(self.model().ctx =~= m.ctx.push(ctx_view(c)));
            assert(self.model().quotes =~= m.quotes);
        }
    }

    /// Closes the innermost inline container, returning its children and
    /// what it was for.
    fn close_inline(&mut self) -> (r: (Vec<InlineNode>, Option<InlineCtx>))
        ensures
            final(self).model() == close_inline(old(self).model()),
            view_inlines(r.0@) == last_or_empty(old(self).model().inlines),
            match r.1 {
                Some(c) => old(self).model().ctx.len() > 0 && ctx_view(c) == old(self).model().ctx.last(),
                None => old(self).model().ctx.len() == 0,
            },
    {
        let ghost m = self.model();
        let children = match self.inlines.pop() {
            Some(v) => v,
            None => {
                proof {
                    assert(view_inlines(Seq::<InlineNode>::empty()) =~= Seq::<Inline>::empty());
                }
                Vec::new()
            },
        };
        let c = self.ctx.pop();
        proof {
            assert(self.model().inlines =~= pop_last(m.inlines));
            assert(self.model().ctx =~= pop_last(m.ctx));
            assert(self.model().quotes =~= m.quotes);
        }
        (children, c)
    }

    fn step_start(&mut self, tag: MdTag, payload: &String)
        ensures
            final(self).model() == step_start(old(self).model(), tag, payload@),
    {
        let ghost m = self.model();
        match tag {
            MdTag::Paragraph => self.open_inline(InlineCtx::Paragraph),
            MdTag::Heading(l) => self.open_inline(InlineCtx::Heading(l)),
            MdTag::Quote => {
                self.quotes.push(Vec::new());
                proof {
                    assert(view_blks(Seq::<BlockNode>::empty()) =~= Seq::<Blk>::empty());
                    assert(self.model().quotes =~= m.quotes.push(Seq::empty()));
                    assert(self.model().inlines =~= m.inlines);
                    assert(self.model().ctx =~= m.ctx);
                }
            },
            MdTag::CodeBlock => {
                let lang = if !payload.as_str().is_empty() {
                    Some(payload.clone())
                } else {
                    None
                };
                self.code = Some((lang, String::new()));
                proof {
                    assert(self.model().quotes =~= m.quotes);
                    assert(self.model().inlines =~= m.inlines);
                    assert(self.model().ctx =~= m.ctx);
                }
            },
            MdTag::Emphasis => self.push_style(false),
            MdTag::Strong => self.push_style(true),
            MdTag::Link => self.open_inline(InlineCtx::Link(payload.clone())),
            MdTag::Other => {},
        }
    }

    fn step_end(&mut self, tag: MdTag)
        ensures
            final(self).model() == step_end(old(self).model(), tag),
    {
        let ghost m = self.model();
        match tag {
            MdTag::Paragraph => {
                let (children, _) = self.close_inline();
                self.push_block(BlockNode::Paragraph(children));
            },
            MdTag::Heading(_) => {
                let (children, c) = self.close_inline();
                let level = match c {
                    Some(InlineCtx::Heading(l)) => l,
                    _ => 1,
                };
                self.push_block(BlockNode::Heading { level, children });
            },
            MdTag::Quote => {
                let children = match self.quotes.pop() {
                    Some(v) => v,
                    None => Vec::new(),
                };
                proof {
                    assert(view_blks(Seq::<BlockNode>::empty()) =~= Seq::<Blk>::empty());
                    assert(self.model().quotes =~= pop_last(m.quotes));
                    assert(self.model().inlines =~= m.inlines);
                    assert(self.model().ctx =~= m.ctx);
                }
                self.push_block(BlockNode::Quote(children));
            },
            MdTag::CodeBlock => {
                match self.code.take() {
                    Some((lang, text)) => {
                        proof {
                            assert(self.model().quotes =~= m.quotes);
                            assert(self.model().inlines =~= m.inlines);
                            assert(self.model().ctx =~= m.ctx);
                        }
                        self.push_block(BlockNode::CodeBlock { lang, text });
                    },
                    None => {},
                }
            },
            MdTag::Emphasis | MdTag::Strong => {
                self.styles.pop();
                if self.styles.len() == 0 {
                    self.styles.push(Style::default());
                }
                proof {
                    assert(self.model().quotes =~= m.quotes);
                    assert(self.model().inlines =~= m.inlines);
                    assert(self.model().ctx =~= m.ctx);
                    if m.styles.len() > 1 {
                        assert(self.model().styles =~= m.styles.drop_last());
                    } else {
                        assert(self.model().styles =~= seq![plain_style()]);
                    }
                }
            },
            MdTag::Link => {
                let (children, c) = self.close_inline();
                let url = match c {
                    Some(InlineCtx::Link(u)) => u,
                    _ => String::new(),
                };
                self.push_inline(InlineNode::Link { url, children });
            },
            MdTag::Other => {},
        }
    }

    /// Takes in one event; `found` is what each extension matched in its text.
    fn step(&mut self, class: MdClass, tag: MdTag, payload: &String, found: &Vec<Vec<ExtensionMatch>>)
        requires
            class == MdClass::Text && old(self).model().code is None ==> all_found_in(
                payload@,
                found_views(found@),
            ),
        ensures
            final(self).model() == step(
                old(self).model(),
                MdEvent { class, tag, payload: payload@ },
                found_views(found@),
            ),
    {
        let ghost m = self.model();
        match class {
            MdClass::Start => self.step_start(tag, payload),
            MdClass::End => self.step_end(tag),
            MdClass::Text => {
                match self.code.take() {
                    Some((lang, mut text)) => {
                        text.append(payload.as_str());
                        self.code = Some((lang, text));
                        proof {
                            assert(self.model().quotes =~= m.quotes);
                            assert(self.model().inlines =~= m.inlines);
                            assert(self.model().ctx =~= m.ctx);
                        }
                    },
                    None => {
                        let style = self.top_style();
                        let nodes = splice_matches(payload.as_str(), style, found);
                        self.push_inlines(nodes);
                    },
                }
            },
            MdClass::Code => self.push_inline(InlineNode::Code(payload.clone())),
            MdClass::SoftBreak => self.push_inline(InlineNode::SoftBreak),
            MdClass::HardBreak => self.push_inline(InlineNode::HardBreak),
            MdClass::Html => {
                let style = self.top_style();
                self.push_inline(InlineNode::Text { text: payload.clone(), style });
            },
            MdClass::Other => {},
        }
    }

    fn push_style(&mut self, bold: bool)
        ensures
            final(self).model() == (LowerState {
                styles: old(self).model().styles.push(
                    if bold {
                        Style { bold: true, ..top_style(old(self).model().styles) }
                    } else {
                        Style { italic: true, ..top_style(old(self).model().styles) }
                    },
                ),
                ..old(self).model()
            }),
    {
        let ghost m = self.model();
        let mut next = self.top_style();
        if bold {
            next.bold = true;
        } else {
            next.italic = true;
        }
        self.styles.push(next);
        proof {
            assert(self.model().quotes =~= m.quotes);
            assert(self.model().inlines =~= m.inlines);
            assert(self.model().ctx =~= m.ctx);
        }
    }
}


/// The models of what each extension matched, for every event.
pub open spec fn found_per_event(found: Seq<Vec<Vec<ExtensionMatch>>>) -> Seq<Seq<Seq<Found>>> {
    found.map_values(|f: Vec<Vec<ExtensionMatch>>| found_views(f@))
}

/// The blocks of a markdown text, from its parser events (as three parallel
/// lists) and, for each text event, what each extension matched in its text.
pub fn lower_events(
    classes: &Vec<MdClass>,
    tags: &Vec<MdTag>,
    payloads: &Vec<String>,
    found: &Vec<Vec<Vec<ExtensionMatch>>>,
) -> (r: Vec<BlockNode>)
    requires
        tags.len() == classes.len(),
        payloads.len() == classes.len(),
        found.len() == classes.len(),
        forall|i: int|
            0 <= i < classes.len() && classes@[i] == MdClass::Text ==> all_found_in(
                payloads@[i]@,
                #[trigger] found_views(found@[i]@),
            ),
    ensures
        view_blks(r@) == lower_spec(events_of(classes@, tags@, payloads@), found_per_event(found@)),
{
    let ghost events = events_of(classes@, tags@, payloads@);
    let ghost fv = found_per_event(found@);
    let mut st = Lowering::new();
    let mut i: usize = 0;
    while i < classes.len()
        invariant
            i <= classes.len(),
            tags.len() == classes.len(),
            payloads.len() == classes.len(),
            found.len() == classes.len(),
            events == events_of(classes@, tags@, payloads@),
            fv == found_per_event(found@),
            forall|j: int|
                0 <= j < classes.len() && classes@[j] == MdClass::Text ==> all_found_in(
                    payloads@[j]@,
                    #[trigger] found_views(found@[j]@),
                ),
            st.model() == run(events, fv, i as int),
        decreases classes.len() - i,
    {
        assert(events[i as int] == (MdEvent { class: classes@[i as int], tag: tags@[i as int], payload: payloads@[i as int]@ }));
        assert(fv[i as int] == found_views(found@[i as int]@));
        st.step(classes[i], tags[i], &payloads[i], &found[i]);
        i += 1;
    }
    st.blocks
}

/// What every extension matched in `text`, in extension order.
fn extension_matches(text: &str, extensions: &[&dyn InlineExtension]) -> (r: Vec<Vec<ExtensionMatch>>)
    ensures
        r.len() == extensions.len(),
        all_found_in(text@, found_views(r@)),
        found_views(r@) == ext_found(extensions@, text@),
{
    let mut r: Vec<Vec<ExtensionMatch>> = Vec::new();
    let mut i: usize = 0;
    while i < extensions.len()
        invariant
            i <= extensions.len(),
            r.len() == i,
            all_found_in(text@, found_views(r@)),
            found_views(r@) == ext_found(extensions@, text@).take(i as int),
        decreases extensions.len() - i,
    {
        let m = extensions[i].extract(text);
        let ghost r0 = r@;
        r.push(m);
        assert(found_views(r@) =~= ext_found(extensions@, text@).take(i + 1));
        proof {
            assert forall|a: int, b: int|
                0 <= a < found_views(r@).len() && 0 <= b < found_views(r@)[a].len()
                implies found_in(text@, #[trigger] found_views(r@)[a][b]) by {
                if a < r0.len() {
                    assert(found_views(r@)[a] == found_views(r0)[a]);
                } else {
                    assert(found_views(r@)[a][b] == found_view(m@[b]));
                }
            }
        }
        i += 1;
    }
    assert(ext_found(extensions@, text@).take(i as int) =~= ext_found(extensions@, text@));
    r
}

/// What each extension matches in `text`, in extension order.
pub open spec fn ext_found(extensions: Seq<&dyn InlineExtension>, text: Seq<char>) -> Seq<Seq<Found>> {
    Seq::new(extensions.len(), |k: int| extensions[k].matched(text))
}

/// Event `i` lies inside a code block: the last code-block tag before it
/// opened one.
pub open spec fn in_code_before(events: Seq<MdEvent>, i: int) -> bool
    decreases i,
{
    if i <= 0 {
        false
    } else {
        let e = events[i - 1];
        if e.class == MdClass::Start && e.tag == MdTag::CodeBlock {
            true
        } else if e.class == MdClass::End && e.tag == MdTag::CodeBlock {
            false
        } else {
            in_code_before(events, i - 1)
        }
    }
}

/// The matches the lowering runs on: for each text event outside a code
/// block, what each extension matches in its text; nothing for the others.
pub open spec fn found_for(events: Seq<MdEvent>, extensions: Seq<&dyn InlineExtension>) -> Seq<Seq<Seq<Found>>> {
    Seq::new(
        events.len(),
        |i: int|
            if events[i].class == MdClass::Text && !in_code_before(events, i) {
                ext_found(extensions, events[i].payload)
            } else {
                Seq::empty()
            },
    )
}

/// The inline nodes for a run of plain `text` in `style`: the spans that the
/// extensions match become extension nodes; the earliest start wins an
/// overlap, then the extension listed first.
pub fn apply_extensions(text: &str, style: Style, extensions: &[&dyn InlineExtension]) -> (r: Vec<InlineNode>)
    ensures
        view_inlines(r@) == splice_spec(text@, style, ext_found(extensions@, text@)),
{
    let found = extension_matches(text, extensions);
    let r = splice_matches(text, style, &found);
    assert(splice_spec(text@, style, found_views(found@)) == view_inlines(r@));
    r
}

/// `es` with each run of consecutive text events merged into one: a plain-text
/// run is matched by the extensions as a whole, however the parser split it.
pub open spec fn merge_texts(es: Seq<MdEvent>) -> Seq<MdEvent>
    decreases es.len(),
{
    if es.len() == 0 {
        Seq::empty()
    } else {
        let r = merge_texts(es.drop_last());
        let e = es.last();
        if e.class == MdClass::Text && r.len() > 0 && r.last().class == MdClass::Text {
            r.drop_last().push(MdEvent { payload: r.last().payload + e.payload, ..r.last() })
        } else {
            r.push(e)
        }
    }
}

/// The events a markdown text is lowered from: the parser's events, with
/// runs of text merged.
pub open spec fn text_events(text: Seq<char>) -> Seq<MdEvent> {
    merge_texts(markdown_events(text))
}

/// The parser events of `text`, as three parallel lists: classes, tags and
/// payloads, with consecutive text events merged.
pub fn markdown_event_lists(text: &str) -> (r: (Vec<MdClass>, Vec<MdTag>, Vec<String>))
    ensures
        r.1.len() == r.0.len(),
        r.2.len() == r.0.len(),
        events_of(r.0@, r.1@, r.2@) == text_events(text@),
{
    let classes = event_classes(text);
    let tags = event_tags(text);
    let payloads = event_payloads(text);
    let ghost events = markdown_events(text@);
    proof {
        assert(classes.len() == events.len());
        assert(tags.len() == events.len());
        assert(payloads@.map_values(|s: String| s@).len() == events.len());
        assert(events_of(classes@, tags@, payloads@) =~= events) by {
            assert forall|i: int| 0 <= i < events.len() implies events_of(classes@, tags@, payloads@)[i]
                == events[i] by {
                assert(classes@[i] == events.map_values(|e: MdEvent| e.class)[i]);
                assert(tags@[i] == events.map_values(|e: MdEvent| e.tag)[i]);
                assert(payloads@.map_values(|s: String| s@)[i] == events.map_values(
                    |e: MdEvent| e.payload,
                )[i]);
            }
        }
    }
    let mut cs: Vec<MdClass> = Vec::new();
    let mut ts: Vec<MdTag> = Vec::new();
    let mut ps: Vec<String> = Vec::new();
    let mut i: usize = 0;
    assert(events.take(0) =~= Seq::<MdEvent>::empty());
    assert(events_of(cs@, ts@, ps@) =~= Seq::<MdEvent>::empty());
    while i < classes.len()
        invariant
            i <= classes.len(),
            tags.len() == classes.len(),
            payloads.len() == classes.len(),
            events == events_of(classes@, tags@, payloads@),
            ts.len() == cs.len(),
            ps.len() == cs.len(),
            events_of(cs@, ts@, ps@) == merge_texts(events.take(i as int)),
        decreases classes.len() - i,
    {
        let ghost before = events_of(cs@, ts@, ps@);
        assert(events.take(i + 1).drop_last() =~= events.take(i as int));
        assert(events.take(i + 1).last() == events[i as int]);
        let n = cs.len();
        if classes[i] == MdClass::Text && n > 0 && cs[n - 1] == MdClass::Text {
            let mut last = ps.pop().unwrap();
            last.append(payloads[i].as_str());
            ps.push(last);
            proof {
                assert(events_of(cs@, ts@, ps@) =~= before.drop_last().push(
                    MdEvent { payload: before.last().payload + events[i as int].payload, ..before.last() },
                ));
            }
        } else {
            cs.push(classes[i]);
            ts.push(tags[i]);
            ps.push(payloads[i].clone());
            assert(events_of(cs@, ts@, ps@) =~= before.push(events[i as int]));
        }
        i += 1;
    }
    assert(events.take(classes.len() as int) =~= events);
    (cs, ts, ps)
}

/// Lowers a block's markdown text into blocks of inline nodes. `extensions`
/// match spans of the plain-text runs, which become extension nodes.
pub fn lower(text: &str, extensions: &[&dyn InlineExtension]) -> (r: Vec<BlockNode>)
    ensures
        view_blks(r@) == lower_spec(text_events(text@), found_for(text_events(text@), extensions@)),
{
    let (classes, tags, payloads) = markdown_event_lists(text);
    let ghost events = text_events(text@);
    let mut found: Vec<Vec<Vec<ExtensionMatch>>> = Vec::new();
    let mut in_code = false;
    let mut i: usize = 0;
    while i < classes.len()
        invariant
            i <= classes.len(),
            tags.len() == classes.len(),
            payloads.len() == classes.len(),
            found.len() == i,
            events == events_of(classes@, tags@, payloads@),
            in_code == in_code_before(events, i as int),
            forall|j: int| 0 <= j < i ==> found_views(#[trigger] found@[j]@) == found_for(events, extensions@)[j],
            forall|j: int|
                0 <= j < i ==> (#[trigger] found@[j]).len() == 0 || found@[j].len() == extensions.len(),
            forall|j: int|
                0 <= j < i && classes@[j] == MdClass::Text ==> all_found_in(
                    payloads@[j]@,
                    #[trigger] found_views(found@[j]@),
                ),
        decreases classes.len() - i,
    {
        let mut here: Vec<Vec<ExtensionMatch>> = Vec::new();
        assert(all_found_in(payloads@[i as int]@, found_views(here@)));
        match classes[i] {
            MdClass::Start => {
                if tags[i] == MdTag::CodeBlock {
                    in_code = true;
                }
            },
            MdClass::End => {
                if tags[i] == MdTag::CodeBlock {
                    in_code = false;
                }
            },
            MdClass::Text => {
                if !in_code {
                    here = extension_matches(payloads[i].as_str(), extensions);
                }
            },
            _ => {},
        }
        proof {
            assert(events[i as int].class == classes@[i as int]);
            assert(events[i as int].tag == tags@[i as int]);
            assert(events[i as int].payload == payloads@[i as int]@);
            if !(classes@[i as int] == MdClass::Text && !in_code_before(events, i as int)) {
                assert(found_views(here@) =~= Seq::<Seq<Found>>::empty());
            }
        }
        found.push(here);
        i += 1;
    }
    let r = lower_events(&classes, &tags, &payloads, &found);
    proof {
        let fv = found_per_event(found@);
        assert(fv =~= found_for(events, extensions@)) by {
            assert forall|j: int| 0 <= j < events.len() implies fv[j] == found_for(events, extensions@)[j] by {
                assert(fv[j] == found_views(found@[j]@));
            }
        }
    }
    r
}

} // verus!
