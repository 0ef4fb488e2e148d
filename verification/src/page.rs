//! A page: a named outline, its serialized body, and whether it has unsaved
//! edits.

use vstd::prelude::*;
use crate::forest::{flat, get_spec, leaf, set_text_spec, Node};
use crate::outline::{BlockId, IdSource, Outline};
use crate::outline_text::{numbered, parse_rows, render};
use crate::text::{push_char, starts_with};

verus! {

/// What a page announces to its observers.
#[derive(Debug, Clone, Copy, PartialEq, Eq, Structural)]
pub enum PageEvent {
    Saved,
}

/// A named outline with its serialized body.
pub struct Page {
    name: String,
    outline: Outline,
    body: String,
    dirty: bool,
}

/// The model of a page.
pub struct PageView {
    pub name: Seq<char>,
    pub outline: Seq<Node>,
    pub body: Seq<char>,
    pub dirty: bool,
}

impl View for Page {
    type V = PageView;

    closed spec fn view(&self) -> PageView {
        PageView { name: self.name@, outline: self.outline@, body: self.body@, dirty: self.dirty }
    }
}

impl Page {
    /// The body is the serialized outline, and the outline is well formed.
    pub closed spec fn wf(&self) -> bool {
        &&& self.outline.wf()
        &&& self.body@ == render(flat(self.outline@, 0))
    }

    /// Parses `body`, its blocks taking fresh ids from `ids`. An empty
    /// outline gets one empty block, so there is always a block to edit;
    /// that alone does not make the page dirty.
    pub fn new(name: String, body: &str, ids: &mut IdSource) -> (p: Page)
        requires
            body@.len() <= usize::MAX / 2,
            old(ids).upcoming() + body@.len() + 1 < u64::MAX,
        ensures
            p.wf(),
            p@.name == name@,
            !p@.dirty,
            p@.body == render(flat(p@.outline, 0)),
            parse_rows(body@).len() > 0 ==> flat(p@.outline, 0) == numbered(
                parse_rows(body@),
                0,
                parse_rows(body@).len() as int,
                old(ids).upcoming() as int,
            ),
            parse_rows(body@).len() > 0 ==> final(ids).upcoming() == old(ids).upcoming()
                + parse_rows(body@).len(),
            parse_rows(body@).len() == 0 ==> p@.outline == seq![leaf(old(ids).upcoming(), Seq::empty())]
                && final(ids).upcoming() == old(ids).upcoming() + 1,
    {
        let mut outline = Outline::parse(body, ids);
        proof {
            crate::forest::lemma_flat_len(outline@, 0);
        }
        outline.ensure_block(ids);
        let body = outline.serialize();
        Page { name, outline, body, dirty: false }
    }

    /// The page's name.
    pub fn name(&self) -> (r: &String)
        ensures
            r@ == self@.name,
    {
        &self.name
    }

    /// The serialized outline.
    pub fn body(&self) -> (r: &String)
        ensures
            r@ == self@.body,
    {
        &self.body
    }

    /// The outline.
    pub fn outline(&self) -> (r: &Outline)
        ensures
            r@ == self@.outline,
            self.wf() ==> r.wf(),
    {
        &self.outline
    }

    /// Whether there are edits not yet saved.
    pub fn dirty(&self) -> (r: bool)
        ensures
            r == self@.dirty,
    {
        self.dirty
    }

    /// Replaces a block's text. When the block exists and its text differs,
    /// the body follows and the page becomes dirty; otherwise (no such
    /// block, or the same text again) nothing changes, so flushing unchanged
    /// text never dirties the page.
    pub fn set_block_text(&mut self, id: BlockId, text: String)
        requires
            old(self).wf(),
        ensures
            final(self).wf(),
            final(self)@.name == old(self)@.name,
            final(self)@.body == render(flat(final(self)@.outline, 0)),
            set_text_spec(old(self)@.outline, id.0, text@).0 && get_spec(old(self)@.outline, id.0)
                != Some(text@) ==> {
                &&& final(self)@.outline == set_text_spec(old(self)@.outline, id.0, text@).1
                &&& final(self)@.dirty
            },
            !set_text_spec(old(self)@.outline, id.0, text@).0 ==> final(self)@ == old(self)@,
            get_spec(old(self)@.outline, id.0) == Some(text@) ==> final(self)@ == old(self)@,
    {
        if let Some(cur) = self.outline.get(id) {
            assert(text@.take(text@.len() as int) =~= text@);
            assert(cur@.take(cur@.len() as int) =~= cur@);
            if starts_with(cur, text.as_str()) && starts_with(text.as_str(), cur) {
                assert(cur@ =~= text@);
                return;
            }
        }
        if !self.outline.set_text(id, text) {
            return;
        }
        self.body = self.outline.serialize();
        self.dirty = true;
    }

    /// Records that the body has been written out: the page is clean again.
    /// Returns the event to announce.
    pub fn mark_saved(&mut self) -> (e: PageEvent)
        requires
            old(self).wf(),
        ensures
            final(self).wf(),
            final(self)@ == (PageView { dirty: false, ..old(self)@ }),
            e == PageEvent::Saved,
    {
        self.dirty = false;
        PageEvent::Saved
    }
}

/// The header line over the page: `#tag` while a tag's results are shown;
/// otherwise the page's name, followed by ` •` while it has unsaved edits.
pub open spec fn header_spec(name: Seq<char>, dirty: bool, tag: Option<Seq<char>>) -> Seq<char> {
    match tag {
        Some(t) => seq!['#'] + t,
        None => if dirty {
            name + seq![' ', '•']
        } else {
            name
        },
    }
}

/// The header line over the page (see `header_spec`).
pub fn header_text(name: &str, dirty: bool, tag: Option<&str>) -> (r: String)
    ensures
        r@ == header_spec(name@, dirty, match tag {
            Some(t) => Some(t@),
            None => None,
        }),
{
    match tag {
        Some(t) => {
            let mut out = String::new();
            push_char(&mut out, '#');
            out.append(t);
            out
        },
        None => {
            let mut out = name.to_string();
            if dirty {
                push_char(&mut out, ' ');
                push_char(&mut out, '•');
            }
            out
        },
    }
}

} // verus!
