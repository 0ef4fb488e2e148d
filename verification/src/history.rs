//! Browser-style back and forward stacks over page identities.
//!
//! Entries are sources (a page name or a journal date), not open pages: a
//! page literally named `2026-07-13` is a different page from that date's
//! journal, and storing the identity keeps the two apart through a round
//! trip.

use vstd::prelude::*;
use crate::tags::{copy_source, same_source, source_view, SourceView, TagSource};

verus! {

broadcast use vstd::seq_lib::group_seq_properties;

/// Which way to move through history.
#[derive(Clone, Copy, Debug, PartialEq, Eq, Structural)]
pub enum Direction {
    Back,
    Forward,
}

/// The other way.
pub open spec fn opposite_spec(d: Direction) -> Direction {
    match d {
        Direction::Back => Direction::Forward,
        Direction::Forward => Direction::Back,
    }
}

/// The other way.
pub fn opposite(direction: Direction) -> (r: Direction)
    ensures
        r == opposite_spec(direction),
{
    match direction {
        Direction::Back => Direction::Forward,
        Direction::Forward => Direction::Back,
    }
}

/// The model of a history: the back stack and the forward stack, each with
/// its most recent entry last.
pub struct HistoryView {
    pub back: Seq<SourceView>,
    pub forward: Seq<SourceView>,
}

/// The stack that a move in `d` takes its target from.
pub open spec fn stack_of(h: HistoryView, d: Direction) -> Seq<SourceView> {
    match d {
        Direction::Back => h.back,
        Direction::Forward => h.forward,
    }
}

/// `h` with the stack of direction `d` replaced by `s`.
pub open spec fn with_stack(h: HistoryView, d: Direction, s: Seq<SourceView>) -> HistoryView {
    match d {
        Direction::Back => HistoryView { back: s, ..h },
        Direction::Forward => HistoryView { forward: s, ..h },
    }
}

/// A move to a new page: the page left, if any, goes on the back stack, and
/// the forward stack is dropped.
pub open spec fn record_spec(h: HistoryView, outgoing: Option<SourceView>) -> HistoryView {
    HistoryView {
        back: match outgoing {
            Some(o) => h.back.push(o),
            None => h.back,
        },
        forward: Seq::empty(),
    }
}

/// A completed move in `d`: the entry moved to leaves its stack, and the page
/// left, if any, goes on the opposite stack.
pub open spec fn commit_spec(h: HistoryView, d: Direction, outgoing: Option<SourceView>) -> HistoryView {
    let s = stack_of(h, d);
    let h1 = with_stack(h, d, if s.len() > 0 { s.drop_last() } else { s });
    match outgoing {
        Some(o) => with_stack(h1, opposite_spec(d), stack_of(h1, opposite_spec(d)).push(o)),
        None => h1,
    }
}

/// The entry a move in `d` would go to.
pub open spec fn peek_spec(h: HistoryView, d: Direction) -> Option<SourceView> {
    let s = stack_of(h, d);
    if s.len() > 0 {
        Some(s.last())
    } else {
        None
    }
}

pub open spec fn opt_source_view(s: Option<TagSource>) -> Option<SourceView> {
    match s {
        Some(x) => Some(source_view(x)),
        None => None,
    }
}

/// Back and forward stacks of visited pages.
pub struct NavHistory {
    back: Vec<TagSource>,
    forward: Vec<TagSource>,
}

impl View for NavHistory {
    type V = HistoryView;

    closed spec fn view(&self) -> HistoryView {
        HistoryView {
            back: self.back@.map_values(|s: TagSource| source_view(s)),
            forward: self.forward@.map_values(|s: TagSource| source_view(s)),
        }
    }
}

impl Default for NavHistory {
    fn default() -> (h: NavHistory)
        ensures
            h@.back.len() == 0,
            h@.forward.len() == 0,
    {
        NavHistory { back: Vec::new(), forward: Vec::new() }
    }
}

impl NavHistory {
    /// An empty history.
    pub fn new() -> (h: NavHistory)
        ensures
            h@.back.len() == 0,
            h@.forward.len() == 0,
    {
        NavHistory { back: Vec::new(), forward: Vec::new() }
    }

    /// Records a move to a new page: `outgoing` becomes the back target and
    /// the forward stack is dropped, since the branch it described can no
    /// longer be reached.
    pub fn record(&mut self, outgoing: Option<TagSource>)
        ensures
            final(self)@ == record_spec(old(self)@, opt_source_view(outgoing)),
    {
        let ghost h = self@;
        if let Some(o) = outgoing {
            self.back.push(o);
        }
        self.forward.clear();
        proof {
            assert(self@.back =~= record_spec(h, opt_source_view(outgoing)).back);
            assert(self@.forward =~= Seq::<SourceView>::empty());
        }
    }

    /// The entry a move in `direction` would go to.
    pub fn peek(&self, direction: Direction) -> (r: Option<&TagSource>)
        ensures
            match r {
                Some(s) => peek_spec(self@, direction) == Some(source_view(*s)),
                None => peek_spec(self@, direction) is None,
            },
    {
        let s = match direction {
            Direction::Back => &self.back,
            Direction::Forward => &self.forward,
        };
        if s.len() > 0 {
            Some(&s[s.len() - 1])
        } else {
            None
        }
    }

    /// Completes a move in `direction`: drops the entry just moved to and
    /// pushes the page it replaced onto the opposite stack.
    pub fn commit(&mut self, direction: Direction, outgoing: Option<TagSource>)
        ensures
            final(self)@ == commit_spec(old(self)@, direction, opt_source_view(outgoing)),
    {
        let ghost h = self@;
        match direction {
            Direction::Back => {
                self.back.pop();
                if let Some(o) = outgoing {
                    self.forward.push(o);
                }
            },
            Direction::Forward => {
                self.forward.pop();
                if let Some(o) = outgoing {
                    self.back.push(o);
                }
            },
        }
        proof {
            let want = commit_spec(h, direction, opt_source_view(outgoing));
            assert(self@.back =~= want.back);
            assert(self@.forward =~= want.forward);
        }
    }

    /// Settles a move in `direction` after its target (the entry `peek`
    /// gave) was opened or failed to open: a successful open commits the
    /// move; a failed one leaves the history as it was, so the entry is not
    /// consumed. Returns whether the move happened.
    pub fn settle_move(&mut self, direction: Direction, outgoing: Option<TagSource>, opened: bool) -> (moved: bool)
        ensures
            moved == opened,
            opened ==> final(self)@ == commit_spec(old(self)@, direction, opt_source_view(outgoing)),
            !opened ==> final(self)@ == old(self)@,
    {
        if opened {
            self.commit(direction, outgoing);
        }
        opened
    }

    /// Records the move from `outgoing` to `target`, unless it stays on the
    /// same page: re-opening the current page is no move.
    pub fn record_visit(&mut self, outgoing: Option<TagSource>, target: &TagSource)
        ensures
            opt_source_view(outgoing) == Some(source_view(*target)) ==> final(self)@ == old(self)@,
            opt_source_view(outgoing) != Some(source_view(*target)) ==> final(self)@ == record_spec(
                old(self)@,
                opt_source_view(outgoing),
            ),
    {
        let same = match &outgoing {
            Some(o) => same_source(o, target),
            None => false,
        };
        if same {
            return;
        }
        self.record(outgoing);
    }
}

/// A copy of an optional source.
pub fn copy_opt_source(s: Option<&TagSource>) -> (r: Option<TagSource>)
    ensures
        match s {
            Some(x) => opt_source_view(r) == Some(source_view(*x)),
            None => r is None,
        },
{
    match s {
        Some(x) => Some(copy_source(x)),
        None => None,
    }
}

/// Going one step back and then one step forward again returns both stacks
/// to what they were; so does forward then back.
pub proof fn law_step_and_return(h: HistoryView, d: Direction, here: SourceView)
    requires
        stack_of(h, d).len() > 0,
    ensures
        commit_spec(
            commit_spec(h, d, Some(here)),
            opposite_spec(d),
            Some(stack_of(h, d).last()),
        ) == h,
{
    let h2 = commit_spec(
        commit_spec(h, d, Some(here)),
        opposite_spec(d),
        Some(stack_of(h, d).last()),
    );
    assert(stack_of(h, d).drop_last().push(stack_of(h, d).last()) =~= stack_of(h, d));
    match d {
        Direction::Back => {
            assert(h2.back =~= h.back);
            assert(h2.forward =~= h.forward);
        },
        Direction::Forward => {
            assert(h2.back =~= h.back);
            assert(h2.forward =~= h.forward);
        },
    }
}

/// Visiting a new page leaves nothing to go forward to, and the page left is
/// the first one to go back to.
pub proof fn law_record_clears_forward(h: HistoryView, outgoing: SourceView)
    ensures
        peek_spec(record_spec(h, Some(outgoing)), Direction::Forward) is None,
        peek_spec(record_spec(h, Some(outgoing)), Direction::Back) == Some(outgoing),
{
}

/// A completed move records the page left on the opposite stack, even when
/// the stack moved along was already empty.
pub proof fn law_commit_records_outgoing(h: HistoryView, d: Direction, outgoing: SourceView)
    ensures
        peek_spec(commit_spec(h, d, Some(outgoing)), opposite_spec(d)) == Some(outgoing),
{
}

} // verus!
