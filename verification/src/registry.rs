//! Which page is which: keys of open pages, and stepping through page names.

use vstd::prelude::*;
use crate::journal::{display_name, iso_name, JournalDate};
use crate::tags::{source_view, SourceView, TagSource};

verus! {

broadcast use vstd::seq_lib::group_seq_properties;

/// The key of an open page. A regular page literally named `2026-07-13` and
/// that date's journal are distinct pages living in different directories;
/// keying by display name would let whichever opened first win, so the key
/// keeps the two apart.
#[derive(Clone, Debug, PartialEq, Eq, Hash)]
pub enum PageKey {
    Page(String),
    Journal(JournalDate),
}

impl PageKey {
    /// Where the page's tags come from.
    pub fn source(&self) -> (r: TagSource)
        ensures
            self matches PageKey::Page(n) ==> source_view(r) == SourceView::Page(n@),
            self matches PageKey::Journal(d) ==> source_view(r) == SourceView::Journal(*d),
    {
        match self {
            PageKey::Page(name) => TagSource::Page(name.clone()),
            PageKey::Journal(date) => TagSource::Journal(*date),
        }
    }

    /// The page's name as shown: a page's own name, a journal's ISO date.
    pub fn display_name(&self) -> (r: String)
        ensures
            self matches PageKey::Page(n) ==> r@ == n@,
            self matches PageKey::Journal(d) ==> (iso_name(*d) matches Some(t) ==> r@ == t),
    {
        match self {
            PageKey::Page(name) => name.clone(),
            PageKey::Journal(date) => display_name(date),
        }
    }
}

/// The position of the first name equal to `c`.
pub open spec fn position_of(names: Seq<Seq<char>>, c: Seq<char>) -> Option<int>
    decreases names.len(),
{
    if names.len() == 0 {
        None
    } else if names[0] == c {
        Some(0)
    } else {
        match position_of(names.drop_first(), c) {
            Some(i) => Some(i + 1),
            None => None,
        }
    }
}

/// The index of the page after `current` in `names`, wrapping around; the
/// first page when there is no current page or it is not listed.
pub open spec fn pick_next_spec(names: Seq<Seq<char>>, current: Option<Seq<char>>) -> Option<int> {
    if names.len() == 0 {
        None
    } else {
        match current {
            Some(c) => match position_of(names, c) {
                Some(i) => Some((i + 1) % (names.len() as int)),
                None => Some(0),
            },
            None => Some(0),
        }
    }
}

/// The page after `current` in `names`, wrapping around; the first page when
/// there is no current page or it is not listed; nothing when there are no
/// pages.
pub fn pick_next<'a>(names: &'a [String], current: Option<&String>) -> (r: Option<&'a String>)
    ensures
        match pick_next_spec(names@.map_values(|s: String| s@), opt_ref_view(current)) {
            Some(i) => r matches Some(n) && 0 <= i < names.len() && n@ == names@[i]@,
            None => r is None,
        },
{
    let ghost ns = names@.map_values(|s: String| s@);
    if names.len() == 0 {
        return None;
    }
    let idx = match current {
        Some(c) => {
            let mut i: usize = 0;
            while i < names.len() && !(names[i] == *c)
                invariant
                    i <= names.len(),
                    ns == names@.map_values(|s: String| s@),
                    position_of(ns, c@) == match position_of(ns.skip(i as int), c@) {
                        Some(k) => Some(k + i),
                        None => None,
                    },
                decreases names.len() - i,
            {
                assert(ns.skip(i as int).drop_first() =~= ns.skip(i + 1));
                assert(ns.skip(i as int)[0] == names@[i as int]@);
                i += 1;
            }
            assert(ns.skip(0) =~= ns);
            if i < names.len() {
                assert(ns.skip(i as int)[0] == names@[i as int]@);
                let n = names.len();
                if i + 1 == n {
                    proof {
                        vstd::arithmetic::div_mod::lemma_mod_self_0(n as int);
                    }
                    0
                } else {
                    proof {
                        vstd::arithmetic::div_mod::lemma_small_mod((i + 1) as nat, n as nat);
                    }
                    i + 1
                }
            } else {
                0
            }
        },
        None => 0,
    };
    Some(&names[idx])
}

/// Saving every page tries each one even after a failure and reports the
/// first failure: given whether each save succeeded, in order, the position
/// of the first that failed, if any.
pub fn first_failed(saved: &[bool]) -> (r: Option<usize>)
    ensures
        match r {
            Some(i) => i < saved@.len() && !saved@[i as int] && forall|j: int| 0 <= j < i ==> saved@[j],
            None => forall|j: int| 0 <= j < saved@.len() ==> saved@[j],
        },
{
    let mut i: usize = 0;
    while i < saved.len()
        invariant
            i <= saved@.len(),
            forall|j: int| 0 <= j < i ==> saved@[j],
        decreases saved.len() - i,
    {
        if !saved[i] {
            return Some(i);
        }
        i += 1;
    }
    None
}

pub open spec fn opt_ref_view(c: Option<&String>) -> Option<Seq<char>> {
    match c {
        Some(s) => Some(s@),
        None => None,
    }
}

} // verus!
