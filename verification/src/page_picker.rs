//! The page picker's state: the entries on offer, the filter typed so far,
//! the entries it keeps, and which of them is highlighted.

use vstd::prelude::*;
use crate::page_completion::{row_above, row_below};
use crate::store::{day_of, sort_days, sorted_dates};
use crate::journal::{display_name, iso_name, render_date, JournalDate, JOURNAL_NAME_FORMAT};
use crate::text::{ascii_lower, contains_str, occurs_in, str_len, to_ascii_lower};

verus! {

broadcast use vstd::seq_lib::group_seq_properties;

/// A page, by name, or a journal, by date.
#[derive(Debug, PartialEq, Eq)]
pub enum PageEntry {
    Page(String),
    Journal(JournalDate),
}

/// What the picker announces.
#[derive(Debug, PartialEq, Eq)]
pub enum PagePickerEvent {
    Selected(PageEntry),
    Cancelled,
}

/// The filter state, in three buckets.
#[derive(Debug, Clone, Copy, PartialEq, Eq, Structural)]
pub enum FilterCategory {
    Empty,
    NonEmptyMatches,
    NonEmptyNoMatches,
}

/// Where the highlight sits among the kept entries.
#[derive(Debug, Clone, Copy, PartialEq, Eq, Structural)]
pub enum SelectionPosition {
    NoSelection,
    First,
    Middle,
    Last,
}

/// The model of an entry.
pub enum EntryView {
    Page(Seq<char>),
    Journal(JournalDate),
}

pub open spec fn entry_view(e: PageEntry) -> EntryView {
    match e {
        PageEntry::Page(n) => EntryView::Page(n@),
        PageEntry::Journal(d) => EntryView::Journal(d),
    }
}

/// `l` is how entry `e` is labelled: a page by its name, a journal by its
/// `YYYY-MM-DD` date.
pub open spec fn labels_as(e: EntryView, l: Seq<char>) -> bool {
    match e {
        EntryView::Page(n) => l == n,
        EntryView::Journal(d) => {
            &&& (iso_name(d) matches Some(t) ==> l == t)
            &&& (0 <= d.y() <= 9999 ==> l == render_date(
                JOURNAL_NAME_FORMAT@,
                d.y() as nat,
                d.m() as nat,
                d.d() as nat,
            ))
        },
    }
}

impl PageEntry {
    /// How the entry is shown and filtered.
    pub fn label(&self) -> (r: String)
        ensures
            labels_as(entry_view(*self), r@),
    {
        match self {
            PageEntry::Page(name) => name.clone(),
            PageEntry::Journal(date) => display_name(date),
        }
    }
}

/// A copy of an entry.
pub fn copy_entry(e: &PageEntry) -> (r: PageEntry)
    ensures
        entry_view(r) == entry_view(*e),
{
    match e {
        PageEntry::Page(n) => PageEntry::Page(n.clone()),
        PageEntry::Journal(d) => PageEntry::Journal(*d),
    }
}

/// A label is kept by the filter when the filter is empty or, ignoring ASCII
/// case, occurs in it.
pub open spec fn keeps(label: Seq<char>, query: Seq<char>) -> bool {
    query.len() == 0 || occurs_in(ascii_lower(query), ascii_lower(label))
}

/// The positions, in order, among the first `n` labels, that the filter keeps.
pub open spec fn kept(labels: Seq<Seq<char>>, query: Seq<char>, n: int) -> Seq<int>
    decreases n,
{
    if n <= 0 {
        Seq::empty()
    } else if keeps(labels[n - 1], query) {
        kept(labels, query, n - 1).push(n - 1)
    } else {
        kept(labels, query, n - 1)
    }
}

/// The positions of all the labels the filter keeps.
pub open spec fn filter_spec(labels: Seq<Seq<char>>, query: Seq<char>) -> Seq<int> {
    kept(labels, query, labels.len() as int)
}

/// What the picker offers: every page, in the order given, then every
/// journal, newest first.
pub open spec fn entries_spec(pages: Seq<Seq<char>>, journals: Seq<(int, int, int)>) -> Seq<EntrySort> {
    pages.map_values(|n: Seq<char>| EntrySort::Page(n)) + sort_days(journals).reverse().map_values(
        |d: (int, int, int)| EntrySort::Journal(d),
    )
}

/// An entry as far as the order of the offer goes: a page by name, a
/// journal by day.
pub enum EntrySort {
    Page(Seq<char>),
    Journal((int, int, int)),
}

pub open spec fn entry_sort(e: PageEntry) -> EntrySort {
    match e {
        PageEntry::Page(n) => EntrySort::Page(n@),
        PageEntry::Journal(d) => EntrySort::Journal(day_of(d)),
    }
}

/// The entries the picker offers: every page, then every journal, newest
/// first.
pub fn picker_entries(pages: &[String], journals: &[JournalDate]) -> (r: Vec<PageEntry>)
    ensures
        r@.map_values(|e: PageEntry| entry_sort(e)) == entries_spec(
            pages@.map_values(|n: String| n@),
            journals@.map_values(|d: JournalDate| day_of(d)),
        ),
{
    let ghost pv = pages@.map_values(|n: String| n@);
    let mut out: Vec<PageEntry> = Vec::new();
    let mut i: usize = 0;
    while i < pages.len()
        invariant
            i <= pages.len(),
            pv == pages@.map_values(|n: String| n@),
            out@.map_values(|e: PageEntry| entry_sort(e)) == pv.take(i as int).map_values(|n: Seq<char>| EntrySort::Page(n)),
        decreases pages.len() - i,
    {
        let ghost o0 = out@;
        let name = pages[i].clone();
        assert(name@ == pv[i as int]);
        let e = PageEntry::Page(name);
        out.push(e);
        assert(out@ == o0.push(e));
        assert(out@.map_values(|e: PageEntry| entry_sort(e)) =~= o0.map_values(|e: PageEntry| entry_sort(e)).push(EntrySort::Page(pv[i as int])));
        assert(pv.take(i + 1) =~= pv.take(i as int).push(pv[i as int]));
        assert(out@.map_values(|e: PageEntry| entry_sort(e)) =~= pv.take(i + 1).map_values(|n: Seq<char>| EntrySort::Page(n)));
        i += 1;
    }
    assert(pv.take(pages.len() as int) =~= pv);
    let sorted = sorted_dates(journals);
    let ghost sv = sorted@.map_values(|d: JournalDate| day_of(d));
    let ghost base = out@.map_values(|e: PageEntry| entry_sort(e));
    let mut k = sorted.len();
    while k > 0
        invariant
            k <= sorted.len(),
            sv == sorted@.map_values(|d: JournalDate| day_of(d)),
            out@.map_values(|e: PageEntry| entry_sort(e)) == base + sv.skip(k as int).reverse().map_values(
                |d: (int, int, int)| EntrySort::Journal(d),
            ),
        decreases k,
    {
        let d = sorted[k - 1];
        let ghost o0 = out@;
        let e = PageEntry::Journal(d);
        out.push(e);
        assert(out@ == o0.push(e));
        assert(entry_sort(e) == EntrySort::Journal(sv[k - 1]));
        assert(out@.map_values(|e: PageEntry| entry_sort(e)) =~= o0.map_values(|e: PageEntry| entry_sort(e)).push(EntrySort::Journal(sv[k - 1])));
        assert(sv.skip(k - 1).reverse() =~= sv.skip(k as int).reverse().push(sv[k - 1]));
        assert(out@.map_values(|e: PageEntry| entry_sort(e)) =~= base + sv.skip(k - 1).reverse().map_values(
            |d: (int, int, int)| EntrySort::Journal(d),
        ));
        k -= 1;
    }
    assert(sv.skip(0) =~= sv);
    out
}

/// The model of the picker.
pub struct PickerView {
    pub entries: Seq<EntryView>,
    pub labels: Seq<Seq<char>>,
    pub query: Seq<char>,
    pub filtered: Seq<int>,
    pub selected: int,
}

/// The page picker's state.
pub struct PagePicker {
    entries: Vec<PageEntry>,
    labels: Vec<String>,
    query: String,
    filtered: Vec<usize>,
    selected: usize,
}

impl View for PagePicker {
    type V = PickerView;

    closed spec fn view(&self) -> PickerView {
        PickerView {
            entries: self.entries@.map_values(|e: PageEntry| entry_view(e)),
            labels: self.labels@.map_values(|l: String| l@),
            query: self.query@,
            filtered: self.filtered@.map_values(|i: usize| i as int),
            selected: self.selected as int,
        }
    }
}

/// Each entry has its label; the kept positions are what the filter keeps;
/// the highlight is on a kept entry, or at 0 when none is kept.
pub open spec fn picker_wf(p: PickerView) -> bool {
    &&& p.labels.len() == p.entries.len()
    &&& forall|i: int| 0 <= i < p.entries.len() ==> labels_as(#[trigger] p.entries[i], p.labels[i])
    &&& p.filtered == filter_spec(p.labels, p.query)
    &&& p.filtered.len() == 0 ==> p.selected == 0
    &&& p.filtered.len() > 0 ==> 0 <= p.selected < p.filtered.len()
}

proof fn lemma_kept_bounds(labels: Seq<Seq<char>>, query: Seq<char>, n: int)
    requires
        0 <= n <= labels.len(),
    ensures
        kept(labels, query, n).len() <= n,
        forall|j: int| 0 <= j < kept(labels, query, n).len() ==> 0 <= #[trigger] kept(labels, query, n)[j] < n,
    decreases n,
{
    if n > 0 {
        lemma_kept_bounds(labels, query, n - 1);
    }
}

proof fn lemma_keep_all(labels: Seq<Seq<char>>, n: int)
    requires
        0 <= n <= labels.len(),
    ensures
        kept(labels, Seq::empty(), n) == Seq::new(n as nat, |i: int| i),
    decreases n,
{
    if n > 0 {
        lemma_keep_all(labels, n - 1);
        assert(Seq::new(n as nat, |i: int| i) =~= Seq::new((n - 1) as nat, |i: int| i).push(n - 1));
    }
}

impl PagePicker {
    pub closed spec fn wf(&self) -> bool {
        picker_wf(self@)
    }

    /// A picker over `entries`, with an empty filter: every entry is kept
    /// and the first is highlighted.
    pub fn new(entries: Vec<PageEntry>) -> (p: PagePicker)
        ensures
            p.wf(),
            p@.entries == entries@.map_values(|e: PageEntry| entry_view(e)),
            p@.query.len() == 0,
            p@.filtered == Seq::new(entries@.len(), |i: int| i),
            p@.selected == 0,
    {
        let ghost es = entries@.map_values(|e: PageEntry| entry_view(e));
        let mut labels: Vec<String> = Vec::new();
        let mut filtered: Vec<usize> = Vec::new();
        let mut i: usize = 0;
        while i < entries.len()
            invariant
                i <= entries.len(),
                es == entries@.map_values(|e: PageEntry| entry_view(e)),
                labels@.len() == i,
                forall|j: int| 0 <= j < i ==> labels_as(#[trigger] es[j], labels@[j]@),
                filtered@.len() == i,
                forall|j: int| 0 <= j < i ==> #[trigger] filtered@[j] == j,
            decreases entries.len() - i,
        {
            let l = entries[i].label();
            labels.push(l);
            filtered.push(i);
            i += 1;
        }
        let p = PagePicker { entries, labels, query: String::new(), filtered, selected: 0 };
        proof {
            let lv = p@.labels;
            lemma_keep_all(lv, lv.len() as int);
            assert(p@.filtered =~= Seq::new(entries@.len(), |i: int| i));
            assert(p@.query =~= Seq::<char>::empty());
        }
        p
    }

    /// Replaces the filter: the kept entries are recomputed and the first is
    /// highlighted.
    pub fn set_query(&mut self, query: &str)
        requires
            old(self).wf(),
        ensures
            final(self).wf(),
            final(self)@.entries == old(self)@.entries,
            final(self)@.labels == old(self)@.labels,
            final(self)@.query == query@,
            final(self)@.filtered == filter_spec(old(self)@.labels, query@),
            final(self)@.selected == 0,
    {
        let ghost lv = self@.labels;
        let needle = to_ascii_lower(query);
        let mut filtered: Vec<usize> = Vec::new();
        let mut i: usize = 0;
        while i < self.labels.len()
            invariant
                i <= self.labels.len(),
                lv == self.labels@.map_values(|l: String| l@),
                needle@ == ascii_lower(query@),
                filtered@.map_values(|k: usize| k as int) == kept(lv, query@, i as int),
            decreases self.labels.len() - i,
        {
            let keep = str_len(query) == 0 || {
                let hay = to_ascii_lower(self.labels[i].as_str());
                contains_str(hay.as_str(), needle.as_str())
            };
            proof {
                assert(lv[i as int] == self.labels@[i as int]@);
            }
            if keep {
                filtered.push(i);
                assert(filtered@.map_values(|k: usize| k as int) =~= kept(lv, query@, i as int).push(i as int));
            }
            i += 1;
        }
        self.filtered = filtered;
        self.query = query.to_string();
        self.selected = 0;
        proof {
            lemma_kept_bounds(lv, query@, lv.len() as int);
        }
    }

    /// Moves the highlight up one kept entry, from the first to the last.
    pub fn select_up(&mut self)
        requires
            old(self).wf(),
        ensures
            final(self).wf(),
            final(self)@ == (PickerView {
                selected: row_above(old(self)@.selected, old(self)@.filtered.len() as int),
                ..old(self)@
            }),
    {
        if self.filtered.len() == 0 {
            return;
        }
        self.selected = if self.selected == 0 {
            self.filtered.len() - 1
        } else {
            self.selected - 1
        };
    }

    /// Moves the highlight down one kept entry, from the last to the first.
    pub fn select_down(&mut self)
        requires
            old(self).wf(),
        ensures
            final(self).wf(),
            final(self)@ == (PickerView {
                selected: row_below(old(self)@.selected, old(self)@.filtered.len() as int),
                ..old(self)@
            }),
    {
        if self.filtered.len() == 0 {
            return;
        }
        self.selected = (self.selected + 1) % self.filtered.len();
    }

    /// The highlighted entry, if any entry is kept.
    pub fn current_entry(&self) -> (r: Option<PageEntry>)
        requires
            self.wf(),
        ensures
            self@.filtered.len() == 0 ==> r is None,
            self@.filtered.len() > 0 ==> (r matches Some(e) && entry_view(e)
                == self@.entries[self@.filtered[self@.selected]]),
    {
        if self.selected < self.filtered.len() {
            let i = self.filtered[self.selected];
            proof {
                lemma_kept_bounds(self@.labels, self@.query, self@.labels.len() as int);
                assert(self@.filtered[self.selected as int] == i as int);
            }
            Some(copy_entry(&self.entries[i]))
        } else {
            None
        }
    }

    /// What Enter announces: the highlighted entry, if any.
    pub fn submitted(&self) -> (r: Option<PagePickerEvent>)
        requires
            self.wf(),
        ensures
            self@.filtered.len() == 0 ==> r is None,
            self@.filtered.len() > 0 ==> (r matches Some(PagePickerEvent::Selected(e)) && entry_view(e)
                == self@.entries[self@.filtered[self@.selected]]),
    {
        match self.current_entry() {
            Some(e) => Some(PagePickerEvent::Selected(e)),
            None => None,
        }
    }

    /// The filter state: empty, or not and keeping some entries, or not and
    /// keeping none.
    pub fn filter_category(&self) -> (r: FilterCategory)
        ensures
            r == (if self@.query.len() == 0 {
                FilterCategory::Empty
            } else if self@.filtered.len() == 0 {
                FilterCategory::NonEmptyNoMatches
            } else {
                FilterCategory::NonEmptyMatches
            }),
    {
        if str_len(self.query.as_str()) == 0 {
            FilterCategory::Empty
        } else if self.filtered.len() == 0 {
            FilterCategory::NonEmptyNoMatches
        } else {
            FilterCategory::NonEmptyMatches
        }
    }

    /// The highlighted row, counted among the kept entries.
    pub fn selected(&self) -> (r: usize)
        ensures
            r == self@.selected,
    {
        self.selected
    }

    /// The kept entries, in order: the rows the picker shows.
    pub fn visible_entries(&self) -> (r: Vec<PageEntry>)
        requires
            self.wf(),
        ensures
            r@.len() == self@.filtered.len(),
            forall|k: int| 0 <= k < r@.len() ==> entry_view(#[trigger] r@[k]) == self@.entries[self@.filtered[k]],
    {
        proof {
            lemma_kept_bounds(self@.labels, self@.query, self@.labels.len() as int);
        }
        let mut out: Vec<PageEntry> = Vec::new();
        let mut k: usize = 0;
        while k < self.filtered.len()
            invariant
                k <= self.filtered.len(),
                self.wf(),
                out@.len() == k,
                forall|j: int| 0 <= j < self@.filtered.len() ==> 0 <= #[trigger] self@.filtered[j] < self@.entries.len(),
                forall|j: int| 0 <= j < k ==> entry_view(#[trigger] out@[j]) == self@.entries[self@.filtered[j]],
            decreases self.filtered.len() - k,
        {
            let i = self.filtered[k];
            assert(self@.filtered[k as int] == i as int);
            out.push(copy_entry(&self.entries[i]));
            k += 1;
        }
        out
    }

    /// Where the highlight sits among the kept entries.
    pub fn selection_position(&self) -> (r: SelectionPosition)
        ensures
            r == (if self@.filtered.len() == 0 {
                SelectionPosition::NoSelection
            } else if self@.selected == 0 {
                SelectionPosition::First
            } else if self@.selected == self@.filtered.len() - 1 {
                SelectionPosition::Last
            } else {
                SelectionPosition::Middle
            }),
    {
        let len = self.filtered.len();
        if len == 0 {
            SelectionPosition::NoSelection
        } else if self.selected == 0 {
            SelectionPosition::First
        } else if self.selected == len - 1 {
            SelectionPosition::Last
        } else {
            SelectionPosition::Middle
        }
    }
}

} // verus!
