//! The linked-references section of a page: which sources reference it, in
//! what order they are listed, and how many references are shown.

use vstd::prelude::*;
use crate::journal::JournalDate;
use crate::outline::BlockId;
use crate::tags::{copy_source, same_source, source_view, SourceView, TagSource};
use crate::text::{str_less, str_lt};

verus! {

broadcast use vstd::seq_lib::group_seq_properties;

/// How many references are shown at first, and how many more each
/// "Show more" adds.
pub const REFS_PER_PAGE: usize = 20;

/// `a` is an earlier date than `b`.
pub open spec fn date_lt(a: JournalDate, b: JournalDate) -> bool {
    a.y() < b.y() || (a.y() == b.y() && (a.m() < b.m() || (a.m() == b.m() && a.d() < b.d())))
}

/// `a` is listed before `b`: journals first, newest first, then pages by
/// name.
pub open spec fn listed_before(a: SourceView, b: SourceView) -> bool {
    match a {
        SourceView::Journal(x) => match b {
            SourceView::Journal(y) => date_lt(y, x),
            SourceView::Page(_) => true,
        },
        SourceView::Page(x) => match b {
            SourceView::Journal(_) => false,
            SourceView::Page(y) => str_lt(x, y),
        },
    }
}

/// Inserts `x` into `s` after every source not listed after it.
pub open spec fn insert_source(s: Seq<SourceView>, x: SourceView) -> Seq<SourceView>
    decreases s.len(),
{
    if s.len() == 0 {
        seq![x]
    } else if listed_before(x, s.last()) {
        insert_source(s.drop_last(), x).push(s.last())
    } else {
        s.push(x)
    }
}

/// `s` in listing order (sources listed alike keep their order).
pub open spec fn sort_sources(s: Seq<SourceView>) -> Seq<SourceView>
    decreases s.len(),
{
    if s.len() == 0 {
        Seq::empty()
    } else {
        insert_source(sort_sources(s.drop_last()), s.last())
    }
}

/// The sources of `s` other than `own`.
pub open spec fn others(s: Seq<SourceView>, own: SourceView) -> Seq<SourceView>
    decreases s.len(),
{
    if s.len() == 0 {
        Seq::empty()
    } else if s.last() == own {
        others(s.drop_last(), own)
    } else {
        others(s.drop_last(), own).push(s.last())
    }
}

/// The sources that reference a page, without the page itself, in listing
/// order.
pub open spec fn ordered_spec(s: Seq<SourceView>, own: SourceView) -> Seq<SourceView> {
    sort_sources(others(s, own))
}

// ---- the listing order ----------------------------------------------------
/// Journal `a` is dated after journal `b`: a later year, or the same year
/// and a later month, or the same month and a later day.
pub open spec fn dated_after(a: JournalDate, b: JournalDate) -> bool {
    a.y() > b.y() || (a.y() == b.y() && (a.m() > b.m() || (a.m() == b.m() && a.d() > b.d())))
}

/// `r` lists journals before pages, journals newest first and pages by name.
pub open spec fn in_listing_order(r: Seq<SourceView>) -> bool {
    forall|i: int, j: int|
        0 <= i < j < r.len() ==> {
            &&& ((#[trigger] r[i]) is Page ==> (#[trigger] r[j]) is Page)
            &&& (r[i] matches SourceView::Journal(a) ==> (r[j] matches SourceView::Journal(b) ==> !dated_after(b, a)))
            &&& (r[i] matches SourceView::Page(x) ==> (r[j] matches SourceView::Page(y) ==> !str_lt(y, x)))
        }
}

/// No element of `s` is listed before an earlier one.
spec fn listing_sorted(s: Seq<SourceView>) -> bool {
    forall|i: int, j: int| 0 <= i < j < s.len() ==> !listed_before(#[trigger] s[j], #[trigger] s[i])
}

proof fn lemma_listed_asym(a: SourceView, b: SourceView)
    ensures
        listed_before(a, b) ==> !listed_before(b, a),
{
    if let SourceView::Page(x) = a {
        if let SourceView::Page(y) = b {
            crate::text::lemma_str_lt_asym(x, y);
        }
    }
}

proof fn lemma_listed_split(a: SourceView, b: SourceView, c: SourceView)
    ensures
        listed_before(a, c) ==> listed_before(a, b) || listed_before(b, c),
{
    if let SourceView::Page(x) = a {
        if let SourceView::Page(y) = b {
            if let SourceView::Page(z) = c {
                crate::text::lemma_str_lt_split(x, y, z);
            }
        }
    }
}

proof fn lemma_insert_source_sorted(s: Seq<SourceView>, x: SourceView)
    requires
        listing_sorted(s),
    ensures
        listing_sorted(insert_source(s, x)),
        forall|y: SourceView| #[trigger] insert_source(s, x).contains(y) <==> (y == x || s.contains(y)),
    decreases s.len(),
{
    let r = insert_source(s, x);
    if s.len() == 0 {
        assert(r =~= seq![x]);
        assert forall|y: SourceView| #[trigger] r.contains(y) <==> (y == x || s.contains(y)) by {
            if r.contains(y) {
                assert(r[0] == y);
            }
            if y == x {
                assert(r[0] == y);
            }
        }
    } else if listed_before(x, s.last()) {
        let d = s.drop_last();
        let last = s.last();
        assert(listing_sorted(d)) by {
            assert forall|i: int, j: int| 0 <= i < j < d.len() implies !listed_before(#[trigger] d[j], #[trigger] d[i]) by {
                assert(d[i] == s[i] && d[j] == s[j]);
            }
        }
        lemma_insert_source_sorted(d, x);
        let m = insert_source(d, x);
        assert(r == m.push(last));
        lemma_listed_asym(x, last);
        assert forall|i: int, j: int| 0 <= i < j < r.len() implies !listed_before(#[trigger] r[j], #[trigger] r[i]) by {
            if j < m.len() {
                assert(r[i] == m[i] && r[j] == m[j]);
            } else {
                assert(r[j] == last);
                assert(r[i] == m[i]);
                assert(m.contains(m[i]));
                if m[i] != x {
                    assert(d.contains(m[i]));
                    let k = choose|k: int| 0 <= k < d.len() && d[k] == m[i];
                    assert(s[k] == d[k]);
                    assert(s[s.len() - 1] == last);
                }
            }
        }
        assert forall|y: SourceView| #[trigger] r.contains(y) <==> (y == x || s.contains(y)) by {
            if r.contains(y) {
                let k = choose|k: int| 0 <= k < r.len() && r[k] == y;
                if k < m.len() {
                    assert(m[k] == y);
                    assert(m.contains(y));
                    if y != x {
                        let q = choose|q: int| 0 <= q < d.len() && d[q] == y;
                        assert(s[q] == y);
                    }
                } else {
                    assert(s[s.len() - 1] == y);
                }
            }
            if y == x {
                assert(m.contains(y));
                let q = choose|q: int| 0 <= q < m.len() && m[q] == y;
                assert(r[q] == y);
            } else if s.contains(y) {
                let k = choose|k: int| 0 <= k < s.len() && s[k] == y;
                if k < s.len() - 1 {
                    assert(d[k] == y);
                    assert(d.contains(y));
                    assert(m.contains(y));
                    let q = choose|q: int| 0 <= q < m.len() && m[q] == y;
                    assert(r[q] == y);
                } else {
                    assert(r[r.len() - 1] == y);
                }
            }
        }
    } else {
        assert(r == s.push(x));
        assert forall|i: int, j: int| 0 <= i < j < r.len() implies !listed_before(#[trigger] r[j], #[trigger] r[i]) by {
            if j < s.len() {
                assert(r[i] == s[i] && r[j] == s[j]);
            } else {
                assert(r[j] == x && r[i] == s[i]);
                if i < s.len() - 1 {
                    assert(!listed_before(s[s.len() - 1], s[i]));
                    lemma_listed_split(x, s[s.len() - 1], s[i]);
                }
            }
        }
        assert forall|y: SourceView| #[trigger] r.contains(y) <==> (y == x || s.contains(y)) by {
            if r.contains(y) {
                let k = choose|k: int| 0 <= k < r.len() && r[k] == y;
                if k < s.len() {
                    assert(s[k] == y);
                }
            }
            if y == x {
                assert(r[r.len() - 1] == y);
            } else if s.contains(y) {
                let k = choose|k: int| 0 <= k < s.len() && s[k] == y;
                assert(r[k] == y);
            }
        }
    }
}

proof fn lemma_sort_sources(s: Seq<SourceView>)
    ensures
        listing_sorted(sort_sources(s)),
        forall|y: SourceView| #[trigger] sort_sources(s).contains(y) <==> s.contains(y),
    decreases s.len(),
{
    if s.len() > 0 {
        let d = s.drop_last();
        lemma_sort_sources(d);
        lemma_insert_source_sorted(sort_sources(d), s.last());
        assert forall|y: SourceView| #[trigger] sort_sources(s).contains(y) <==> s.contains(y) by {
            if s.contains(y) && y != s.last() {
                let k = choose|k: int| 0 <= k < s.len() && s[k] == y;
                assert(d[k] == y);
                assert(d.contains(y));
            }
            if d.contains(y) {
                let k = choose|k: int| 0 <= k < d.len() && d[k] == y;
                assert(s[k] == y);
            }
            if y == s.last() {
                assert(s[s.len() - 1] == y);
            }
        }
    } else {
        assert(sort_sources(s) =~= Seq::<SourceView>::empty());
    }
}

proof fn lemma_others(s: Seq<SourceView>, own: SourceView)
    ensures
        forall|y: SourceView| #[trigger] others(s, own).contains(y) <==> (s.contains(y) && y != own),
    decreases s.len(),
{
    if s.len() > 0 {
        let d = s.drop_last();
        lemma_others(d, own);
        let r = others(d, own);
        assert forall|y: SourceView| #[trigger] others(s, own).contains(y) <==> (s.contains(y) && y != own) by {
            let o = others(s, own);
            if o.contains(y) {
                let k = choose|k: int| 0 <= k < o.len() && o[k] == y;
                if k < r.len() {
                    assert(r[k] == y);
                    assert(r.contains(y));
                    let q = choose|q: int| 0 <= q < d.len() && d[q] == y;
                    assert(s[q] == y);
                } else {
                    assert(s[s.len() - 1] == y);
                }
            }
            if s.contains(y) && y != own {
                let k = choose|k: int| 0 <= k < s.len() && s[k] == y;
                if k < s.len() - 1 {
                    assert(d[k] == y);
                    assert(d.contains(y));
                    assert(r.contains(y));
                    let q = choose|q: int| 0 <= q < r.len() && r[q] == y;
                    assert(o[q] == y);
                } else {
                    assert(o[o.len() - 1] == y);
                }
            }
        }
    }
}

/// Law: the linked references are listed journals first, newest first, then
/// pages by name, and they are exactly the sources given other than the
/// page itself.
pub proof fn law_listing_order(s: Seq<SourceView>, own: SourceView)
    ensures
        in_listing_order(ordered_spec(s, own)),
        forall|y: SourceView| #[trigger] ordered_spec(s, own).contains(y) <==> (s.contains(y) && y != own),
{
    lemma_others(s, own);
    lemma_sort_sources(others(s, own));
    let r = ordered_spec(s, own);
    assert forall|i: int, j: int| 0 <= i < j < r.len() implies {
        &&& ((#[trigger] r[i]) is Page ==> (#[trigger] r[j]) is Page)
        &&& (r[i] matches SourceView::Journal(a) ==> (r[j] matches SourceView::Journal(b) ==> !dated_after(b, a)))
        &&& (r[i] matches SourceView::Page(x) ==> (r[j] matches SourceView::Page(y) ==> !str_lt(y, x)))
    } by {
        assert(!listed_before(r[j], r[i]));
    }
}

pub open spec fn sources_view(s: Seq<TagSource>) -> Seq<SourceView> {
    s.map_values(|x: TagSource| source_view(x))
}

proof fn lemma_insert_source_at(s: Seq<SourceView>, x: SourceView, p: int)
    requires
        0 <= p <= s.len(),
        forall|q: int| p <= q < s.len() ==> listed_before(x, #[trigger] s[q]),
        p == 0 || !listed_before(x, s[p - 1]),
    ensures
        insert_source(s, x) == s.take(p).push(x) + s.skip(p),
    decreases s.len(),
{
    if s.len() == 0 {
        assert(s.take(p).push(x) + s.skip(p) =~= seq![x]);
    } else if listed_before(x, s.last()) {
        lemma_insert_source_at(s.drop_last(), x, p);
        assert(s.drop_last().take(p) == s.take(p));
        assert(s.take(p).push(x) + s.skip(p) =~= (s.take(p).push(x) + s.drop_last().skip(p)).push(s.last()));
    } else {
        assert(p == s.len());
        assert(s.take(p).push(x) + s.skip(p) =~= s.push(x));
    }
}

fn before(a: &TagSource, b: &TagSource) -> (r: bool)
    ensures
        r == listed_before(source_view(*a), source_view(*b)),
{
    match a {
        TagSource::Journal(x) => match b {
            TagSource::Journal(y) => y.year() < x.year() || (y.year() == x.year() && (y.month() < x.month() || (
            y.month() == x.month() && y.day() < x.day()))),
            TagSource::Page(_) => true,
        },
        TagSource::Page(x) => match b {
            TagSource::Journal(_) => false,
            TagSource::Page(y) => str_less(x.as_str(), y.as_str()),
        },
    }
}

/// The sources that reference a page, without `own` (the page itself), in
/// listing order: journals newest first, then pages by name.
pub fn ordered_sources(sources: &[TagSource], own: &TagSource) -> (r: Vec<TagSource>)
    ensures
        sources_view(r@) == ordered_spec(sources_view(sources@), source_view(*own)),
{
    let ghost all = sources_view(sources@);
    let ghost ov = source_view(*own);
    let mut out: Vec<TagSource> = Vec::new();
    let mut i: usize = 0;
    assert(all.take(0) =~= Seq::<SourceView>::empty());
    assert(sources_view(out@) =~= Seq::<SourceView>::empty());
    while i < sources.len()
        invariant
            i <= sources.len(),
            all == sources_view(sources@),
            ov == source_view(*own),
            sources_view(out@) == sort_sources(others(all.take(i as int), ov)),
        decreases sources.len() - i,
    {
        proof {
            assert(all.take(i + 1).drop_last() =~= all.take(i as int));
            assert(all.take(i + 1).last() == all[i as int]);
            assert(all[i as int] == source_view(sources@[i as int]));
        }
        if !same_source(&sources[i], own) {
            let x = copy_source(&sources[i]);
            let ghost cur = sources_view(out@);
            let mut p = out.len();
            while p > 0 && before(&x, &out[p - 1])
                invariant
                    p <= out.len(),
                    cur == sources_view(out@),
                    forall|q: int| p <= q < out.len() ==> listed_before(source_view(x), #[trigger] cur[q]),
                decreases p,
            {
                p -= 1;
            }
            proof {
                lemma_insert_source_at(cur, source_view(x), p as int);
                let o = others(all.take(i as int), ov);
                assert(others(all.take(i + 1), ov) == o.push(all[i as int]));
                assert(o.push(all[i as int]).drop_last() =~= o);
                assert(sort_sources(others(all.take(i + 1), ov)) == insert_source(cur, all[i as int]));
            }
            out.insert(p, x);
            assert(sources_view(out@) =~= cur.take(p as int).push(source_view(x)) + cur.skip(p as int));
        }
        i += 1;
    }
    assert(all.take(sources.len() as int) =~= all);
    out
}

/// The first `budget` references of `groups`, still grouped by source: each
/// group gives as many as the budget has left.
pub open spec fn visible_spec(groups: Seq<(SourceView, Seq<u64>)>, budget: nat) -> Seq<(SourceView, Seq<u64>)>
    decreases groups.len(),
{
    if groups.len() == 0 || budget == 0 {
        Seq::empty()
    } else {
        let take = if budget < groups[0].1.len() {
            budget
        } else {
            groups[0].1.len()
        };
        seq![(groups[0].0, groups[0].1.take(take as int))] + visible_spec(groups.skip(1), (budget - take) as nat)
    }
}

pub open spec fn group_view(g: (TagSource, Vec<BlockId>)) -> (SourceView, Seq<u64>) {
    (source_view(g.0), g.1@.map_values(|b: BlockId| b.0))
}

pub open spec fn groups_view(gs: Seq<(TagSource, Vec<BlockId>)>) -> Seq<(SourceView, Seq<u64>)> {
    gs.map_values(|g: (TagSource, Vec<BlockId>)| group_view(g))
}

proof fn lemma_visible_split(groups: Seq<(SourceView, Seq<u64>)>, i: int, budget: nat)
    requires
        0 <= i < groups.len(),
        budget > 0,
    ensures
        visible_spec(groups.skip(i), budget) == seq![(
            groups[i].0,
            groups[i].1.take(if budget < groups[i].1.len() { budget as int } else { groups[i].1.len() as int }),
        )] + visible_spec(
            groups.skip(i + 1),
            (budget - (if budget < groups[i].1.len() { budget as int } else { groups[i].1.len() as int })) as nat,
        ),
{
    assert(groups.skip(i).skip(1) =~= groups.skip(i + 1));
    assert(groups.skip(i)[0] == groups[i]);
}

/// The leading `shown` references, still grouped by source.
pub fn visible_groups(groups: &[(TagSource, Vec<BlockId>)], shown: usize) -> (r: Vec<(TagSource, Vec<BlockId>)>)
    ensures
        groups_view(r@) == visible_spec(groups_view(groups@), shown as nat),
{
    let ghost gv = groups_view(groups@);
    let mut budget = shown;
    let mut visible: Vec<(TagSource, Vec<BlockId>)> = Vec::new();
    let mut i: usize = 0;
    assert(gv.skip(0) =~= gv);
    assert(groups_view(visible@) + visible_spec(gv.skip(0), budget as nat) =~= visible_spec(gv, shown as nat));
    while i < groups.len() && budget > 0
        invariant
            i <= groups.len(),
            gv == groups_view(groups@),
            groups_view(visible@) + visible_spec(gv.skip(i as int), budget as nat) == visible_spec(gv, shown as nat),
        decreases groups.len() - i,
    {
        let blocks = &groups[i].1;
        let take = if budget < blocks.len() {
            budget
        } else {
            blocks.len()
        };
        let mut kept: Vec<BlockId> = Vec::new();
        let mut k: usize = 0;
        while k < take
            invariant
                k <= take,
                take <= blocks.len(),
                kept@ == blocks@.take(k as int),
            decreases take - k,
        {
            let b = blocks[k];
            kept.push(b);
            assert(kept@ =~= blocks@.take(k + 1));
            k += 1;
        }
        assert(kept@.map_values(|b: BlockId| b.0) =~= blocks@.map_values(|b: BlockId| b.0).take(take as int));
        let ghost before = groups_view(visible@);
        proof {
            lemma_visible_split(gv, i as int, budget as nat);
            assert(gv[i as int] == group_view(groups@[i as int]));
        }
        visible.push((copy_source(&groups[i].0), kept));
        assert(groups_view(visible@) =~= before.push((gv[i as int].0, gv[i as int].1.take(take as int))));
        budget = budget - take;
        i += 1;
    }
    assert(visible_spec(gv.skip(i as int), budget as nat) =~= Seq::<(SourceView, Seq<u64>)>::empty());
    assert(groups_view(visible@) =~= groups_view(visible@) + Seq::<(SourceView, Seq<u64>)>::empty());
    visible
}

} // verus!
