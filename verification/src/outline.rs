//! The block tree of a page: nested bullets with stable ids.

use vstd::prelude::*;
use vstd::multiset::Multiset;
use vstd::string::*;
use crate::outline_text::{
    bullet_from, bullets, depth_steps, depths, indent_chars, lemma_depths_steps,
    lemma_render_append, lemma_render_single, lemma_scan_len, lemma_steps_bound, numbered,
    lemma_retext_last, lemma_rows_le_chars, parse_bullet, parse_rows, pop_ge, push_bullet, push_line, reindent, render,
    render_line, rows, rows_view, scan, spaces_prefix, stack_after, strip_cr,
};
use crate::text::{chars_of, push_char, string_of};
use crate::forest::{
    delete_spec, find_from, flat, lemma_ids_push, lemma_nodes_push, lemma_visible_push, nodes,
    visible, visible_node, valid_path, flat_node, lemma_flat_push, lemma_ids_flat,
    lemma_numbered_ids_unique, Entry, find_path, forest_ids, get_spec, id_bag, ids_unique_below, indent_in,
    indent_spec, insert_after_spec, leaf, lemma_find_from, lemma_indent_bag,
    lemma_insert_leaf_bag, lemma_outdent_bag, lemma_pp_prefix_valid, lemma_remove_bag, lemma_replace_bag,
    lemma_replace_same_bag, lemma_replace_siblings, lemma_siblings_push, lemma_swap_bag,
    lemma_update_same_ids_bag, move_down_spec, move_up_spec, node_at, outdent_in, outdent_spec,
    replace_siblings, retext_in, set_text_spec, siblings_at, swap_in, toggle_in, toggle_spec,
    valid_pp, lists_fit, Node,
};

verus! {

broadcast use vstd::seq_lib::group_seq_properties;

/// Identity of a block within an outline.
#[derive(Clone, Copy, PartialEq, Eq, Hash, Debug, Structural)]
pub struct BlockId(pub u64);

/// One bullet of an outline, with its nested children.
#[derive(Debug)]
pub struct Block {
    pub id: BlockId,
    pub text: String,
    pub children: Vec<Block>,
    pub collapsed: bool,
}

pub open spec fn view_block(b: Block) -> Node
    decreases b,
{
    Node {
        id: b.id.0,
        text: b.text@,
        collapsed: b.collapsed,
        children: view_forest(b.children@),
    }
}

pub open spec fn view_forest(s: Seq<Block>) -> Seq<Node>
    decreases s,
{
    if s.len() == 0 {
        Seq::empty()
    } else {
        seq![view_block(s[0])] + view_forest(s.subrange(1, s.len() as int))
    }
}

/// The model of a block list is the list of the blocks' models.
pub broadcast proof fn lemma_view_forest(s: Seq<Block>)
    ensures
        #[trigger] view_forest(s).len() == s.len(),
        forall|i: int| 0 <= i < s.len() ==> view_forest(s)[i] == view_block(s[i]),
    decreases s.len(),
{
    if s.len() > 0 {
        let r = s.subrange(1, s.len() as int);
        lemma_view_forest(r);
        assert forall|i: int| 0 <= i < s.len() implies view_forest(s)[i] == view_block(s[i]) by {
            if i > 0 {
                assert(r[i - 1] == s[i]);
            }
        }
    }
}

/// Two block lists with the same models have the same model.
pub proof fn lemma_view_forest_ext(a: Seq<Block>, b: Seq<Node>)
    requires
        a.len() == b.len(),
        forall|i: int| 0 <= i < a.len() ==> view_block(a[i]) == b[i],
    ensures
        view_forest(a) == b,
{
    lemma_view_forest(a);
    assert(view_forest(a) =~= b);
}

/// Hands out block ids, each one once. One source kept for the whole
/// program gives every block it ever makes an id no other block has had.
#[derive(Debug)]
pub struct IdSource {
    next: u64,
}

impl IdSource {
    /// The id the source hands out next.
    pub closed spec fn upcoming(&self) -> u64 {
        self.next
    }

    /// A source that starts at id 1.
    pub fn new() -> (s: IdSource)
        ensures
            s.upcoming() == 1,
    {
        IdSource { next: 1 }
    }

    /// The id the source hands out next.
    pub fn peek(&self) -> (r: u64)
        ensures
            r == self.upcoming(),
    {
        self.next
    }

    /// A fresh id: the upcoming one, which is then used up.
    pub fn fresh(&mut self) -> (id: BlockId)
        requires
            old(self).upcoming() < u64::MAX,
        ensures
            id.0 == old(self).upcoming(),
            final(self).upcoming() == old(self).upcoming() + 1,
    {
        let id = BlockId(self.next);
        self.next = self.next + 1;
        id
    }

    /// Skips ahead to `next` unless the source is already past it.
    fn reach(&mut self, next: u64)
        ensures
            final(self).upcoming() == first_free(next, old(self).upcoming()),
    {
        if self.next < next {
            self.next = next;
        }
    }
}

/// The first id that is free both in an outline whose ids are below
/// `own_next` and for a source about to hand out `source_next`.
pub open spec fn first_free(own_next: u64, source_next: u64) -> u64 {
    if own_next <= source_next {
        source_next
    } else {
        own_next
    }
}

impl Block {
    /// A new, expanded leaf block with a fresh id from `ids`.
    pub fn new(ids: &mut IdSource, text: String) -> (b: Block)
        requires
            old(ids).upcoming() < u64::MAX,
        ensures
            view_block(b) == leaf(old(ids).upcoming(), text@),
            b.id.0 == old(ids).upcoming(),
            final(ids).upcoming() == old(ids).upcoming() + 1,
    {
        let id = ids.fresh();
        let b = Block { id, text, children: Vec::new(), collapsed: false };
        proof {
            assert(view_forest(b.children@) =~= Seq::<Node>::empty());
        }
        b
    }
}

/// A page's blocks, as a forest of root blocks.
#[derive(Debug)]
pub struct Outline {
    roots: Vec<Block>,
    next_id: u64,
}

impl View for Outline {
    type V = Seq<Node>;

    closed spec fn view(&self) -> Seq<Node> {
        view_forest(self.roots@)
    }
}

/// Every sibling list reached by `pp` is a vector of blocks, so its length
/// is an index.
proof fn lemma_blocks_fit_at(bs: Seq<Block>, pp: Seq<usize>)
    requires
        bs.len() <= usize::MAX,
        valid_pp(view_forest(bs), pp),
    ensures
        siblings_at(view_forest(bs), pp).len() <= usize::MAX,
    decreases pp.len(),
{
    lemma_view_forest(bs);
    if pp.len() > 0 {
        let i = pp[0] as int;
        let kids = bs[i].children;
        vstd::std_specs::vec::axiom_spec_len(&kids);
        assert(view_forest(bs)[i] == view_block(bs[i]));
        lemma_blocks_fit_at(kids@, pp.drop_first());
    }
}

/// Every sibling list of an outline fits the index type, as the laws of
/// the block edits ask (see `lists_fit`).
pub proof fn lemma_outline_lists_fit(o: &Outline)
    ensures
        lists_fit(o@),
{
    vstd::std_specs::vec::axiom_spec_len(&o.roots);
    assert forall|pp: Seq<usize>| valid_pp(o@, pp) implies #[trigger] siblings_at(o@, pp).len() <= usize::MAX by {
        lemma_blocks_fit_at(o.roots@, pp);
    }
}

/// Searches `blocks` for `id`, as `find_from` does.
fn find_in(blocks: &Vec<Block>, id: BlockId) -> (r: Option<Vec<usize>>)
    ensures
        match r {
            Some(p) => find_from(view_forest(blocks@), id.0, 0) == Some(p@),
            None => find_from(view_forest(blocks@), id.0, 0) is None,
        },
    decreases blocks@,
{
    let ghost f = view_forest(blocks@);
    proof {
        lemma_view_forest(blocks@);
    }
    let mut i: usize = 0;
    while i < blocks.len()
        invariant
            i <= blocks.len(),
            f == view_forest(blocks@),
            f.len() == blocks@.len(),
            forall|j: int| 0 <= j < blocks@.len() ==> f[j] == view_block(blocks@[j]),
            find_from(f, id.0, 0) == find_from(f, id.0, i as int),
        decreases blocks.len() - i,
    {
        assert(f[i as int].children == view_forest(blocks@[i as int].children@));
        if blocks[i].id == id {
            let v = vec![i];
            assert(v@ =~= seq![i]);
            return Some(v);
        }
        match find_in(&blocks[i].children, id) {
            Some(mut p) => {
                let ghost q = p@;
                p.insert(0, i);
                assert(p@ =~= seq![i] + q);
                return Some(p);
            },
            None => {},
        }
        i += 1;
    }
    None
}

/// Detaches the sibling list at `pp[d..]`, leaving an empty list there.
fn take_siblings(blocks: &mut Vec<Block>, pp: &Vec<usize>, d: usize) -> (taken: Vec<Block>)
    requires
        d <= pp.len(),
        valid_pp(view_forest(old(blocks)@), pp@.skip(d as int)),
    ensures
        view_forest(taken@) == siblings_at(view_forest(old(blocks)@), pp@.skip(d as int)),
        view_forest(final(blocks)@) == replace_siblings(
            view_forest(old(blocks)@),
            pp@.skip(d as int),
            Seq::empty(),
        ),
    decreases pp.len() - d,
{
    let ghost f = view_forest(blocks@);
    proof {
        lemma_view_forest(blocks@);
    }
    if d == pp.len() {
        let mut taken: Vec<Block> = Vec::new();
        std::mem::swap(blocks, &mut taken);
        proof {
            assert(pp@.skip(d as int) =~= Seq::<usize>::empty());
            assert(view_forest(blocks@) =~= Seq::<Node>::empty());
        }
        taken
    } else {
        let ghost rest = pp@.skip(d as int);
        assert(rest.drop_first() =~= pp@.skip(d + 1));
        let i = pp[d];
        let mut b = blocks.remove(i);
        let ghost b0 = b;
        assert(view_block(b0) == f[i as int]);
        let taken = take_siblings(&mut b.children, pp, d + 1);
        blocks.insert(i, b);
        proof {
            assert(blocks@ =~= old(blocks)@.update(i as int, b));
            let n = f[i as int];
            let n1 = Node { children: replace_siblings(n.children, rest.drop_first(), Seq::empty()), ..n };
            assert(view_block(b) == n1);
            lemma_view_forest_ext(blocks@, f.update(i as int, n1));
        }
        taken
    }
}

/// Puts `ns` back as the sibling list at `pp[d..]`.
fn put_siblings(blocks: &mut Vec<Block>, pp: &Vec<usize>, d: usize, ns: Vec<Block>)
    requires
        d <= pp.len(),
        valid_pp(view_forest(old(blocks)@), pp@.skip(d as int)),
    ensures
        view_forest(final(blocks)@) == replace_siblings(
            view_forest(old(blocks)@),
            pp@.skip(d as int),
            view_forest(ns@),
        ),
    decreases pp.len() - d,
{
    let ghost f = view_forest(blocks@);
    proof {
        lemma_view_forest(blocks@);
    }
    if d == pp.len() {
        *blocks = ns;
        proof {
            assert(pp@.skip(d as int) =~= Seq::<usize>::empty());
        }
    } else {
        let ghost rest = pp@.skip(d as int);
        assert(rest.drop_first() =~= pp@.skip(d + 1));
        let i = pp[d];
        let mut b = blocks.remove(i);
        let ghost b0 = b;
        assert(view_block(b0) == f[i as int]);
        put_siblings(&mut b.children, pp, d + 1, ns);
        blocks.insert(i, b);
        proof {
            assert(blocks@ =~= old(blocks)@.update(i as int, b));
            let n = f[i as int];
            let n1 = Node {
                children: replace_siblings(n.children, rest.drop_first(), view_forest(ns@)),
                ..n
            };
            assert(view_block(b) == n1);
            lemma_view_forest_ext(blocks@, f.update(i as int, n1));
        }
    }
}

impl Outline {
    /// Ids are distinct and below the next id the outline will hand out.
    pub closed spec fn wf(&self) -> bool {
        ids_unique_below(self@, self.next_id)
    }

    /// The id the next created block will receive.
    pub closed spec fn next_fresh(&self) -> u64 {
        self.next_id
    }

    /// An outline with no blocks.
    pub fn new() -> (o: Outline)
        ensures
            o@ == Seq::<Node>::empty(),
            o.wf(),
            o.next_fresh() == 1,
    {
        let o = Outline { roots: Vec::new(), next_id: 1 };
        proof {
            assert(o@ =~= Seq::<Node>::empty());
            assert(forest_ids(o@) =~= Seq::<u64>::empty());
            assert(id_bag(o@) =~= Multiset::empty());
        }
        o
    }

    /// The root blocks.
    pub fn roots(&self) -> (r: &Vec<Block>)
        ensures
            view_forest(r@) == self@,
    {
        &self.roots
    }

    /// The id of the first root block, if any.
    pub fn first_block_id(&self) -> (r: Option<BlockId>)
        ensures
            r == (if self@.len() == 0 {
                None::<BlockId>
            } else {
                Some(BlockId(self@[0].id))
            }),
    {
        proof {
            lemma_view_forest(self.roots@);
        }
        if self.roots.len() == 0 {
            None
        } else {
            Some(self.roots[0].id)
        }
    }

    /// Index path from the roots to the block `id`.
    pub fn path_to(&self, id: BlockId) -> (r: Option<Vec<usize>>)
        ensures
            match r {
                Some(p) => find_path(self@, id.0) == Some(p@),
                None => find_path(self@, id.0) is None,
            },
    {
        find_in(&self.roots, id)
    }

    /// Finds `id` and splits its path into parent path and index.
    fn locate(&self, id: BlockId) -> (r: Option<(Vec<usize>, usize)>)
        ensures
            match r {
                Some((pp, k)) => find_path(self@, id.0) == Some(pp@.push(k)) && valid_pp(
                    self@,
                    pp@,
                ) && k < siblings_at(self@, pp@).len(),
                None => find_path(self@, id.0) is None,
            },
    {
        match self.path_to(id) {
            None => None,
            Some(mut p) => {
                proof {
                    lemma_find_from(self@, id.0, 0);
                }
                let ghost p0 = p@;
                let k = p.pop().unwrap();
                assert(p0 =~= p@.push(k));
                Some((p, k))
            },
        }
    }
}


/// The model of a pushed-onto list.
pub proof fn lemma_view_push(x: Seq<Block>, y: Block)
    ensures
        view_forest(x.push(y)) == view_forest(x).push(view_block(y)),
{
    lemma_view_forest(x);
    lemma_view_forest_ext(x.push(y), view_forest(x).push(view_block(y)));
}

/// The model of a list after removing one block.
pub proof fn lemma_view_remove(x: Seq<Block>, k: int)
    requires
        0 <= k < x.len(),
    ensures
        view_forest(x.remove(k)) == view_forest(x).remove(k),
{
    lemma_view_forest(x);
    lemma_view_forest_ext(x.remove(k), view_forest(x).remove(k));
}

/// The model of a list after inserting one block.
pub proof fn lemma_view_insert(x: Seq<Block>, k: int, y: Block)
    requires
        0 <= k <= x.len(),
    ensures
        view_forest(x.insert(k, y)) == view_forest(x).insert(k, view_block(y)),
{
    lemma_view_forest(x);
    lemma_view_forest_ext(x.insert(k, y), view_forest(x).insert(k, view_block(y)));
}

impl Outline {
    /// Takes the sibling list at `pp` out of the outline.
    fn detach(&mut self, pp: &Vec<usize>) -> (s: Vec<Block>)
        requires
            valid_pp(old(self)@, pp@),
        ensures
            view_forest(s@) == siblings_at(old(self)@, pp@),
            final(self)@ == replace_siblings(old(self)@, pp@, Seq::empty()),
            final(self).next_id == old(self).next_id,
    {
        assert(pp@.skip(0) =~= pp@);
        take_siblings(&mut self.roots, pp, 0)
    }

    /// Puts a sibling list back at `pp`, after `detach`.
    fn attach(&mut self, pp: &Vec<usize>, s: Vec<Block>, Ghost(f): Ghost<Seq<Node>>)
        requires
            valid_pp(f, pp@),
            old(self)@ == replace_siblings(f, pp@, Seq::empty()),
        ensures
            final(self)@ == replace_siblings(f, pp@, view_forest(s@)),
            final(self).next_id == old(self).next_id,
    {
        assert(pp@.skip(0) =~= pp@);
        proof {
            lemma_replace_siblings(f, pp@, Seq::empty(), view_forest(s@));
        }
        put_siblings(&mut self.roots, pp, 0, s);
    }

    /// Nests the block under its previous sibling, as that sibling's last
    /// child. Returns whether anything moved: not for an unknown id or a
    /// first sibling.
    pub fn indent(&mut self, id: BlockId) -> (moved: bool)
        requires
            old(self).wf(),
        ensures
            final(self).wf(),
            final(self).next_fresh() == old(self).next_fresh(),
            (moved, final(self)@) == indent_spec(old(self)@, id.0),
            id_bag(final(self)@) == id_bag(old(self)@),
    {
        let (pp, k) = match self.locate(id) {
            None => return false,
            Some(x) => x,
        };
        assert(pp@.push(k).drop_last() =~= pp@);
        if k == 0 {
            return false;
        }
        let ghost f = self@;
        let ghost s = siblings_at(f, pp@);
        let mut sibs = self.detach(&pp);
        let ghost v0 = sibs@;
        proof {
            lemma_view_forest(v0);
        }
        let b = sibs.remove(k);
        let mut prev = sibs.remove(k - 1);
        let ghost c0 = prev.children@;
        prev.children.push(b);
        sibs.insert(k - 1, prev);
        proof {
            lemma_view_push(c0, b);
            assert(view_block(prev) == Node {
                children: s[k - 1].children.push(s[k as int]),
                ..s[k - 1]
            });
            lemma_view_forest_ext(sibs@, indent_in(s, k as int));
        }
        self.attach(&pp, sibs, Ghost(f));
        proof {
            lemma_indent_bag(s, k as int);
            lemma_replace_same_bag(f, pp@, indent_in(s, k as int));
        }
        true
    }

    /// Moves the block out of its parent, to just after the parent. Returns
    /// whether anything moved: not for an unknown id or a root block.
    pub fn outdent(&mut self, id: BlockId) -> (moved: bool)
        requires
            old(self).wf(),
        ensures
            final(self).wf(),
            final(self).next_fresh() == old(self).next_fresh(),
            (moved, final(self)@) == outdent_spec(old(self)@, id.0),
            id_bag(final(self)@) == id_bag(old(self)@),
    {
        let (mut gp, k) = match self.locate(id) {
            None => return false,
            Some(x) => x,
        };
        let ghost p = gp@.push(k);
        assert(p.drop_last() =~= gp@);
        if gp.len() == 0 {
            return false;
        }
        let ghost pp = gp@;
        let pi = gp.pop().unwrap();
        assert(pp =~= gp@.push(pi));
        assert(p.subrange(0, p.len() - 2) =~= gp@);
        let ghost f = self@;
        proof {
            // the parent path is valid one level up
            lemma_pp_prefix_valid(f, pp, gp@.len() as int);
            assert(pp.take(gp@.len() as int) =~= gp@);
            lemma_siblings_push(f, gp@, pi);
        }
        let ghost s = siblings_at(f, gp@);
        let mut sibs = self.detach(&gp);
        let ghost v0 = sibs@;
        proof {
            lemma_view_forest(v0);
        }
        let mut parent = sibs.remove(pi);
        let ghost c0 = parent.children@;
        proof {
            lemma_view_forest(c0);
        }
        let b = parent.children.remove(k);
        proof {
            lemma_view_remove(c0, k as int);
        }
        sibs.insert(pi, parent);
        assert(pi < sibs.len());
        sibs.insert(pi + 1, b);
        proof {
            lemma_view_forest_ext(sibs@, outdent_in(s, pi as int, k as int));
        }
        self.attach(&gp, sibs, Ghost(f));
        proof {
            lemma_outdent_bag(s, pi as int, k as int);
            lemma_replace_same_bag(f, gp@, outdent_in(s, pi as int, k as int));
        }
        true
    }

    /// Trades places with the previous sibling. Returns whether anything
    /// moved: not for an unknown id or a first sibling.
    pub fn move_up(&mut self, id: BlockId) -> (moved: bool)
        requires
            old(self).wf(),
        ensures
            final(self).wf(),
            final(self).next_fresh() == old(self).next_fresh(),
            (moved, final(self)@) == move_up_spec(old(self)@, id.0),
            id_bag(final(self)@) == id_bag(old(self)@),
    {
        let (pp, k) = match self.locate(id) {
            None => return false,
            Some(x) => x,
        };
        assert(pp@.push(k).drop_last() =~= pp@);
        if k == 0 {
            return false;
        }
        let ghost f = self@;
        let ghost s = siblings_at(f, pp@);
        let mut sibs = self.detach(&pp);
        proof {
            lemma_view_forest(sibs@);
        }
        let b = sibs.remove(k);
        sibs.insert(k - 1, b);
        proof {
            lemma_view_forest_ext(sibs@, swap_in(s, k - 1, k as int));
        }
        self.attach(&pp, sibs, Ghost(f));
        proof {
            lemma_swap_bag(s, k - 1);
            lemma_replace_same_bag(f, pp@, swap_in(s, k - 1, k as int));
        }
        true
    }

    /// Trades places with the next sibling. Returns whether anything moved:
    /// not for an unknown id or a last sibling.
    pub fn move_down(&mut self, id: BlockId) -> (moved: bool)
        requires
            old(self).wf(),
        ensures
            final(self).wf(),
            final(self).next_fresh() == old(self).next_fresh(),
            (moved, final(self)@) == move_down_spec(old(self)@, id.0),
            id_bag(final(self)@) == id_bag(old(self)@),
    {
        let (pp, k) = match self.locate(id) {
            None => return false,
            Some(x) => x,
        };
        assert(pp@.push(k).drop_last() =~= pp@);
        let ghost f = self@;
        let ghost s = siblings_at(f, pp@);
        let mut sibs = self.detach(&pp);
        proof {
            lemma_view_forest(sibs@);
        }
        assert(k < sibs.len());
        if k + 1 >= sibs.len() {
            self.attach(&pp, sibs, Ghost(f));
            proof {
                lemma_replace_siblings(f, pp@, s, s);
            }
            return false;
        }
        let b = sibs.remove(k + 1);
        sibs.insert(k, b);
        proof {
            lemma_view_forest_ext(sibs@, swap_in(s, k as int, k + 1));
        }
        self.attach(&pp, sibs, Ghost(f));
        proof {
            lemma_swap_bag(s, k as int);
            lemma_replace_same_bag(f, pp@, swap_in(s, k as int, k + 1));
        }
        true
    }

    /// Flips whether the block's children are hidden. Returns whether the
    /// block was found.
    pub fn toggle_collapse(&mut self, id: BlockId) -> (found: bool)
        requires
            old(self).wf(),
        ensures
            final(self).wf(),
            final(self).next_fresh() == old(self).next_fresh(),
            (found, final(self)@) == toggle_spec(old(self)@, id.0),
            id_bag(final(self)@) == id_bag(old(self)@),
    {
        let (pp, k) = match self.locate(id) {
            None => return false,
            Some(x) => x,
        };
        assert(pp@.push(k).drop_last() =~= pp@);
        let ghost f = self@;
        let ghost s = siblings_at(f, pp@);
        let mut sibs = self.detach(&pp);
        proof {
            lemma_view_forest(sibs@);
        }
        let mut b = sibs.remove(k);
        b.collapsed = !b.collapsed;
        sibs.insert(k, b);
        proof {
            lemma_view_forest_ext(sibs@, toggle_in(s, k as int));
        }
        self.attach(&pp, sibs, Ghost(f));
        proof {
            lemma_update_same_ids_bag(s, k as int, toggle_in(s, k as int)[k as int]);
            lemma_replace_same_bag(f, pp@, toggle_in(s, k as int));
        }
        true
    }

    /// Replaces the block's text. Returns whether the block was found.
    pub fn set_text(&mut self, id: BlockId, text: String) -> (found: bool)
        requires
            old(self).wf(),
        ensures
            final(self).wf(),
            final(self).next_fresh() == old(self).next_fresh(),
            (found, final(self)@) == set_text_spec(old(self)@, id.0, text@),
            id_bag(final(self)@) == id_bag(old(self)@),
    {
        let (pp, k) = match self.locate(id) {
            None => return false,
            Some(x) => x,
        };
        assert(pp@.push(k).drop_last() =~= pp@);
        let ghost f = self@;
        let ghost s = siblings_at(f, pp@);
        let ghost t = text@;
        let mut sibs = self.detach(&pp);
        proof {
            lemma_view_forest(sibs@);
        }
        let mut b = sibs.remove(k);
        b.text = text;
        sibs.insert(k, b);
        proof {
            lemma_view_forest_ext(sibs@, retext_in(s, k as int, t));
        }
        self.attach(&pp, sibs, Ghost(f));
        proof {
            lemma_update_same_ids_bag(s, k as int, retext_in(s, k as int, t)[k as int]);
            lemma_replace_same_bag(f, pp@, retext_in(s, k as int, t));
        }
        true
    }

    /// Adds a new block with `text` right after the block `id`, at the same
    /// depth, and returns its id; `None` for an unknown id. The new id comes
    /// from `ids` (skipping ahead past this outline's ids, should `ids` be
    /// behind them), so it is fresh.
    pub fn insert_after(&mut self, id: BlockId, text: String, ids: &mut IdSource) -> (r: Option<BlockId>)
        requires
            old(self).wf(),
            first_free(old(self).next_fresh(), old(ids).upcoming()) < u64::MAX,
        ensures
            final(self).wf(),
            match r {
                Some(new_id) => {
                    &&& new_id.0 == first_free(old(self).next_fresh(), old(ids).upcoming())
                    &&& final(self).next_fresh() == new_id.0 + 1
                    &&& final(ids).upcoming() == new_id.0 + 1
                    &&& insert_after_spec(old(self)@, id.0, new_id.0, text@) == (
                        true,
                        final(self)@,
                    )
                    &&& id_bag(final(self)@) == id_bag(old(self)@).insert(new_id.0)
                },
                None => {
                    &&& insert_after_spec(old(self)@, id.0, first_free(old(self).next_fresh(), old(ids).upcoming()), text@).0
                        == false
                    &&& *final(self) == *old(self)
                    &&& final(ids).upcoming() == old(ids).upcoming()
                },
            },
    {
        let (pp, k) = match self.locate(id) {
            None => return None,
            Some(x) => x,
        };
        assert(pp@.push(k).drop_last() =~= pp@);
        let ghost f = self@;
        let ghost s = siblings_at(f, pp@);
        let ghost t = text@;
        ids.reach(self.next_id);
        let block = Block::new(ids, text);
        let new_id = block.id;
        let mut sibs = self.detach(&pp);
        proof {
            lemma_view_forest(sibs@);
        }
        let ghost v0 = sibs@;
        assert(k < sibs.len());
        sibs.insert(k + 1, block);
        proof {
            lemma_view_insert(v0, k + 1, block);
        }
        self.attach(&pp, sibs, Ghost(f));
        self.next_id = new_id.0 + 1;
        proof {
            let ns = s.insert(k + 1, leaf(new_id.0, t));
            lemma_insert_leaf_bag(s, k + 1, new_id.0, t);
            lemma_replace_bag(f, pp@, ns);
            let r = id_bag(self@);
            assert forall|x: u64| #[trigger] r.count(x) == id_bag(f).insert(new_id.0).count(x) by {
                assert(r.add(id_bag(s)).count(x) == id_bag(f).add(id_bag(ns)).count(x));
            }
            assert(r =~= id_bag(f).insert(new_id.0));
        }
        Some(new_id)
    }

    /// Removes the block and its subtree and returns it; `None` for an
    /// unknown id.
    pub fn delete(&mut self, id: BlockId) -> (r: Option<Block>)
        requires
            old(self).wf(),
        ensures
            final(self).wf(),
            final(self).next_fresh() == old(self).next_fresh(),
            match r {
                Some(b) => delete_spec(old(self)@, id.0) == (Some(view_block(b)), final(self)@),
                None => delete_spec(old(self)@, id.0) == (None::<Node>, final(self)@),
            },
    {
        let (pp, k) = match self.locate(id) {
            None => return None,
            Some(x) => x,
        };
        assert(pp@.push(k).drop_last() =~= pp@);
        let ghost f = self@;
        let ghost s = siblings_at(f, pp@);
        let mut sibs = self.detach(&pp);
        proof {
            lemma_view_forest(sibs@);
        }
        let ghost v0 = sibs@;
        let b = sibs.remove(k);
        proof {
            lemma_view_remove(v0, k as int);
        }
        self.attach(&pp, sibs, Ghost(f));
        proof {
            let ns = s.remove(k as int);
            lemma_remove_bag(s, k as int);
            lemma_replace_bag(f, pp@, ns);
            let r = id_bag(self@);
            assert forall|x: u64| #[trigger] r.count(x) <= id_bag(f).count(x) by {
                assert(r.add(id_bag(s)).count(x) == id_bag(f).add(id_bag(ns)).count(x));
            }
        }
        Some(b)
    }

    /// The text of the block `id`, if present.
    pub fn get(&self, id: BlockId) -> (r: Option<&str>)
        ensures
            match r {
                Some(t) => get_spec(self@, id.0) == Some(t@),
                None => get_spec(self@, id.0) is None,
            },
    {
        let (pp, k) = match self.locate(id) {
            None => return None,
            Some(x) => x,
        };
        assert(pp@.push(k).drop_last() =~= pp@);
        assert(pp@.push(k).last() == k);
        let ghost f = self@;
        let mut cur: &Vec<Block> = &self.roots;
        let mut d: usize = 0;
        while d < pp.len()
            invariant
                d <= pp.len(),
                valid_pp(f, pp@),
                view_forest(cur@) == siblings_at(f, pp@.take(d as int)),
                valid_pp(f, pp@.take(d as int)),
            decreases pp.len() - d,
        {
            proof {
                lemma_view_forest(cur@);
                lemma_pp_prefix_valid(f, pp@, d as int);
                lemma_siblings_push(f, pp@.take(d as int), pp[d as int]);
                assert(pp@.take(d as int).push(pp[d as int]) =~= pp@.take(d + 1));
            }
            cur = &cur[pp[d]].children;
            d += 1;
        }
        assert(pp@.take(d as int) =~= pp@);
        proof {
            lemma_view_forest(cur@);
        }
        Some(cur[k].text.as_str())
    }
}


/// Writes `text` with `pad` after each of its newlines.
fn write_text(out: &mut String, text: &String, pad: &String)
    ensures
        final(out)@ == old(out)@ + reindent(text@, pad@),
{
    let cs = chars_of(text.as_str());
    let mut i: usize = 0;
    assert(text@.take(0) =~= Seq::<char>::empty());
    assert(old(out)@ + reindent(Seq::<char>::empty(), pad@) =~= old(out)@);
    while i < cs.len()
        invariant
            i <= cs.len(),
            cs@ == text@,
            out@ == old(out)@ + reindent(text@.take(i as int), pad@),
        decreases cs.len() - i,
    {
        let ghost before = out@;
        assert(text@.take(i + 1).drop_last() =~= text@.take(i as int));
        assert(text@.take(i + 1).last() == cs@[i as int]);
        push_char(out, cs[i]);
        if cs[i] == '\n' {
            out.append(pad.as_str());
            assert(out@ =~= before + (seq!['\n'] + pad@));
        } else {
            assert(out@ =~= before + seq![cs@[i as int]]);
        }
        i += 1;
    }
    assert(text@.take(cs.len() as int) =~= text@);
}

/// Writes the bullet lines of `blocks`, whose roots sit at `depth`.
fn write_blocks(out: &mut String, blocks: &Vec<Block>, prefix: &String, Ghost(depth): Ghost<nat>)
    requires
        prefix@ == indent_chars(depth),
    ensures
        final(out)@ == old(out)@ + render(flat(view_forest(blocks@), depth)),
    decreases blocks@,
{
    proof {
        lemma_view_forest(blocks@);
        reveal_strlit("- ");
        reveal_strlit("\n");
        reveal_strlit("  ");
        assert(blocks@.take(0) =~= Seq::<Block>::empty());
        assert(view_forest(Seq::<Block>::empty()) =~= Seq::<Node>::empty());
        assert(old(out)@ + render(Seq::<Entry>::empty()) =~= old(out)@);
    }
    let mut i: usize = 0;
    while i < blocks.len()
        invariant
            i <= blocks.len(),
            prefix@ == indent_chars(depth),
            out@ == old(out)@ + render(flat(view_forest(blocks@.take(i as int)), depth)),
            "- "@ == seq!['-', ' '],
            "\n"@ == seq!['\n'],
            "  "@ == seq![' ', ' '],
        decreases blocks.len() - i,
    {
        let b = &blocks[i];
        let ghost before = out@;
        let mut child_prefix = prefix.clone();
        child_prefix.append("  ");
        assert(child_prefix@ =~= indent_chars(depth + 1));
        out.append(prefix.as_str());
        out.append("- ");
        write_text(out, &b.text, &child_prefix);
        out.append("\n");
        let ghost mid = out@;
        write_blocks(out, &b.children, &child_prefix, Ghost(depth + 1));
        proof {
            let vb = view_block(*b);
            let e = Entry { depth, id: vb.id, text: vb.text, collapsed: vb.collapsed };
            assert(blocks@.take(i + 1) =~= blocks@.take(i as int).push(*b));
            lemma_view_push(blocks@.take(i as int), *b);
            lemma_flat_push(view_forest(blocks@.take(i as int)), vb, depth);
            assert(flat_node(vb, depth) == seq![e] + flat(vb.children, (depth + 1) as nat));
            lemma_render_append(flat(view_forest(blocks@.take(i as int)), depth), flat_node(vb, depth));
            lemma_render_append(seq![e], flat(vb.children, depth + 1));
            lemma_render_single(e);
            assert(mid =~= before + render_line(depth, vb.text));
            assert(out@ =~= old(out)@ + render(flat(view_forest(blocks@.take(i + 1)), depth)));
        }
        i += 1;
    }
    assert(blocks@.take(blocks.len() as int) =~= blocks@);
}

/// Reads the bullet on `cs[lo..hi]`, if that line is one.
fn bullet_in(cs: &Vec<char>, lo: usize, hi: usize) -> (r: Option<(usize, String)>)
    requires
        lo <= hi <= cs.len(),
        cs.len() <= usize::MAX / 2,
    ensures
        match r {
            Some((ind, t)) => parse_bullet(cs@.subrange(lo as int, hi as int)) == Some(
                (ind as nat, t@),
            ),
            None => parse_bullet(cs@.subrange(lo as int, hi as int)) is None,
        },
{
    let ghost line = cs@.subrange(lo as int, hi as int);
    let mut j = lo;
    let mut indent: usize = 0;
    while j < hi && (cs[j] == ' ' || cs[j] == '\t')
        invariant
            lo <= j <= hi <= cs.len(),
            line == cs@.subrange(lo as int, hi as int),
            cs.len() <= usize::MAX / 2,
            indent <= 2 * (j - lo),
            parse_bullet(line) == bullet_from(line, j - lo, indent as nat),
        decreases hi - j,
    {
        assert(line[j - lo] == cs@[j as int]);
        if cs[j] == ' ' {
            indent = indent + 1;
        } else {
            indent = indent + 2;
        }
        j = j + 1;
    }
    proof {
        if j < hi {
            assert(line[j - lo] == cs@[j as int]);
        }
        if j + 1 < hi {
            assert(line[j - lo + 1] == cs@[j + 1]);
        }
    }
    if j + 1 < hi && (cs[j] == '-' || cs[j] == '*') && (cs[j + 1] == ' ' || cs[j + 1] == '\t') {
        let t = string_of(cs, j + 2, hi);
        assert(t@ =~= line.subrange(j - lo + 2, line.len() as int));
        Some((indent, t))
    } else {
        None
    }
}

/// Appends the row for bullet `(indent, text)` given the open ancestors.
fn add_row(rows: &mut Vec<(usize, String)>, stack: &mut Vec<usize>, indent: usize, text: String, Ghost(acc): Ghost<Seq<(nat, Seq<char>)>>)
    requires
        rows_view(old(rows)@) == depths(acc),
        old(stack)@.map_values(|x: usize| x as nat) == stack_after(acc),
    ensures
        rows_view(final(rows)@) == depths(acc.push((indent as nat, text@))),
        final(stack)@.map_values(|x: usize| x as nat) == stack_after(acc.push((indent as nat, text@))),
{
    let ghost b = (indent as nat, text@);
    let ghost st0 = stack_after(acc);
    proof {
        lemma_depths_steps(acc);
    }
    while stack.len() > 0 && stack[stack.len() - 1] >= indent
        invariant
            pop_ge(st0, indent as nat) == pop_ge(stack@.map_values(|x: usize| x as nat), indent as nat),
        decreases stack.len(),
    {
        let ghost before = stack@;
        stack.pop();
        assert(stack@.map_values(|x: usize| x as nat) =~= before.map_values(|x: usize| x as nat).drop_last());
    }
    let depth = stack.len();
    let ghost popped = stack@;
    stack.push(indent);
    rows.push((depth, text));
    proof {
        let a2 = acc.push(b);
        assert(a2.drop_last() =~= acc);
        assert(stack@.map_values(|x: usize| x as nat) =~= popped.map_values(|x: usize| x as nat).push(indent as nat));
        assert(rows_view(rows@) =~= depths(acc).push((depth as nat, text@)));
    }
}

/// Whether `cs[lo..hi]` starts with `n` spaces.
fn spaces_in(cs: &Vec<char>, lo: usize, hi: usize, n: usize) -> (r: bool)
    requires
        lo <= hi <= cs.len(),
    ensures
        r == spaces_prefix(cs@.subrange(lo as int, hi as int), n as nat),
{
    let ghost line = cs@.subrange(lo as int, hi as int);
    if hi - lo < n {
        return false;
    }
    let mut k: usize = 0;
    while k < n
        invariant
            k <= n <= hi - lo,
            lo <= hi <= cs.len(),
            line == cs@.subrange(lo as int, hi as int),
            forall|q: int| 0 <= q < k ==> #[trigger] line[q] == ' ',
        decreases n - k,
    {
        assert(line[k as int] == cs@[lo + k]);
        if cs[lo + k] != ' ' {
            return false;
        }
        k += 1;
    }
    true
}

/// Reads the line `cs[lo..hi]` into the rows: a bullet adds a row, a line
/// indented to the text column of the last block continues that block, and
/// any other line is skipped.
fn read_line(rows: &mut Vec<(usize, String)>, stack: &mut Vec<usize>, cs: &Vec<char>, lo: usize, hi: usize, Ghost(acc): Ghost<Seq<(nat, Seq<char>)>>)
    requires
        lo <= hi <= cs.len(),
        cs.len() <= usize::MAX / 2,
        rows_view(old(rows)@) == depths(acc),
        old(stack)@.map_values(|x: usize| x as nat) == stack_after(acc),
    ensures
        rows_view(final(rows)@) == depths(push_line(acc, cs@.subrange(lo as int, hi as int))),
        final(stack)@.map_values(|x: usize| x as nat) == stack_after(
            push_line(acc, cs@.subrange(lo as int, hi as int)),
        ),
{
    let ghost line = cs@.subrange(lo as int, hi as int);
    match bullet_in(cs, lo, hi) {
        Some((ind, t)) => {
            add_row(rows, stack, ind, t, Ghost(acc));
        },
        None => {
            if rows.len() == 0 {
                proof {
                    lemma_depths_steps(acc);
                }
                return;
            }
            proof {
                lemma_depths_steps(acc);
                lemma_retext_last(acc, Seq::empty());
                assert(stack@.map_values(|x: usize| x as nat).len() == stack@.len());
                assert(stack@.map_values(|x: usize| x as nat).last() == stack@.last() as nat);
            }
            let top = stack[stack.len() - 1];
            assert(top as nat == acc.last().0);
            if hi - lo < 2 || hi - lo - 2 < top {
                assert(!spaces_prefix(line, acc.last().0 + 2));
                return;
            }
            let n = top + 2;
            if !spaces_in(cs, lo, hi, n) {
                return;
            }
            let rest = string_of(cs, lo + n, hi);
            let ghost old_rows = rows@;
            let last = rows.pop().unwrap();
            let (d, mut t) = last;
            let ghost old_t = t@;
            push_char(&mut t, '\n');
            t.append(rest.as_str());
            rows.push((d, t));
            proof {
                let nt = old_t + seq!['\n'] + line.skip(n as int);
                assert(line.skip(n as int) =~= cs@.subrange(lo + n, hi as int));
                assert(t@ =~= nt);
                let k = acc.len() - 1;
                assert(old_t == acc.last().1) by {
                    lemma_depths_steps(acc);
                    assert(depths(acc)[k].1 == acc[k].1);
                }
                lemma_retext_last(acc, nt);
                assert(push_line(acc, line) == acc.update(k, (acc.last().0, nt)));
                assert(rows@ =~= old_rows.update(k, (d, t)));
                assert(rows_view(old_rows)[k] == depths(acc)[k]);
                assert(rows_view(rows@) =~= depths(acc).update(k, (depths(acc).last().0, nt)));
            }
        },
    }
}

/// The rows that parsing the characters `cs` yields.
fn read_rows(cs: &Vec<char>) -> (out: Vec<(usize, String)>)
    requires
        cs.len() <= usize::MAX / 2,
    ensures
        rows_view(out@) == parse_rows(cs@),
{
    let mut rows: Vec<(usize, String)> = Vec::new();
    let mut stack: Vec<usize> = Vec::new();
    let ghost mut acc: Seq<(nat, Seq<char>)> = Seq::empty();
    let mut start: usize = 0;
    let mut i: usize = 0;
    proof {
        assert(cs@.skip(0) =~= cs@);
        assert(cs@.subrange(0, 0) =~= Seq::<char>::empty());
        assert(rows_view(rows@) =~= depths(acc));
        assert(stack@.map_values(|x: usize| x as nat) =~= stack_after(acc));
    }
    while i < cs.len()
        invariant
            start <= i <= cs.len(),
            cs.len() <= usize::MAX / 2,
            bullets(cs@) == scan(cs@.skip(i as int), cs@.subrange(start as int, i as int), acc),
            rows_view(rows@) == depths(acc),
            stack@.map_values(|x: usize| x as nat) == stack_after(acc),
        decreases cs.len() - i,
    {
        let ghost s = cs@.skip(i as int);
        assert(s[0] == cs@[i as int]);
        assert(s.drop_first() =~= cs@.skip(i + 1));
        if cs[i] == '\n' {
            let end = if i > start && cs[i - 1] == '\r' {
                i - 1
            } else {
                i
            };
            let ghost cur = cs@.subrange(start as int, i as int);
            assert(strip_cr(cur) =~= cs@.subrange(start as int, end as int));
            read_line(&mut rows, &mut stack, cs, start, end, Ghost(acc));
            proof {
                acc = push_bullet(acc, cur);
            }
            start = i + 1;
            assert(cs@.subrange(start as int, i + 1) =~= Seq::<char>::empty());
        } else {
            assert(cs@.subrange(start as int, i + 1) =~= cs@.subrange(start as int, i as int).push(
                cs@[i as int],
            ));
        }
        i = i + 1;
    }
    assert(cs@.skip(i as int) =~= Seq::<char>::empty());
    if start < cs.len() {
        read_line(&mut rows, &mut stack, cs, start, cs.len(), Ghost(acc));
    }
    rows
}

/// Builds the forest for `rows[pos..]` whose roots sit at `depth`, stopping
/// at the first row shallower than `depth`; row `i` gets id `first + i`.
/// Returns the blocks and the position after them.
fn build(rows: &Vec<(usize, String)>, from: usize, depth: usize, first: u64) -> (r: (Vec<Block>, usize))
    requires
        depth_steps(rows_view(rows@)),
        first + rows.len() <= u64::MAX,
        from <= rows.len(),
        from < rows.len() ==> rows@[from as int].0 <= depth,
        depth <= from,
    ensures
        from <= r.1 <= rows.len(),
        r.1 < rows.len() ==> rows@[r.1 as int].0 < depth,
        flat(view_forest(r.0@), depth as nat) == numbered(rows_view(rows@), from as int, r.1 as int, first as int),
    decreases rows.len() - from,
{
    let ghost rs = rows_view(rows@);
    let start = from;
    let mut pos = from;
    proof {
        lemma_steps_bound(rs);
    }
    let mut v: Vec<Block> = Vec::new();
    proof {
        assert(view_forest(v@) =~= Seq::<Node>::empty());
        assert(numbered(rs, start as int, start as int, first as int) =~= Seq::<Entry>::empty());
    }
    while pos < rows.len() && rows[pos].0 == depth
        invariant
            start == from,
            start <= pos <= rows.len(),
            first + rows.len() <= u64::MAX,
            depth_steps(rs),
            rs == rows_view(rows@),
            forall|j: int| 0 <= j < rs.len() ==> #[trigger] rs[j].0 <= j,
            pos < rows.len() ==> rows@[pos as int].0 <= depth,
            flat(view_forest(v@), depth as nat) == numbered(rs, start as int, pos as int, first as int),
        decreases rows.len() - pos,
    {
        let p = pos;
        assert(rs[p as int].0 <= p);
        let id = BlockId(first + p as u64);
        let text = rows[p].1.clone();
        proof {
            if p + 1 < rows.len() {
                assert(rs[p + 1].0 <= rs[p as int].0 + 1);
            }
        }
        let (children, next) = build(rows, p + 1, depth + 1, first);
        pos = next;
        let b = Block { id, text, children, collapsed: false };
        proof {
            lemma_build_step(rs, v@, b, start as int, p as int, pos as int, depth as nat, first as int);
        }
        v.push(b);
    }
    (v, pos)
}

impl Outline {
    /// The markdown form: one `- text` line per block in preorder, indented
    /// two spaces per level; the later lines of a multi-line block follow,
    /// indented to its text column.
    pub fn serialize(&self) -> (s: String)
        ensures
            s@ == render(flat(self@, 0)),
    {
        let mut out = String::new();
        let prefix = String::new();
        write_blocks(&mut out, &self.roots, &prefix, Ghost(0));
        assert(out@ =~= render(flat(self@, 0)));
        out
    }

    /// Reads an outline from its markdown form. Every line that is a bullet
    /// (`- ` or `* ` after spaces or tabs) becomes a block, nested under the
    /// nearest earlier bullet that is indented less; a line indented to the
    /// text column of the last block continues that block's text; other
    /// lines are skipped. The blocks take fresh ids from `ids`, in
    /// preorder, and start expanded.
    pub fn parse(input: &str, ids: &mut IdSource) -> (o: Outline)
        requires
            input@.len() <= usize::MAX / 2,
            old(ids).upcoming() + input@.len() < u64::MAX,
        ensures
            o.wf(),
            rows(o@) == parse_rows(input@),
            flat(o@, 0) == numbered(parse_rows(input@), 0, parse_rows(input@).len() as int, old(ids).upcoming() as int),
            final(ids).upcoming() == old(ids).upcoming() + parse_rows(input@).len(),
            o.next_fresh() == final(ids).upcoming(),
            forall|x: u64| #[trigger] forest_ids(o@).contains(x) ==> old(ids).upcoming() <= x
                && x < final(ids).upcoming(),
            parse_rows(input@).len() <= input@.len(),
            o@ == parsed(input@, old(ids).upcoming() as int),
    {
        let cs = chars_of(input);
        let rows_v = read_rows(&cs);
        let ghost rs = rows_view(rows_v@);
        proof {
            lemma_depths_steps(bullets(cs@));
            lemma_scan_len(cs@, Seq::empty(), Seq::empty());
            assert(rs.len() == rows_v@.len());
        }
        let first = ids.next;
        let (roots, pos) = build(&rows_v, 0, 0, first);
        let n = rows_v.len();
        let o = Outline { roots, next_id: first + n as u64 };
        ids.next = first + n as u64;
        proof {
            let f = o@;
            let es = flat(f, 0);
            assert(pos == n);
            lemma_ids_flat(f, 0);
            assert(forest_ids(f) =~= Seq::new(n as nat, |j: int| (first + j) as u64));
            lemma_numbered_ids_unique(f, first as nat, n as nat);
            assert forall|x: u64| #[trigger] forest_ids(f).contains(x) implies first <= x && x < first + n by {
                let j = choose|j: int| 0 <= j < forest_ids(f).len() && forest_ids(f)[j] == x;
                assert(forest_ids(f)[j] == (first + j) as u64);
            }
            assert(rows(f) =~= rs);
            let w = parsed(input@, first as int);
            assert(flat(w, 0) == numbered(rs, 0, rs.len() as int, first as int));
            crate::forest::lemma_flat_injective(w, f, 0);
        }
        o
    }
}

/// How many blocks parsing the bodies of `srcs` in turn reads, in all:
/// how many ids it uses up.
pub open spec fn blocks_read<K>(srcs: Seq<(K, Seq<char>)>) -> nat
    decreases srcs.len(),
{
    if srcs.len() == 0 {
        0
    } else {
        blocks_read(srcs.drop_last()) + parse_rows(srcs.last().1).len()
    }
}

/// How many characters the bodies of `srcs` hold, in all.
pub open spec fn chars_read<K>(srcs: Seq<(K, Seq<char>)>) -> nat
    decreases srcs.len(),
{
    if srcs.len() == 0 {
        0
    } else {
        chars_read(srcs.drop_last()) + srcs.last().1.len()
    }
}

/// Reading the first `i` bodies uses up no more ids than they hold
/// characters, and they hold no more than all of them.
pub proof fn lemma_blocks_read_take<K>(srcs: Seq<(K, Seq<char>)>, i: int)
    requires
        0 <= i <= srcs.len(),
    ensures
        blocks_read(srcs.take(i)) <= chars_read(srcs.take(i)),
        chars_read(srcs.take(i)) <= chars_read(srcs),
    decreases srcs.len(),
{
    if srcs.len() > 0 {
        if i == srcs.len() {
            assert(srcs.take(i) =~= srcs);
            assert(srcs.drop_last().take(i - 1) =~= srcs.drop_last());
            lemma_blocks_read_take(srcs.drop_last(), i - 1);
            lemma_rows_le_chars(srcs.last().1);
        } else {
            assert(srcs.drop_last().take(i) =~= srcs.take(i));
            lemma_blocks_read_take(srcs.drop_last(), i);
        }
    }
}

/// The forest that `input` reads as when its blocks are numbered from
/// `first`: the one whose listing is the numbered bullet rows of `input` (a
/// listing determines its forest).
pub open spec fn parsed(input: Seq<char>, first: int) -> Seq<Node> {
    choose|f: Seq<Node>| flat(f, 0) == numbered(parse_rows(input), 0, parse_rows(input).len() as int, first)
}


proof fn lemma_build_step(rs: Seq<(nat, Seq<char>)>, v: Seq<Block>, b: Block, start: int, p: int, pos: int, depth: nat, first: int)
    requires
        0 <= start <= p < pos <= rs.len(),
        0 <= first,
        first + pos <= u64::MAX,
        flat(view_forest(v), depth) == numbered(rs, start, p, first),
        flat(view_forest(b.children@), depth + 1) == numbered(rs, p + 1, pos, first),
        rs[p].0 == depth,
        b.id.0 == (first + p) as u64,
        b.text@ == rs[p].1,
        !b.collapsed,
    ensures
        flat(view_forest(v.push(b)), depth) == numbered(rs, start, pos, first),
{
    let vb = view_block(b);
    let e = Entry { depth, id: vb.id, text: vb.text, collapsed: false };
    lemma_view_push(v, b);
    lemma_flat_push(view_forest(v), vb, depth);
    assert(flat_node(vb, depth) == seq![e] + flat(vb.children, depth + 1));
    assert(numbered(rs, start, pos, first) =~= numbered(rs, start, p, first) + seq![e] + numbered(rs, p + 1, pos, first));
}


impl Outline {
    /// With a well-formed outline, no id occurs twice.
    pub proof fn lemma_wf_unique(&self)
        requires
            self.wf(),
        ensures
            forest_ids(self@).no_duplicates(),
    {
        let s = forest_ids(self@);
        assert forall|x: u64| s.to_multiset().contains(x) implies s.to_multiset().count(x) == 1 by {
            assert(id_bag(self@).count(x) <= 1);
        }
        s.lemma_multiset_has_no_duplicates_conv();
    }

    /// Adds an empty root block when the outline has none, so that a page
    /// always has a block to edit. Returns whether one was added.
    pub fn ensure_block(&mut self, ids: &mut IdSource) -> (added: bool)
        requires
            old(self).wf(),
            first_free(old(self).next_fresh(), old(ids).upcoming()) < u64::MAX,
        ensures
            final(self).wf(),
            added == (old(self)@.len() == 0),
            added ==> {
                let id = first_free(old(self).next_fresh(), old(ids).upcoming());
                &&& final(self)@ == seq![leaf(id, Seq::empty())]
                &&& final(self).next_fresh() == id + 1
                &&& final(ids).upcoming() == id + 1
            },
            !added ==> *final(self) == *old(self) && final(ids).upcoming() == old(ids).upcoming(),
    {
        if self.roots.len() > 0 {
            proof {
                lemma_view_forest(self.roots@);
            }
            return false;
        }
        proof {
            lemma_view_forest(self.roots@);
        }
        ids.reach(self.next_id);
        let b = Block::new(ids, String::new());
        let bid = b.id.0;
        let ghost r0 = self.roots@;
        self.roots.push(b);
        self.next_id = bid + 1;
        proof {
            assert(r0 =~= Seq::<Block>::empty());
            lemma_view_push(r0, b);
            assert(view_forest(r0) =~= Seq::<Node>::empty());
            let f = self@;
            assert(f =~= seq![leaf((self.next_id - 1) as u64, Seq::empty())]);
            lemma_ids_push(Seq::empty(), f[0]);
            assert(forest_ids(Seq::<Node>::empty()) =~= Seq::<u64>::empty());
            assert(forest_ids(f[0].children) =~= Seq::<u64>::empty());
            assert(forest_ids(f) =~= seq![f[0].id]);
            assert(forest_ids(f) =~= Seq::<u64>::empty().push(f[0].id));
            assert(id_bag(f) =~= Multiset::<u64>::empty().insert(f[0].id));
        }
        true
    }
}

impl Default for Outline {
    fn default() -> (o: Outline)
        ensures
            o@ == Seq::<Node>::empty(),
            o.wf(),
            o.next_fresh() == 1,
    {
        Outline::new()
    }
}

/// The (depth, id) rows a reader sees, in preorder, skipping the
/// descendants of collapsed blocks.
pub fn flatten_visible(roots: &Vec<Block>) -> (r: Vec<(usize, BlockId)>)
    requires
        forall|j: int| 0 <= j < flat(view_forest(roots@), 0).len() ==> #[trigger] flat(view_forest(roots@), 0)[j].depth < usize::MAX,
    ensures
        r@.map_values(|x: (usize, BlockId)| (x.0 as nat, x.1.0)) == visible(view_forest(roots@), 0),
{
    let mut out: Vec<(usize, BlockId)> = Vec::new();
    proof {
        assert(out@.map_values(|x: (usize, BlockId)| (x.0 as nat, x.1.0)) =~= Seq::<(nat, u64)>::empty());
    }
    walk_visible(roots, 0, &mut out);
    assert(out@.map_values(|x: (usize, BlockId)| (x.0 as nat, x.1.0)) =~= visible(view_forest(roots@), 0));
    out
}

fn walk_visible(blocks: &Vec<Block>, depth: usize, out: &mut Vec<(usize, BlockId)>)
    requires
        forall|j: int| 0 <= j < flat(view_forest(blocks@), depth as nat).len() ==> #[trigger] flat(view_forest(blocks@), depth as nat)[j].depth < usize::MAX,
    ensures
        final(out)@.map_values(|x: (usize, BlockId)| (x.0 as nat, x.1.0)) == old(out)@.map_values(
            |x: (usize, BlockId)| (x.0 as nat, x.1.0),
        ) + visible(view_forest(blocks@), depth as nat),
    decreases blocks@,
{
    proof {
        lemma_view_forest(blocks@);
        assert(blocks@.take(0) =~= Seq::<Block>::empty());
        assert(view_forest(Seq::<Block>::empty()) =~= Seq::<Node>::empty());
    }
    let ghost f = view_forest(blocks@);
    let ghost start = old(out)@.map_values(|x: (usize, BlockId)| (x.0 as nat, x.1.0));
    let mut i: usize = 0;
    while i < blocks.len()
        invariant
            i <= blocks.len(),
            f == view_forest(blocks@),
            f.len() == blocks@.len(),
            forall|j: int| 0 <= j < blocks@.len() ==> f[j] == view_block(blocks@[j]),
            forall|j: int| 0 <= j < flat(f, depth as nat).len() ==> #[trigger] flat(f, depth as nat)[j].depth < usize::MAX,
            out@.map_values(|x: (usize, BlockId)| (x.0 as nat, x.1.0)) == start + visible(view_forest(blocks@.take(i as int)), depth as nat),
        decreases blocks.len() - i,
    {
        let b = &blocks[i];
        let ghost before = out@;
        out.push((depth, b.id));
        proof {
            lemma_flat_split_at(f, depth as nat, i as int);
            assert(f[i as int].children == view_forest(b.children@));
        }
        let ghost mid = out@;
        let ghost cf = view_forest(b.children@);
        let ghost d1: nat = depth as nat + 1;
        assert(forall|j: int| 0 <= j < flat(cf, d1).len() ==> #[trigger] flat(cf, d1)[j].depth < usize::MAX);
        if !b.collapsed {
            assert(d1 == (depth + 1) as nat);
            walk_visible(&b.children, depth + 1, out);
        }
        proof {
            let vb = view_block(*b);
            assert(blocks@.take(i + 1) =~= blocks@.take(i as int).push(*b));
            lemma_view_push(blocks@.take(i as int), *b);
            lemma_visible_push(view_forest(blocks@.take(i as int)), vb, depth as nat);
            assert(mid.map_values(|x: (usize, BlockId)| (x.0 as nat, x.1.0)) =~= before.map_values(|x: (usize, BlockId)| (x.0 as nat, x.1.0)).push((depth as nat, vb.id)));
            assert(out@.map_values(|x: (usize, BlockId)| (x.0 as nat, x.1.0)) =~= start + visible(view_forest(blocks@.take(i + 1)), depth as nat));
        }
        i += 1;
    }
    assert(blocks@.take(blocks.len() as int) =~= blocks@);
}

/// Every entry of the listing of a forest at `depth` is at least that deep,
/// and the children of sibling `i` are listed inside it, one level deeper.
proof fn lemma_flat_split_at(f: Seq<Node>, d: nat, i: int)
    requires
        0 <= i < f.len(),
        forall|j: int| 0 <= j < flat(f, d).len() ==> #[trigger] flat(f, d)[j].depth < usize::MAX,
    ensures
        d < usize::MAX,
        forall|j: int| 0 <= j < flat(f[i].children, d + 1).len() ==> #[trigger] flat(f[i].children, d + 1)[j].depth < usize::MAX,
{
    assert(f =~= f.take(i) + (seq![f[i]] + f.skip(i + 1)));
    crate::forest::lemma_flat_append(f.take(i), seq![f[i]] + f.skip(i + 1), d);
    crate::forest::lemma_flat_append(seq![f[i]], f.skip(i + 1), d);
    crate::forest::lemma_flat_single(f[i], d);
    let a = flat(f.take(i), d);
    let e = Entry { depth: d, id: f[i].id, text: f[i].text, collapsed: f[i].collapsed };
    assert(crate::forest::flat_node(f[i], d) == seq![e] + flat(f[i].children, d + 1));
    assert(flat(f, d)[a.len() as int] == e);
    assert(flat(f, d)[a.len() as int].depth < usize::MAX);
    assert forall|j: int| 0 <= j < flat(f[i].children, d + 1).len() implies #[trigger] flat(f[i].children, d + 1)[j].depth < usize::MAX by {
        assert(flat(f, d)[a.len() + 1 + j] == flat(f[i].children, d + 1)[j]);
    }
}

/// The children of the block at `path`; nothing for the empty path.
pub fn children_at<'a>(roots: &'a Vec<Block>, path: &Vec<usize>) -> (r: &'a [Block])
    requires
        path.len() == 0 || valid_path(view_forest(roots@), path@),
    ensures
        view_forest(r@) == (if path.len() == 0 {
            Seq::<Node>::empty()
        } else {
            node_at(view_forest(roots@), path@).children
        }),
{
    if path.len() == 0 {
        let e: &'a [Block] = &[];
        assert(e@ =~= Seq::<Block>::empty());
        return e;
    }
    let ghost f = view_forest(roots@);
    let ghost pp = path@.drop_last();
    let mut cur: &Vec<Block> = roots;
    let mut d: usize = 0;
    while d + 1 < path.len()
        invariant
            d < path.len(),
            valid_pp(f, pp),
            pp == path@.drop_last(),
            view_forest(cur@) == siblings_at(f, pp.take(d as int)),
            valid_pp(f, pp.take(d as int)),
        decreases path.len() - d,
    {
        proof {
            lemma_view_forest(cur@);
            lemma_pp_prefix_valid(f, pp, d as int);
            lemma_siblings_push(f, pp.take(d as int), pp[d as int]);
            assert(pp.take(d as int).push(pp[d as int]) =~= pp.take(d + 1));
        }
        cur = &cur[path[d]].children;
        d += 1;
    }
    assert(pp.take(d as int) =~= pp);
    proof {
        lemma_view_forest(cur@);
    }
    cur[path[d]].children.as_slice()
}

/// Appends the ids of every block in `blocks`, in preorder.
pub fn collect_all_ids(blocks: &Vec<Block>, out: &mut Vec<BlockId>)
    ensures
        final(out)@.map_values(|b: BlockId| b.0) == old(out)@.map_values(|b: BlockId| b.0) + forest_ids(view_forest(blocks@)),
    decreases blocks@,
{
    proof {
        lemma_view_forest(blocks@);
        assert(blocks@.take(0) =~= Seq::<Block>::empty());
        assert(view_forest(Seq::<Block>::empty()) =~= Seq::<Node>::empty());
        assert(forest_ids(Seq::<Node>::empty()) =~= Seq::<u64>::empty());
    }
    let ghost start = old(out)@.map_values(|b: BlockId| b.0);
    let mut i: usize = 0;
    while i < blocks.len()
        invariant
            i <= blocks.len(),
            out@.map_values(|b: BlockId| b.0) == start + forest_ids(view_forest(blocks@.take(i as int))),
        decreases blocks.len() - i,
    {
        let b = &blocks[i];
        let ghost before = out@;
        out.push(b.id);
        let ghost mid = out@;
        collect_all_ids(&b.children, out);
        proof {
            let vb = view_block(*b);
            assert(blocks@.take(i + 1) =~= blocks@.take(i as int).push(*b));
            lemma_view_push(blocks@.take(i as int), *b);
            lemma_ids_push(view_forest(blocks@.take(i as int)), vb);
            assert(mid.map_values(|b: BlockId| b.0) =~= before.map_values(|b: BlockId| b.0).push(vb.id));
            assert(out@.map_values(|b: BlockId| b.0) =~= start + forest_ids(view_forest(blocks@.take(i + 1))));
        }
        i += 1;
    }
    assert(blocks@.take(blocks.len() as int) =~= blocks@);
}

/// References to every block in `blocks`, in preorder.
pub fn all_blocks<'a>(blocks: &'a Vec<Block>) -> (r: Vec<&'a Block>)
    ensures
        r@.map_values(|b: &Block| view_block(*b)) == nodes(view_forest(blocks@)),
{
    let mut out: Vec<&'a Block> = Vec::new();
    proof {
        assert(out@.map_values(|b: &Block| view_block(*b)) =~= Seq::<Node>::empty());
    }
    walk_all(blocks, &mut out);
    assert(out@.map_values(|b: &Block| view_block(*b)) =~= nodes(view_forest(blocks@)));
    out
}

fn walk_all<'a>(blocks: &'a Vec<Block>, out: &mut Vec<&'a Block>)
    ensures
        final(out)@.map_values(|b: &Block| view_block(*b)) == old(out)@.map_values(|b: &Block| view_block(*b)) + nodes(view_forest(blocks@)),
    decreases blocks@,
{
    proof {
        lemma_view_forest(blocks@);
        assert(blocks@.take(0) =~= Seq::<Block>::empty());
        assert(view_forest(Seq::<Block>::empty()) =~= Seq::<Node>::empty());
        assert(nodes(Seq::<Node>::empty()) =~= Seq::<Node>::empty());
    }
    let ghost start = old(out)@.map_values(|b: &Block| view_block(*b));
    let mut i: usize = 0;
    while i < blocks.len()
        invariant
            i <= blocks.len(),
            out@.map_values(|b: &Block| view_block(*b)) == start + nodes(view_forest(blocks@.take(i as int))),
        decreases blocks.len() - i,
    {
        let b = &blocks[i];
        let ghost before = out@;
        out.push(b);
        let ghost mid = out@;
        walk_all(&b.children, out);
        proof {
            let vb = view_block(*b);
            assert(blocks@.take(i + 1) =~= blocks@.take(i as int).push(*b));
            lemma_view_push(blocks@.take(i as int), *b);
            lemma_nodes_push(view_forest(blocks@.take(i as int)), vb);
            assert(mid.map_values(|b: &Block| view_block(*b)) =~= before.map_values(|b: &Block| view_block(*b)).push(vb));
            assert(out@.map_values(|b: &Block| view_block(*b)) =~= start + nodes(view_forest(blocks@.take(i + 1))));
        }
        i += 1;
    }
    assert(blocks@.take(blocks.len() as int) =~= blocks@);
}


} // verus!
