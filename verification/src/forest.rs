//! The mathematical model of an outline: a forest of nodes, addressed by
//! index paths, with the sibling-level edits that the outline operations make.

use vstd::prelude::*;
use vstd::seq_lib::*;
use vstd::multiset::*;

verus! {

broadcast use vstd::seq_lib::group_seq_properties, vstd::multiset::group_multiset_axioms;

/// Mathematical model of a block: its id, text, fold state and children.
pub struct Node {
    pub id: u64,
    pub text: Seq<char>,
    pub collapsed: bool,
    pub children: Seq<Node>,
}

/// One row of the preorder listing of a forest.
pub struct Entry {
    pub depth: nat,
    pub id: u64,
    pub text: Seq<char>,
    pub collapsed: bool,
}

/// Preorder listing of the forest `f`, whose roots sit at `depth`.
pub open spec fn flat(f: Seq<Node>, depth: nat) -> Seq<Entry>
    decreases f,
{
    if f.len() == 0 {
        Seq::empty()
    } else {
        flat_node(f[0], depth) + flat(f.subrange(1, f.len() as int), depth)
    }
}

/// Preorder listing of one node and its descendants.
pub open spec fn flat_node(n: Node, depth: nat) -> Seq<Entry>
    decreases n,
{
    seq![Entry { depth, id: n.id, text: n.text, collapsed: n.collapsed }] + flat(
        n.children,
        depth + 1,
    )
}

/// Ids of a forest in preorder.
pub open spec fn forest_ids(f: Seq<Node>) -> Seq<u64>
    decreases f,
{
    if f.len() == 0 {
        Seq::empty()
    } else {
        node_ids(f[0]) + forest_ids(f.subrange(1, f.len() as int))
    }
}

/// Ids of a node and its descendants in preorder.
pub open spec fn node_ids(n: Node) -> Seq<u64>
    decreases n,
{
    seq![n.id] + forest_ids(n.children)
}

/// The multiset of ids in a forest.
pub open spec fn id_bag(f: Seq<Node>) -> Multiset<u64> {
    forest_ids(f).to_multiset()
}

/// No id occurs twice, and every id is below `bound`.
pub open spec fn ids_unique_below(f: Seq<Node>, bound: u64) -> bool {
    forall|x: u64| #[trigger]
        id_bag(f).count(x) <= 1 && (id_bag(f).count(x) > 0 ==> x < bound)
}

/// The sibling list reached by following `pp` from the roots.
pub open spec fn siblings_at(f: Seq<Node>, pp: Seq<usize>) -> Seq<Node>
    decreases pp.len(),
{
    if pp.len() == 0 {
        f
    } else if pp[0] < f.len() {
        siblings_at(f[pp[0] as int].children, pp.drop_first())
    } else {
        Seq::empty()
    }
}

/// Every index of `pp` is in range on the way down.
pub open spec fn valid_pp(f: Seq<Node>, pp: Seq<usize>) -> bool
    decreases pp.len(),
{
    pp.len() == 0 || (pp[0] < f.len() && valid_pp(f[pp[0] as int].children, pp.drop_first()))
}

/// `f` with the sibling list at `pp` replaced by `ns`.
pub open spec fn replace_siblings(f: Seq<Node>, pp: Seq<usize>, ns: Seq<Node>) -> Seq<Node>
    decreases pp.len(),
{
    if pp.len() == 0 {
        ns
    } else if pp[0] < f.len() {
        let n = f[pp[0] as int];
        f.update(
            pp[0] as int,
            Node { children: replace_siblings(n.children, pp.drop_first(), ns), ..n },
        )
    } else {
        f
    }
}

/// The path (indices from the roots down) of the first node in preorder,
/// searching from sibling `i` on, whose id is `id`.
pub open spec fn find_from(f: Seq<Node>, id: u64, i: int) -> Option<Seq<usize>>
    decreases f, f.len() - i,
{
    if i < 0 || i >= f.len() || i > usize::MAX {
        None
    } else if f[i].id == id {
        Some(seq![i as usize])
    } else {
        match find_from(f[i].children, id, 0) {
            Some(p) => Some(seq![i as usize] + p),
            None => find_from(f, id, i + 1),
        }
    }
}

/// The path of the first node in preorder whose id is `id`.
pub open spec fn find_path(f: Seq<Node>, id: u64) -> Option<Seq<usize>> {
    find_from(f, id, 0)
}

/// The node that a non-empty valid path designates.
pub open spec fn node_at(f: Seq<Node>, p: Seq<usize>) -> Node {
    siblings_at(f, p.drop_last())[p.last() as int]
}

/// A path designates a node of `f`.
pub open spec fn valid_path(f: Seq<Node>, p: Seq<usize>) -> bool {
    p.len() > 0 && valid_pp(f, p.drop_last()) && p.last() < siblings_at(f, p.drop_last()).len()
}

// ---- sibling-level edits ----------------------------------------------------
/// Moves sibling `k` to the end of the children of sibling `k - 1`.
pub open spec fn indent_in(s: Seq<Node>, k: int) -> Seq<Node> {
    let prev = s[k - 1];
    s.remove(k).update(k - 1, Node { children: prev.children.push(s[k]), ..prev })
}

/// Moves child `k` of sibling `pi` to just after `pi`.
pub open spec fn outdent_in(s: Seq<Node>, pi: int, k: int) -> Seq<Node> {
    let parent = s[pi];
    s.update(pi, Node { children: parent.children.remove(k), ..parent }).insert(
        pi + 1,
        parent.children[k],
    )
}

/// Exchanges siblings `a` and `b`.
pub open spec fn swap_in(s: Seq<Node>, a: int, b: int) -> Seq<Node> {
    s.update(a, s[b]).update(b, s[a])
}

/// Flips the fold state of sibling `k`.
pub open spec fn toggle_in(s: Seq<Node>, k: int) -> Seq<Node> {
    s.update(k, Node { collapsed: !s[k].collapsed, ..s[k] })
}

/// Replaces the text of sibling `k`.
pub open spec fn retext_in(s: Seq<Node>, k: int, text: Seq<char>) -> Seq<Node> {
    s.update(k, Node { text, ..s[k] })
}

/// A fresh leaf.
pub open spec fn leaf(id: u64, text: Seq<char>) -> Node {
    Node { id, text, collapsed: false, children: Seq::empty() }
}

// ---- the outline operations on the model ------------------------------------
/// Indent: the block becomes the last child of its previous sibling.
pub open spec fn indent_spec(f: Seq<Node>, id: u64) -> (bool, Seq<Node>) {
    match find_path(f, id) {
        None => (false, f),
        Some(p) => {
            let pp = p.drop_last();
            let k = p.last() as int;
            if k == 0 {
                (false, f)
            } else {
                (true, replace_siblings(f, pp, indent_in(siblings_at(f, pp), k)))
            }
        },
    }
}

/// Outdent: the block moves out of its parent, to just after it.
pub open spec fn outdent_spec(f: Seq<Node>, id: u64) -> (bool, Seq<Node>) {
    match find_path(f, id) {
        None => (false, f),
        Some(p) => {
            if p.len() < 2 {
                (false, f)
            } else {
                let gp = p.subrange(0, p.len() - 2);
                let pi = p[p.len() - 2] as int;
                let k = p.last() as int;
                (true, replace_siblings(f, gp, outdent_in(siblings_at(f, gp), pi, k)))
            }
        },
    }
}

/// Move up: the block trades places with its previous sibling.
pub open spec fn move_up_spec(f: Seq<Node>, id: u64) -> (bool, Seq<Node>) {
    match find_path(f, id) {
        None => (false, f),
        Some(p) => {
            let pp = p.drop_last();
            let k = p.last() as int;
            if k == 0 {
                (false, f)
            } else {
                (true, replace_siblings(f, pp, swap_in(siblings_at(f, pp), k - 1, k)))
            }
        },
    }
}

/// Move down: the block trades places with its next sibling.
pub open spec fn move_down_spec(f: Seq<Node>, id: u64) -> (bool, Seq<Node>) {
    match find_path(f, id) {
        None => (false, f),
        Some(p) => {
            let pp = p.drop_last();
            let k = p.last() as int;
            if k + 1 >= siblings_at(f, pp).len() {
                (false, f)
            } else {
                (true, replace_siblings(f, pp, swap_in(siblings_at(f, pp), k, k + 1)))
            }
        },
    }
}

/// Toggle collapse: the block's fold state flips.
pub open spec fn toggle_spec(f: Seq<Node>, id: u64) -> (bool, Seq<Node>) {
    match find_path(f, id) {
        None => (false, f),
        Some(p) => {
            let pp = p.drop_last();
            (true, replace_siblings(f, pp, toggle_in(siblings_at(f, pp), p.last() as int)))
        },
    }
}

/// Set text: the block's text is replaced.
pub open spec fn set_text_spec(f: Seq<Node>, id: u64, text: Seq<char>) -> (bool, Seq<Node>) {
    match find_path(f, id) {
        None => (false, f),
        Some(p) => {
            let pp = p.drop_last();
            (true, replace_siblings(f, pp, retext_in(siblings_at(f, pp), p.last() as int, text)))
        },
    }
}

/// Insert after: a fresh leaf `new_id` becomes the block's next sibling.
pub open spec fn insert_after_spec(f: Seq<Node>, id: u64, new_id: u64, text: Seq<char>) -> (
    bool,
    Seq<Node>,
) {
    match find_path(f, id) {
        None => (false, f),
        Some(p) => {
            let pp = p.drop_last();
            (
                true,
                replace_siblings(
                    f,
                    pp,
                    siblings_at(f, pp).insert(p.last() + 1, leaf(new_id, text)),
                ),
            )
        },
    }
}

/// Delete: the block and its subtree leave the forest.
pub open spec fn delete_spec(f: Seq<Node>, id: u64) -> (Option<Node>, Seq<Node>) {
    match find_path(f, id) {
        None => (None, f),
        Some(p) => {
            let pp = p.drop_last();
            (
                Some(siblings_at(f, pp)[p.last() as int]),
                replace_siblings(f, pp, siblings_at(f, pp).remove(p.last() as int)),
            )
        },
    }
}

/// The text of the block with id `id`, if any.
pub open spec fn get_spec(f: Seq<Node>, id: u64) -> Option<Seq<char>> {
    match find_path(f, id) {
        None => None,
        Some(p) => Some(node_at(f, p).text),
    }
}

// ---- lemmas: listings -------------------------------------------------------
pub proof fn lemma_flat_append(a: Seq<Node>, b: Seq<Node>, d: nat)
    ensures
        flat(a + b, d) == flat(a, d) + flat(b, d),
    decreases a.len(),
{
    if a.len() == 0 {
        assert(a + b =~= b);
        assert(flat(a, d) + flat(b, d) =~= flat(b, d));
    } else {
        let r = a.subrange(1, a.len() as int);
        lemma_flat_append(r, b, d);
        assert((a + b).subrange(1, (a + b).len() as int) =~= r + b);
        assert((a + b)[0] == a[0]);
        assert(flat(a + b, d) =~= flat_node(a[0], d) + (flat(r, d) + flat(b, d)));
        assert(flat(a, d) == flat_node(a[0], d) + flat(r, d));
    }
}

pub proof fn lemma_flat_single(n: Node, d: nat)
    ensures
        flat(seq![n], d) == flat_node(n, d),
{
    assert(seq![n].subrange(1, 1) =~= Seq::<Node>::empty());
    assert(flat_node(n, d) + flat(Seq::<Node>::empty(), d) =~= flat_node(n, d));
}

pub proof fn lemma_flat_push(a: Seq<Node>, n: Node, d: nat)
    ensures
        flat(a.push(n), d) == flat(a, d) + flat_node(n, d),
{
    lemma_flat_append(a, seq![n], d);
    lemma_flat_single(n, d);
    assert(a + seq![n] =~= a.push(n));
}

pub proof fn lemma_ids_append(a: Seq<Node>, b: Seq<Node>)
    ensures
        forest_ids(a + b) == forest_ids(a) + forest_ids(b),
    decreases a.len(),
{
    if a.len() == 0 {
        assert(a + b =~= b);
        assert(forest_ids(a) + forest_ids(b) =~= forest_ids(b));
    } else {
        let r = a.subrange(1, a.len() as int);
        lemma_ids_append(r, b);
        assert((a + b).subrange(1, (a + b).len() as int) =~= r + b);
        assert((a + b)[0] == a[0]);
        assert(forest_ids(a + b) =~= node_ids(a[0]) + (forest_ids(r) + forest_ids(b)));
    }
}

pub proof fn lemma_ids_single(n: Node)
    ensures
        forest_ids(seq![n]) == node_ids(n),
{
    assert(seq![n].subrange(1, 1) =~= Seq::<Node>::empty());
    assert(node_ids(n) + forest_ids(Seq::<Node>::empty()) =~= node_ids(n));
}

/// The ids of a forest split around sibling `i`.
pub proof fn lemma_ids_split(s: Seq<Node>, i: int)
    requires
        0 <= i < s.len(),
    ensures
        forest_ids(s) == forest_ids(s.take(i)) + node_ids(s[i]) + forest_ids(s.skip(i + 1)),
{
    assert(s =~= s.take(i) + seq![s[i]] + s.skip(i + 1));
    lemma_ids_append(s.take(i) + seq![s[i]], s.skip(i + 1));
    lemma_ids_append(s.take(i), seq![s[i]]);
    lemma_ids_single(s[i]);
}

pub proof fn lemma_bag_append(a: Seq<Node>, b: Seq<Node>)
    ensures
        id_bag(a + b) == id_bag(a).add(id_bag(b)),
{
    lemma_ids_append(a, b);
    lemma_multiset_commutative(forest_ids(a), forest_ids(b));
}

/// The id bag of a forest split around sibling `i`.
pub proof fn lemma_bag_split(s: Seq<Node>, i: int)
    requires
        0 <= i < s.len(),
    ensures
        id_bag(s) == id_bag(s.take(i)).add(node_ids(s[i]).to_multiset()).add(
            id_bag(s.skip(i + 1)),
        ),
{
    lemma_ids_split(s, i);
    lemma_multiset_commutative(forest_ids(s.take(i)) + node_ids(s[i]), forest_ids(s.skip(i + 1)));
    lemma_multiset_commutative(forest_ids(s.take(i)), node_ids(s[i]));
}

pub proof fn lemma_node_bag(n: Node)
    ensures
        node_ids(n).to_multiset() == Multiset::singleton(n.id).add(id_bag(n.children)),
{
    lemma_multiset_commutative(seq![n.id], forest_ids(n.children));
    assert(seq![n.id] =~= Seq::<u64>::empty().push(n.id));
    assert(Seq::<u64>::empty().to_multiset() =~= Multiset::empty());
    assert(seq![n.id].to_multiset() =~= Multiset::singleton(n.id));
}

// ---- lemmas: replacing a sibling list ---------------------------------------
pub proof fn lemma_replace_siblings(f: Seq<Node>, pp: Seq<usize>, a: Seq<Node>, b: Seq<Node>)
    requires
        valid_pp(f, pp),
    ensures
        valid_pp(replace_siblings(f, pp, a), pp),
        siblings_at(replace_siblings(f, pp, a), pp) == a,
        replace_siblings(replace_siblings(f, pp, a), pp, b) == replace_siblings(f, pp, b),
        replace_siblings(f, pp, siblings_at(f, pp)) == f,
    decreases pp.len(),
{
    if pp.len() > 0 {
        let i = pp[0] as int;
        let n = f[i];
        lemma_replace_siblings(n.children, pp.drop_first(), a, b);
        let f1 = replace_siblings(f, pp, a);
        assert(f1[i].children == replace_siblings(n.children, pp.drop_first(), a));
        assert(replace_siblings(f1, pp, b) =~= replace_siblings(f, pp, b));
        assert(replace_siblings(f, pp, siblings_at(f, pp)) =~= f);
    }
}

/// Replacing a sibling list swaps its id bag for that of the replacement.
pub proof fn lemma_replace_bag(f: Seq<Node>, pp: Seq<usize>, ns: Seq<Node>)
    requires
        valid_pp(f, pp),
    ensures
        id_bag(replace_siblings(f, pp, ns)).add(id_bag(siblings_at(f, pp))) == id_bag(f).add(
            id_bag(ns),
        ),
    decreases pp.len(),
{
    if pp.len() == 0 {
        assert(id_bag(ns).add(id_bag(f)) =~= id_bag(f).add(id_bag(ns)));
    } else {
        let i = pp[0] as int;
        let n = f[i];
        let r = replace_siblings(n.children, pp.drop_first(), ns);
        lemma_replace_bag(n.children, pp.drop_first(), ns);
        let f1 = replace_siblings(f, pp, ns);
        let n1 = Node { children: r, ..n };
        assert(f1 == f.update(i, n1));
        lemma_bag_split(f, i);
        lemma_bag_split(f1, i);
        assert(f1.take(i) =~= f.take(i));
        assert(f1.skip(i + 1) =~= f.skip(i + 1));
        lemma_node_bag(n);
        lemma_node_bag(n1);
        assert(siblings_at(f, pp) == siblings_at(n.children, pp.drop_first()));
        assert(f1[i] == n1);
        assert forall|x: u64|
            #[trigger] id_bag(f1).add(id_bag(siblings_at(f, pp))).count(x) == id_bag(f).add(
                id_bag(ns),
            ).count(x) by {
            assert(id_bag(r).add(id_bag(siblings_at(f, pp))).count(x) == id_bag(n.children).add(
                id_bag(ns),
            ).count(x));
        }
        assert(id_bag(f1).add(id_bag(siblings_at(f, pp))) =~= id_bag(f).add(id_bag(ns)));
    }
}


// ---- lemmas: finding a block ------------------------------------------------
/// What the search finds is a path to a node with that id; when it finds
/// nothing, no node from sibling `i` on has that id.
pub proof fn lemma_find_from(f: Seq<Node>, id: u64, i: int)
    requires
        0 <= i <= f.len(),
    ensures
        match find_from(f, id, i) {
            Some(p) => valid_path(f, p) && node_at(f, p).id == id && i <= p[0] < f.len(),
            None => true,
        },
    decreases f, f.len() - i,
{
    if i >= f.len() {
        assert(f.skip(i) =~= Seq::<Node>::empty());
        assert(forest_ids(f.skip(i)) =~= Seq::<u64>::empty());
    } else {
        assert(f.skip(i)[0] == f[i]);
        assert(f.skip(i).subrange(1, f.skip(i).len() as int) =~= f.skip(i + 1));
        assert(forest_ids(f.skip(i)) == node_ids(f[i]) + forest_ids(f.skip(i + 1)));
        if f[i].id == id {
            let p = seq![i as usize];
            assert(p.drop_last() =~= Seq::<usize>::empty());
        } else {
            let c = f[i].children;
            lemma_find_from(c, id, 0);
            match find_from(c, id, 0) {
                Some(q) => {
                    let p = seq![i as usize] + q;
                    assert(p.drop_last() =~= seq![i as usize] + q.drop_last());
                    assert((seq![i as usize] + q.drop_last()).drop_first() =~= q.drop_last());
                    assert(p.last() == q.last());
                },
                None => {
                    assert(c.skip(0) =~= c);
                    lemma_find_from(f, id, i + 1);
                },
            }
        }
    }
}

// ---- lemmas: what each sibling edit does to the ids --------------------------
pub proof fn lemma_bag3(a: Seq<Node>, b: Seq<Node>, c: Seq<Node>)
    ensures
        id_bag(a + b + c) == id_bag(a).add(id_bag(b)).add(id_bag(c)),
{
    lemma_bag_append(a + b, c);
    lemma_bag_append(a, b);
}

pub proof fn lemma_bag_single(n: Node)
    ensures
        id_bag(seq![n]) == Multiset::singleton(n.id).add(id_bag(n.children)),
{
    lemma_ids_single(n);
    lemma_node_bag(n);
}

/// Indenting keeps the preorder sequence of ids.
pub proof fn lemma_indent_bag(s: Seq<Node>, k: int)
    requires
        0 < k < s.len(),
    ensures
        id_bag(indent_in(s, k)) == id_bag(s),
{
    let a = s.take(k - 1);
    let b = s.skip(k + 1);
    let p = s[k - 1];
    let m = s[k];
    let p2 = Node { children: p.children.push(m), ..p };
    assert(s =~= a + seq![p, m] + b);
    assert(seq![p, m] =~= seq![p] + seq![m]);
    assert(indent_in(s, k) =~= a + seq![p2] + b);
    lemma_bag3(a, seq![p, m], b);
    lemma_bag3(a, seq![p2], b);
    lemma_bag_append(seq![p], seq![m]);
    lemma_bag_single(p);
    lemma_bag_single(m);
    lemma_bag_single(p2);
    assert(p.children.push(m) =~= p.children + seq![m]);
    lemma_bag_append(p.children, seq![m]);
    assert(id_bag(indent_in(s, k)) =~= id_bag(s));
}

/// Outdenting keeps the bag of ids.
pub proof fn lemma_outdent_bag(s: Seq<Node>, pi: int, k: int)
    requires
        0 <= pi < s.len(),
        0 <= k < s[pi].children.len(),
    ensures
        id_bag(outdent_in(s, pi, k)) == id_bag(s),
{
    let a = s.take(pi);
    let b = s.skip(pi + 1);
    let par = s[pi];
    let c = par.children;
    let x = c[k];
    let par2 = Node { children: c.remove(k), ..par };
    assert(s =~= a + seq![par] + b);
    assert(outdent_in(s, pi, k) =~= a + (seq![par2] + seq![x]) + b);
    lemma_bag3(a, seq![par], b);
    lemma_bag3(a, seq![par2] + seq![x], b);
    lemma_bag_append(seq![par2], seq![x]);
    lemma_bag_single(par);
    lemma_bag_single(par2);
    lemma_bag_single(x);
    assert(c =~= c.take(k) + seq![x] + c.skip(k + 1));
    assert(c.remove(k) =~= c.take(k) + c.skip(k + 1));
    lemma_bag3(c.take(k), seq![x], c.skip(k + 1));
    lemma_bag_append(c.take(k), c.skip(k + 1));
    assert(id_bag(outdent_in(s, pi, k)) =~= id_bag(s));
}

/// Swapping neighbours keeps the bag of ids.
pub proof fn lemma_swap_bag(s: Seq<Node>, k: int)
    requires
        0 <= k,
        k + 1 < s.len(),
    ensures
        id_bag(swap_in(s, k, k + 1)) == id_bag(s),
{
    let a = s.take(k);
    let b = s.skip(k + 2);
    assert(s =~= a + (seq![s[k]] + seq![s[k + 1]]) + b);
    assert(swap_in(s, k, k + 1) =~= a + (seq![s[k + 1]] + seq![s[k]]) + b);
    lemma_bag3(a, seq![s[k]] + seq![s[k + 1]], b);
    lemma_bag3(a, seq![s[k + 1]] + seq![s[k]], b);
    lemma_bag_append(seq![s[k]], seq![s[k + 1]]);
    lemma_bag_append(seq![s[k + 1]], seq![s[k]]);
    assert(id_bag(swap_in(s, k, k + 1)) =~= id_bag(s));
}

/// Changing the fields of one sibling other than its id and children keeps
/// the bag of ids.
pub proof fn lemma_update_same_ids_bag(s: Seq<Node>, k: int, n: Node)
    requires
        0 <= k < s.len(),
        n.id == s[k].id,
        n.children == s[k].children,
    ensures
        id_bag(s.update(k, n)) == id_bag(s),
{
    let a = s.take(k);
    let b = s.skip(k + 1);
    assert(s =~= a + seq![s[k]] + b);
    assert(s.update(k, n) =~= a + seq![n] + b);
    lemma_bag3(a, seq![s[k]], b);
    lemma_bag3(a, seq![n], b);
    lemma_bag_single(s[k]);
    lemma_bag_single(n);
}

/// Inserting a leaf adds its id to the bag.
pub proof fn lemma_insert_leaf_bag(s: Seq<Node>, j: int, id: u64, text: Seq<char>)
    requires
        0 <= j <= s.len(),
    ensures
        id_bag(s.insert(j, leaf(id, text))) == id_bag(s).insert(id),
{
    let a = s.take(j);
    let b = s.skip(j);
    assert(s =~= a + b);
    assert(s.insert(j, leaf(id, text)) =~= a + seq![leaf(id, text)] + b);
    lemma_bag3(a, seq![leaf(id, text)], b);
    lemma_bag_append(a, b);
    lemma_bag_single(leaf(id, text));
    assert(id_bag(Seq::<Node>::empty()) =~= Multiset::empty()) by {
        assert(forest_ids(Seq::<Node>::empty()) =~= Seq::<u64>::empty());
    }
    assert(id_bag(s.insert(j, leaf(id, text))) =~= id_bag(s).insert(id));
}

/// Removing a sibling takes its subtree's ids out of the bag.
pub proof fn lemma_remove_bag(s: Seq<Node>, k: int)
    requires
        0 <= k < s.len(),
    ensures
        id_bag(s) == id_bag(s.remove(k)).add(id_bag(seq![s[k]])),
{
    let a = s.take(k);
    let b = s.skip(k + 1);
    assert(s =~= a + seq![s[k]] + b);
    assert(s.remove(k) =~= a + b);
    lemma_bag3(a, seq![s[k]], b);
    lemma_bag_append(a, b);
    assert(id_bag(s) =~= id_bag(s.remove(k)).add(id_bag(seq![s[k]])));
}

/// Replacing a sibling list by one with the same id bag keeps the bag.
pub proof fn lemma_replace_same_bag(f: Seq<Node>, pp: Seq<usize>, ns: Seq<Node>)
    requires
        valid_pp(f, pp),
        id_bag(ns) == id_bag(siblings_at(f, pp)),
    ensures
        id_bag(replace_siblings(f, pp, ns)) == id_bag(f),
{
    lemma_replace_bag(f, pp, ns);
    let r = id_bag(replace_siblings(f, pp, ns));
    assert forall|x: u64| #[trigger] r.count(x) == id_bag(f).count(x) by {
        assert(r.add(id_bag(ns)).count(x) == id_bag(f).add(id_bag(ns)).count(x));
    }
    assert(r =~= id_bag(f));
}


/// Descending one more level from a valid parent path.
pub proof fn lemma_siblings_push(f: Seq<Node>, gp: Seq<usize>, i: usize)
    requires
        valid_pp(f, gp),
        i < siblings_at(f, gp).len(),
    ensures
        valid_pp(f, gp.push(i)),
        siblings_at(f, gp.push(i)) == siblings_at(f, gp)[i as int].children,
    decreases gp.len(),
{
    if gp.len() > 0 {
        assert(gp.push(i).drop_first() =~= gp.drop_first().push(i));
        assert(gp.push(i)[0] == gp[0]);
        lemma_siblings_push(f[gp[0] as int].children, gp.drop_first(), i);
    } else {
        assert(gp.push(i).drop_first() =~= Seq::<usize>::empty());
        assert(gp.push(i)[0] == i);
        assert(siblings_at(f, gp) == f);
        assert(siblings_at(f[i as int].children, Seq::<usize>::empty()) == f[i as int].children);
        assert(valid_pp(f[i as int].children, Seq::<usize>::empty()));
    }
}


/// Every prefix of a valid parent path is valid, and the next index is in
/// range of the siblings it reaches.
pub proof fn lemma_pp_prefix_valid(f: Seq<Node>, pp: Seq<usize>, d: int)
    requires
        valid_pp(f, pp),
        0 <= d < pp.len(),
    ensures
        valid_pp(f, pp.take(d)),
        pp[d] < siblings_at(f, pp.take(d)).len(),
    decreases d,
{
    if d > 0 {
        lemma_pp_prefix_valid(f[pp[0] as int].children, pp.drop_first(), d - 1);
        assert(pp.take(d).drop_first() =~= pp.drop_first().take(d - 1));
    } else {
        assert(pp.take(0) =~= Seq::<usize>::empty());
    }
}


/// The ids of a forest are the ids of its listing.
pub proof fn lemma_ids_flat(f: Seq<Node>, d: nat)
    ensures
        forest_ids(f) == flat(f, d).map_values(|e: Entry| e.id),
    decreases f,
{
    if f.len() > 0 {
        let r = f.subrange(1, f.len() as int);
        lemma_ids_flat(f[0].children, d + 1);
        lemma_ids_flat(r, d);
        let e = Entry { depth: d, id: f[0].id, text: f[0].text, collapsed: f[0].collapsed };
        assert(flat_node(f[0], d) == seq![e] + flat(f[0].children, d + 1));
        assert(flat(f, d) == flat_node(f[0], d) + flat(r, d));
        assert(node_ids(f[0]) == seq![f[0].id] + forest_ids(f[0].children));
        assert(forest_ids(f) == node_ids(f[0]) + forest_ids(r));
        assert(flat(f, d).map_values(|e: Entry| e.id) =~= seq![f[0].id] + forest_ids(
            f[0].children,
        ) + forest_ids(r));
    } else {
        assert(flat(f, d).map_values(|e: Entry| e.id) =~= Seq::<u64>::empty());
    }
}

/// Ids `first..first + n` in preorder are unique and below `first + n`.
pub proof fn lemma_numbered_ids_unique(f: Seq<Node>, first: nat, n: nat)
    requires
        first + n <= u64::MAX,
        forest_ids(f) == Seq::new(n, |j: int| (first + j) as u64),
    ensures
        ids_unique_below(f, (first + n) as u64),
{
    let s = forest_ids(f);
    assert forall|i: int, j: int| 0 <= i < s.len() && 0 <= j < s.len() && i != j implies s[i] != s[j] by {
        assert(s[i] == (first + i) as u64);
        assert(s[j] == (first + j) as u64);
    }
    assert(s.no_duplicates());
    s.lemma_multiset_has_no_duplicates();
    assert forall|x: u64| #[trigger]
        id_bag(f).count(x) <= 1 && (id_bag(f).count(x) > 0 ==> x < (first + n) as u64) by {
        if id_bag(f).count(x) > 0 {
            assert(s.to_multiset().contains(x));
            assert(s.contains(x));
        }
    }
}


// ---- lemmas: with unique ids, the search finds the one node -------------------
proof fn lemma_nodup_split(a: Seq<u64>, b: Seq<u64>, c: Seq<u64>)
    requires
        (a + b + c).no_duplicates(),
    ensures
        b.no_duplicates(),
        forall|x: u64| b.contains(x) ==> !a.contains(x) && !c.contains(x),
{
    let s = a + b + c;
    assert forall|i: int, j: int| 0 <= i < b.len() && 0 <= j < b.len() && i != j implies b[i] != b[j] by {
        assert(s[a.len() + i] == b[i]);
        assert(s[a.len() + j] == b[j]);
    }
    assert forall|x: u64| b.contains(x) implies !a.contains(x) && !c.contains(x) by {
        let i = choose|i: int| 0 <= i < b.len() && b[i] == x;
        assert(s[a.len() + i] == x);
        if a.contains(x) {
            let j = choose|j: int| 0 <= j < a.len() && a[j] == x;
            assert(s[j] == x);
        }
        if c.contains(x) {
            let j = choose|j: int| 0 <= j < c.len() && c[j] == x;
            assert(s[a.len() + b.len() + j] == x);
        }
    }
}

proof fn lemma_contains_piece(a: Seq<u64>, b: Seq<u64>, c: Seq<u64>, x: u64)
    requires
        b.contains(x),
    ensures
        (a + b + c).contains(x),
{
    let i = choose|i: int| 0 <= i < b.len() && b[i] == x;
    assert((a + b + c)[a.len() + i] == x);
}

proof fn lemma_path_step(f: Seq<Node>, p: Seq<usize>)
    requires
        valid_path(f, p),
        p.len() > 1,
    ensures
        p[0] < f.len(),
        valid_path(f[p[0] as int].children, p.drop_first()),
        node_at(f[p[0] as int].children, p.drop_first()) == node_at(f, p),
{
    assert(p.drop_last()[0] == p[0]);
    assert(p.drop_last().drop_first() =~= p.drop_first().drop_last());
}

/// The node a path designates lies in the subtree of the path's first index.
proof fn lemma_path_in(f: Seq<Node>, p: Seq<usize>)
    requires
        valid_path(f, p),
    ensures
        p[0] < f.len(),
        node_ids(f[p[0] as int]).contains(node_at(f, p).id),
    decreases p.len(),
{
    let i = p[0] as int;
    if p.len() == 1 {
        assert(p.drop_last() =~= Seq::<usize>::empty());
        assert(node_ids(f[i])[0] == f[i].id);
    } else {
        lemma_path_step(f, p);
        let c = f[i].children;
        let q = p.drop_first();
        lemma_path_in(c, q);
        let j = q[0] as int;
        lemma_ids_split(c, j);
        lemma_contains_piece(forest_ids(c.take(j)), node_ids(c[j]), forest_ids(c.skip(j + 1)), node_at(f, p).id);
        let x = node_at(f, p).id;
        let k = choose|k: int| 0 <= k < forest_ids(c).len() && forest_ids(c)[k] == x;
        assert(node_ids(f[i])[k + 1] == x);
    }
}

proof fn lemma_find_some_in(f: Seq<Node>, id: u64)
    requires
        find_from(f, id, 0) is Some,
    ensures
        forest_ids(f).contains(id),
{
    lemma_find_from(f, id, 0);
    let p = find_from(f, id, 0)->0;
    lemma_path_in(f, p);
    let i = p[0] as int;
    lemma_ids_split(f, i);
    lemma_contains_piece(forest_ids(f.take(i)), node_ids(f[i]), forest_ids(f.skip(i + 1)), id);
}

/// With unique ids, the search from any sibling up to the path's first index
/// finds exactly that path.
#[verifier::spinoff_prover]
#[verifier::rlimit(40)]
pub proof fn lemma_find_unique(f: Seq<Node>, p: Seq<usize>, i: int)
    requires
        forest_ids(f).no_duplicates(),
        valid_path(f, p),
        0 <= i <= p[0],
    ensures
        find_from(f, node_at(f, p).id, i) == Some(p),
    decreases f, p[0] - i,
{
    let id = node_at(f, p).id;
    lemma_path_in(f, p);
    let p0 = p[0] as int;
    lemma_ids_split(f, i);
    let a = forest_ids(f.take(i));
    let b = node_ids(f[i]);
    let c = forest_ids(f.skip(i + 1));
    lemma_nodup_split(a, b, c);
    assert(b =~= seq![f[i].id] + forest_ids(f[i].children));
    lemma_nodup_split(Seq::empty(), seq![f[i].id], forest_ids(f[i].children));
    assert(Seq::<u64>::empty() + seq![f[i].id] + forest_ids(f[i].children) =~= b);
    if i < p0 {
        let r = f.skip(i + 1);
        let j = p0 - i - 1;
        assert(r[j] == f[p0]);
        lemma_ids_split(r, j);
        lemma_contains_piece(forest_ids(r.take(j)), node_ids(r[j]), forest_ids(r.skip(j + 1)), id);
        assert(!b.contains(id));
        assert(f[i].id != id) by {
            assert(b[0] == f[i].id);
        }
        if find_from(f[i].children, id, 0) is Some {
            lemma_find_some_in(f[i].children, id);
            let k = choose|k: int| 0 <= k < forest_ids(f[i].children).len() && forest_ids(f[i].children)[k] == id;
            assert(b[k + 1] == id);
        }
        lemma_find_unique(f, p, i + 1);
    } else {
        if p.len() == 1 {
            assert(p.drop_last() =~= Seq::<usize>::empty());
            assert(p =~= seq![i as usize]);
        } else {
            lemma_path_step(f, p);
            let q = p.drop_first();
            let ch = f[i].children;
            lemma_path_in(ch, q);
            let j = q[0] as int;
            lemma_ids_split(ch, j);
            lemma_contains_piece(forest_ids(ch.take(j)), node_ids(ch[j]), forest_ids(ch.skip(j + 1)), id);
            assert(f[i].id != id) by {
                assert(seq![f[i].id].contains(f[i].id));
            }
            assert(seq![f[i].id] + forest_ids(ch) + Seq::<u64>::empty() =~= b);
            lemma_nodup_split(seq![f[i].id], forest_ids(ch), Seq::empty());
            lemma_find_unique(ch, q, 0);
            assert(seq![i as usize] + q =~= p);
        }
    }
}

/// With unique ids, a node's path is what the search finds for its id.
pub proof fn lemma_find_path_unique(f: Seq<Node>, p: Seq<usize>)
    requires
        forest_ids(f).no_duplicates(),
        valid_path(f, p),
    ensures
        find_path(f, node_at(f, p).id) == Some(p),
{
    lemma_path_in(f, p);
    lemma_find_unique(f, p, 0);
}


// ---- laws: what one operation undoes ------------------------------------------
/// No sibling list is longer than the largest index (true of every outline:
/// see `lemma_outline_lists_fit`).
pub open spec fn lists_fit(f: Seq<Node>) -> bool {
    forall|pp: Seq<usize>| valid_pp(f, pp) ==> #[trigger] siblings_at(f, pp).len() <= usize::MAX
}

proof fn lemma_nodup_same_bag(f: Seq<Node>, g: Seq<Node>)
    requires
        forest_ids(f).no_duplicates(),
        id_bag(g) == id_bag(f),
    ensures
        forest_ids(g).no_duplicates(),
{
    forest_ids(f).lemma_multiset_has_no_duplicates();
    forest_ids(g).lemma_multiset_has_no_duplicates_conv();
}

proof fn lemma_nodup_insert_bag(f: Seq<Node>, g: Seq<Node>, x: u64)
    requires
        forest_ids(f).no_duplicates(),
        !forest_ids(f).contains(x),
        id_bag(g) == id_bag(f).insert(x),
    ensures
        forest_ids(g).no_duplicates(),
{
    forest_ids(f).lemma_multiset_has_no_duplicates();
    assert(id_bag(f).count(x) == 0) by {
        if id_bag(f).count(x) > 0 {
            assert(forest_ids(f).to_multiset().contains(x));
        }
    }
    forest_ids(g).lemma_multiset_has_no_duplicates_conv();
}

/// The node at `pp.push(k)` after replacing the siblings at `pp` by `ns`.
proof fn lemma_at_replaced(f: Seq<Node>, pp: Seq<usize>, ns: Seq<Node>, k: usize)
    requires
        valid_pp(f, pp),
        k < ns.len(),
    ensures
        valid_path(replace_siblings(f, pp, ns), pp.push(k)),
        node_at(replace_siblings(f, pp, ns), pp.push(k)) == ns[k as int],
{
    lemma_replace_siblings(f, pp, ns, ns);
    assert(pp.push(k).drop_last() =~= pp);
}

/// Law: indenting a block and then outdenting it restores the outline.
pub proof fn law_indent_then_outdent(f: Seq<Node>, id: u64)
    requires
        forest_ids(f).no_duplicates(),
        lists_fit(f),
        indent_spec(f, id).0,
    ensures
        outdent_spec(indent_spec(f, id).1, id) == (true, f),
{
    lemma_find_from(f, id, 0);
    let p = find_path(f, id)->0;
    let pp = p.drop_last();
    let k = p.last() as int;
    let s = siblings_at(f, pp);
    let ns = indent_in(s, k);
    let f2 = replace_siblings(f, pp, ns);
    lemma_replace_siblings(f, pp, ns, s);
    let m = s[k - 1].children.len();
    lemma_siblings_push(f, pp, (k - 1) as usize);
    assert(m <= usize::MAX);
    lemma_siblings_push(f2, pp, (k - 1) as usize);
    let np = pp.push((k - 1) as usize).push(m as usize);
    assert(np.drop_last() =~= pp.push((k - 1) as usize));
    assert(valid_path(f2, np));
    assert(node_at(f2, np) == s[k]);
    lemma_indent_bag(s, k);
    lemma_replace_same_bag(f, pp, ns);
    lemma_nodup_same_bag(f, f2);
    lemma_find_path_unique(f2, np);
    assert(np.subrange(0, np.len() - 2) =~= pp);
    assert(ns[k - 1].children.remove(m as int) =~= s[k - 1].children);
    assert(outdent_in(ns, k - 1, m as int) =~= s);
}

/// Law: moving a block up and then down restores the outline.
pub proof fn law_move_up_then_down(f: Seq<Node>, id: u64)
    requires
        forest_ids(f).no_duplicates(),
        move_up_spec(f, id).0,
    ensures
        move_down_spec(move_up_spec(f, id).1, id) == (true, f),
{
    lemma_find_from(f, id, 0);
    let p = find_path(f, id)->0;
    let pp = p.drop_last();
    let k = p.last() as int;
    let s = siblings_at(f, pp);
    let ns = swap_in(s, k - 1, k);
    let f2 = replace_siblings(f, pp, ns);
    lemma_replace_siblings(f, pp, ns, s);
    lemma_at_replaced(f, pp, ns, (k - 1) as usize);
    lemma_swap_bag(s, k - 1);
    lemma_replace_same_bag(f, pp, ns);
    lemma_nodup_same_bag(f, f2);
    lemma_find_path_unique(f2, pp.push((k - 1) as usize));
    assert(pp.push((k - 1) as usize).drop_last() =~= pp);
    assert(swap_in(ns, k - 1, k) =~= s);
}

/// Law: moving a block down and then up restores the outline.
pub proof fn law_move_down_then_up(f: Seq<Node>, id: u64)
    requires
        forest_ids(f).no_duplicates(),
        lists_fit(f),
        move_down_spec(f, id).0,
    ensures
        move_up_spec(move_down_spec(f, id).1, id) == (true, f),
{
    lemma_find_from(f, id, 0);
    let p = find_path(f, id)->0;
    let pp = p.drop_last();
    let k = p.last() as int;
    let s = siblings_at(f, pp);
    let ns = swap_in(s, k, k + 1);
    let f2 = replace_siblings(f, pp, ns);
    lemma_replace_siblings(f, pp, ns, s);
    assert(s.len() <= usize::MAX);
    lemma_at_replaced(f, pp, ns, (k + 1) as usize);
    lemma_swap_bag(s, k);
    lemma_replace_same_bag(f, pp, ns);
    lemma_nodup_same_bag(f, f2);
    lemma_find_path_unique(f2, pp.push((k + 1) as usize));
    assert(pp.push((k + 1) as usize).drop_last() =~= pp);
    assert(swap_in(ns, k, k + 1) =~= s);
}

/// Law: toggling a block's fold state twice restores the outline.
pub proof fn law_toggle_twice(f: Seq<Node>, id: u64)
    requires
        forest_ids(f).no_duplicates(),
    ensures
        toggle_spec(toggle_spec(f, id).1, id).1 == f,
{
    if let Some(p) = find_path(f, id) {
        lemma_find_from(f, id, 0);
        let pp = p.drop_last();
        let k = p.last() as int;
        let s = siblings_at(f, pp);
        let ns = toggle_in(s, k);
        let f2 = replace_siblings(f, pp, ns);
        lemma_replace_siblings(f, pp, ns, s);
        lemma_at_replaced(f, pp, ns, k as usize);
        lemma_update_same_ids_bag(s, k, ns[k]);
        lemma_replace_same_bag(f, pp, ns);
        lemma_nodup_same_bag(f, f2);
        assert(pp.push(k as usize) =~= p);
        lemma_find_path_unique(f2, p);
        assert(toggle_in(ns, k) =~= s);
    }
}

/// Law: after setting a block's text, reading the block gives that text.
pub proof fn law_get_after_set_text(f: Seq<Node>, id: u64, text: Seq<char>)
    requires
        forest_ids(f).no_duplicates(),
        set_text_spec(f, id, text).0,
    ensures
        get_spec(set_text_spec(f, id, text).1, id) == Some(text),
{
    lemma_find_from(f, id, 0);
    let p = find_path(f, id)->0;
    let pp = p.drop_last();
    let k = p.last() as int;
    let s = siblings_at(f, pp);
    let ns = retext_in(s, k, text);
    let f2 = replace_siblings(f, pp, ns);
    lemma_at_replaced(f, pp, ns, k as usize);
    lemma_update_same_ids_bag(s, k, ns[k]);
    lemma_replace_same_bag(f, pp, ns);
    lemma_nodup_same_bag(f, f2);
    assert(pp.push(k as usize) =~= p);
    lemma_find_path_unique(f2, p);
}

/// Law: inserting a block after another and deleting the new block restores
/// the outline, and the deletion hands back the new, empty-childed block.
pub proof fn law_insert_then_delete(f: Seq<Node>, id: u64, new_id: u64, text: Seq<char>)
    requires
        forest_ids(f).no_duplicates(),
        !forest_ids(f).contains(new_id),
        lists_fit(f),
        insert_after_spec(f, id, new_id, text).0,
    ensures
        delete_spec(insert_after_spec(f, id, new_id, text).1, new_id) == (
            Some(leaf(new_id, text)),
            f,
        ),
{
    lemma_find_from(f, id, 0);
    let p = find_path(f, id)->0;
    let pp = p.drop_last();
    let k = p.last() as int;
    let s = siblings_at(f, pp);
    let ns = s.insert(k + 1, leaf(new_id, text));
    let f2 = replace_siblings(f, pp, ns);
    lemma_replace_siblings(f, pp, ns, s);
    assert(s.len() <= usize::MAX);
    lemma_at_replaced(f, pp, ns, (k + 1) as usize);
    lemma_insert_leaf_bag(s, k + 1, new_id, text);
    lemma_replace_bag(f, pp, ns);
    assert(id_bag(f2) =~= id_bag(f).insert(new_id)) by {
        assert forall|x: u64| #[trigger] id_bag(f2).count(x) == id_bag(f).insert(new_id).count(x) by {
            assert(id_bag(f2).add(id_bag(s)).count(x) == id_bag(f).add(id_bag(ns)).count(x));
        }
    }
    lemma_nodup_insert_bag(f, f2, new_id);
    lemma_find_path_unique(f2, pp.push((k + 1) as usize));
    assert(pp.push((k + 1) as usize).drop_last() =~= pp);
    assert(ns.remove(k + 1) =~= s);
}


// ---- views of a forest ---------------------------------------------------------
/// The rows a reader sees: preorder (depth, id) pairs, skipping the
/// descendants of collapsed nodes.
pub open spec fn visible(f: Seq<Node>, depth: nat) -> Seq<(nat, u64)>
    decreases f,
{
    if f.len() == 0 {
        Seq::empty()
    } else {
        visible_node(f[0], depth) + visible(f.subrange(1, f.len() as int), depth)
    }
}

/// The visible rows of one node and its descendants.
pub open spec fn visible_node(n: Node, depth: nat) -> Seq<(nat, u64)>
    decreases n,
{
    seq![(depth, n.id)] + if n.collapsed {
        Seq::empty()
    } else {
        visible(n.children, depth + 1)
    }
}

/// Every node of a forest, in preorder.
pub open spec fn nodes(f: Seq<Node>) -> Seq<Node>
    decreases f,
{
    if f.len() == 0 {
        Seq::empty()
    } else {
        seq![f[0]] + nodes(f[0].children) + nodes(f.subrange(1, f.len() as int))
    }
}

pub proof fn lemma_visible_push(a: Seq<Node>, n: Node, d: nat)
    ensures
        visible(a.push(n), d) == visible(a, d) + visible_node(n, d),
    decreases a.len(),
{
    if a.len() == 0 {
        assert(a.push(n).subrange(1, 1) =~= Seq::<Node>::empty());
        assert(visible(a.push(n), d) =~= visible(a, d) + visible_node(n, d));
    } else {
        let r = a.subrange(1, a.len() as int);
        lemma_visible_push(r, n, d);
        assert(a.push(n).subrange(1, a.len() as int + 1) =~= r.push(n));
        assert(visible(a.push(n), d) =~= visible(a, d) + visible_node(n, d));
    }
}

pub proof fn lemma_nodes_push(a: Seq<Node>, n: Node)
    ensures
        nodes(a.push(n)) == nodes(a) + seq![n] + nodes(n.children),
    decreases a.len(),
{
    if a.len() == 0 {
        assert(a.push(n).subrange(1, 1) =~= Seq::<Node>::empty());
        assert(nodes(a.push(n)) =~= nodes(a) + seq![n] + nodes(n.children));
    } else {
        let r = a.subrange(1, a.len() as int);
        lemma_nodes_push(r, n);
        assert(a.push(n).subrange(1, a.len() as int + 1) =~= r.push(n));
        assert(nodes(a.push(n)) =~= nodes(a) + seq![n] + nodes(n.children));
    }
}

pub proof fn lemma_ids_push(a: Seq<Node>, n: Node)
    ensures
        forest_ids(a.push(n)) == forest_ids(a) + seq![n.id] + forest_ids(n.children),
{
    lemma_ids_append(a, seq![n]);
    lemma_ids_single(n);
    assert(a + seq![n] =~= a.push(n));
    assert(node_ids(n) == seq![n.id] + forest_ids(n.children));
    assert(forest_ids(a) + node_ids(n) =~= forest_ids(a) + seq![n.id] + forest_ids(n.children));
}


/// A listing has at least one entry per root.
pub proof fn lemma_flat_len(f: Seq<Node>, d: nat)
    ensures
        flat(f, d).len() >= f.len(),
    decreases f.len(),
{
    if f.len() > 0 {
        lemma_flat_len(f.subrange(1, f.len() as int), d);
        assert(flat_node(f[0], d).len() >= 1);
        assert(flat(f, d) == flat_node(f[0], d) + flat(f.subrange(1, f.len() as int), d));
    }
}


/// Every entry of a listing at `d` is at least that deep; the first is at `d`.
pub proof fn lemma_flat_depth(f: Seq<Node>, d: nat)
    ensures
        flat(f, d).len() > 0 ==> flat(f, d)[0].depth == d,
        forall|j: int| 0 <= j < flat(f, d).len() ==> #[trigger] flat(f, d)[j].depth >= d,
    decreases f,
{
    if f.len() > 0 {
        let r = f.subrange(1, f.len() as int);
        let c = f[0].children;
        lemma_flat_depth(c, d + 1);
        lemma_flat_depth(r, d);
        let a = flat_node(f[0], d);
        assert(a == seq![Entry { depth: d, id: f[0].id, text: f[0].text, collapsed: f[0].collapsed }] + flat(c, d + 1));
        let all = a + flat(r, d);
        assert(flat(f, d) == all);
        assert forall|j: int| 0 <= j < all.len() implies #[trigger] all[j].depth >= d by {
            if 0 < j < a.len() {
                assert(all[j] == flat(c, d + 1)[j - 1]);
            } else if j >= a.len() {
                assert(all[j] == flat(r, d)[j - a.len()]);
            }
        }
    }
}

/// A forest is determined by its listing.
pub proof fn lemma_flat_injective(a: Seq<Node>, b: Seq<Node>, d: nat)
    requires
        flat(a, d) == flat(b, d),
    ensures
        a == b,
    decreases flat(a, d).len(),
{
    if a.len() == 0 || b.len() == 0 {
        lemma_flat_len(a, d);
        lemma_flat_len(b, d);
        assert(a =~= b);
    } else {
        let ra = a.subrange(1, a.len() as int);
        let rb = b.subrange(1, b.len() as int);
        let na = flat_node(a[0], d);
        let nb = flat_node(b[0], d);
        let fa = flat(a, d);
        assert(fa == na + flat(ra, d));
        assert(fa == nb + flat(rb, d));
        lemma_flat_depth(a[0].children, d + 1);
        lemma_flat_depth(b[0].children, d + 1);
        lemma_flat_depth(ra, d);
        lemma_flat_depth(rb, d);
        // The first node's listing ends where depth `d` comes back.
        assert(na.len() == nb.len()) by {
            if na.len() < nb.len() {
                assert(flat(ra, d).len() > 0);
                assert(fa[na.len() as int] == flat(ra, d)[0]);
                assert(fa[na.len() as int] == nb[na.len() as int]);
                assert(nb[na.len() as int] == flat(b[0].children, d + 1)[na.len() - 1]);
            } else if nb.len() < na.len() {
                assert(flat(rb, d).len() > 0);
                assert(fa[nb.len() as int] == flat(rb, d)[0]);
                assert(fa[nb.len() as int] == na[nb.len() as int]);
                assert(na[nb.len() as int] == flat(a[0].children, d + 1)[nb.len() - 1]);
            }
        }
        assert(na =~= fa.take(na.len() as int));
        assert(nb =~= fa.take(na.len() as int));
        assert(flat(ra, d) =~= fa.skip(na.len() as int));
        assert(flat(rb, d) =~= fa.skip(na.len() as int));
        assert(na[0] == nb[0]);
        assert(flat(a[0].children, d + 1) =~= na.skip(1));
        assert(flat(b[0].children, d + 1) =~= nb.skip(1));
        lemma_flat_injective(a[0].children, b[0].children, d + 1);
        lemma_flat_injective(ra, rb, d);
        assert(a[0] == b[0]);
        assert(a =~= seq![a[0]] + ra);
        assert(b =~= seq![b[0]] + rb);
    }
}

} // verus!
