//! The markdown form of an outline: one `- ` bullet per block, two spaces of
//! indentation per level; the later lines of a multi-line block follow as
//! continuation lines indented to the bullet's text column. What
//! `Outline::serialize` writes and what `Outline::parse` reads, stated over
//! characters.

use vstd::prelude::*;
use crate::forest::{
    find_path, flat, flat_node, lemma_find_from, lemma_flat_append, replace_siblings, siblings_at,
    toggle_in, toggle_spec, Entry, Node,
};
use crate::outline::Outline;

verus! {

broadcast use vstd::seq_lib::group_seq_properties;

// ---- writing ----------------------------------------------------------------
/// Two spaces per level.
pub open spec fn indent_chars(depth: nat) -> Seq<char>
    decreases depth,
{
    if depth == 0 {
        Seq::empty()
    } else {
        indent_chars((depth - 1) as nat) + seq![' ', ' ']
    }
}

/// `text` with `pad` after each of its newlines.
pub open spec fn reindent(text: Seq<char>, pad: Seq<char>) -> Seq<char>
    decreases text.len(),
{
    if text.len() == 0 {
        Seq::empty()
    } else {
        reindent(text.drop_last(), pad) + if text.last() == '\n' {
            seq!['\n'] + pad
        } else {
            seq![text.last()]
        }
    }
}

/// One serialized block: its bullet line, then its later lines indented to
/// the bullet's text column, newline included.
pub open spec fn render_line(depth: nat, text: Seq<char>) -> Seq<char> {
    indent_chars(depth) + seq!['-', ' '] + reindent(text, indent_chars(depth + 1)) + seq!['\n']
}

/// The serialized form of a preorder listing.
pub open spec fn render(es: Seq<Entry>) -> Seq<char>
    decreases es.len(),
{
    if es.len() == 0 {
        Seq::empty()
    } else {
        render(es.drop_last()) + render_line(es.last().depth, es.last().text)
    }
}

// ---- reading ----------------------------------------------------------------
/// Drops one trailing carriage return.
pub open spec fn strip_cr(line: Seq<char>) -> Seq<char> {
    if line.len() > 0 && line.last() == '\r' {
        line.drop_last()
    } else {
        line
    }
}

/// Reads a bullet line from position `i`, where `indent` columns of leading
/// whitespace have been counted so far (a space counts one, a tab two):
/// after the whitespace, a `-` or `*` marker, then a space or tab, then the
/// text.
pub open spec fn bullet_from(line: Seq<char>, i: int, indent: nat) -> Option<(nat, Seq<char>)>
    decreases line.len() - i,
{
    if i < 0 || i >= line.len() {
        None
    } else if line[i] == ' ' {
        bullet_from(line, i + 1, indent + 1)
    } else if line[i] == '\t' {
        bullet_from(line, i + 1, indent + 2)
    } else if i + 1 < line.len() && (line[i] == '-' || line[i] == '*') && (line[i + 1] == ' '
        || line[i + 1] == '\t') {
        Some((indent, line.subrange(i + 2, line.len() as int)))
    } else {
        None
    }
}

/// The indent width and text of a bullet line, if it is one.
pub open spec fn parse_bullet(line: Seq<char>) -> Option<(nat, Seq<char>)> {
    bullet_from(line, 0, 0)
}

/// `line` starts with `n` spaces.
pub open spec fn spaces_prefix(line: Seq<char>, n: nat) -> bool {
    line.len() >= n && forall|k: int| 0 <= k < n ==> #[trigger] line[k] == ' '
}

/// Reads one line: a bullet starts a block; a line indented to the text
/// column of the last block (its indent plus two) continues that block, the
/// indentation dropped; other lines are skipped.
pub open spec fn push_line(acc: Seq<(nat, Seq<char>)>, line: Seq<char>) -> Seq<(nat, Seq<char>)> {
    match parse_bullet(line) {
        Some(b) => acc.push(b),
        None => if acc.len() > 0 && spaces_prefix(line, acc.last().0 + 2) {
            acc.update(
                acc.len() - 1,
                (acc.last().0, acc.last().1 + seq!['\n'] + line.skip(acc.last().0 + 2int)),
            )
        } else {
            acc
        },
    }
}

/// Reads a line that ended with a newline (its carriage return dropped).
pub open spec fn push_bullet(acc: Seq<(nat, Seq<char>)>, line: Seq<char>) -> Seq<(nat, Seq<char>)> {
    push_line(acc, strip_cr(line))
}

/// Splits `s` into lines the way `str::lines` does (a line ends at `\n`,
/// whose preceding `\r` is dropped; a last line without `\n` is kept as is
/// unless empty), and reads them in turn. `cur` is the unfinished line, `acc`
/// the blocks read so far (indent width and text).
pub open spec fn scan(s: Seq<char>, cur: Seq<char>, acc: Seq<(nat, Seq<char>)>) -> Seq<
    (nat, Seq<char>),
>
    decreases s.len(),
{
    if s.len() == 0 {
        if cur.len() == 0 {
            acc
        } else {
            push_line(acc, cur)
        }
    } else if s[0] == '\n' {
        scan(s.drop_first(), Seq::empty(), push_bullet(acc, cur))
    } else {
        scan(s.drop_first(), cur.push(s[0]), acc)
    }
}

/// The bullets of `s` with their indent widths.
pub open spec fn bullets(s: Seq<char>) -> Seq<(nat, Seq<char>)> {
    scan(s, Seq::empty(), Seq::empty())
}

/// Pops the indent stack down to the entries narrower than `indent`.
pub open spec fn pop_ge(stack: Seq<nat>, indent: nat) -> Seq<nat>
    decreases stack.len(),
{
    if stack.len() > 0 && stack.last() >= indent {
        pop_ge(stack.drop_last(), indent)
    } else {
        stack
    }
}

/// The indent widths of the open ancestors after reading the bullets `bs`:
/// each bullet closes every open bullet indented at least as far as it is,
/// then opens itself.
pub open spec fn stack_after(bs: Seq<(nat, Seq<char>)>) -> Seq<nat>
    decreases bs.len(),
{
    if bs.len() == 0 {
        Seq::empty()
    } else {
        pop_ge(stack_after(bs.drop_last()), bs.last().0).push(bs.last().0)
    }
}

/// Nesting depths for bullets: a bullet sits under the nearest earlier open
/// bullet that is indented less than it.
pub open spec fn depths(bs: Seq<(nat, Seq<char>)>) -> Seq<(nat, Seq<char>)>
    decreases bs.len(),
{
    if bs.len() == 0 {
        Seq::empty()
    } else {
        depths(bs.drop_last()).push(
            (pop_ge(stack_after(bs.drop_last()), bs.last().0).len(), bs.last().1),
        )
    }
}

/// The (depth, text) rows that parsing `s` yields, in preorder.
pub open spec fn parse_rows(s: Seq<char>) -> Seq<(nat, Seq<char>)> {
    depths(bullets(s))
}

/// The (depth, text) rows of a forest, in preorder.
pub open spec fn rows(f: Seq<Node>) -> Seq<(nat, Seq<char>)> {
    flat(f, 0).map_values(|e: Entry| (e.depth, e.text))
}

// ---- lemmas -----------------------------------------------------------------
pub proof fn lemma_render_append(a: Seq<Entry>, b: Seq<Entry>)
    ensures
        render(a + b) == render(a) + render(b),
    decreases b.len(),
{
    if b.len() == 0 {
        assert(a + b =~= a);
        assert(render(a) + render(b) =~= render(a));
    } else {
        lemma_render_append(a, b.drop_last());
        assert((a + b).drop_last() =~= a + b.drop_last());
        assert((a + b).last() == b.last());
        assert(render(a + b) =~= render(a) + render(b.drop_last()) + render_line(
            b.last().depth,
            b.last().text,
        ));
    }
}

pub proof fn lemma_render_single(e: Entry)
    ensures
        render(seq![e]) == render_line(e.depth, e.text),
{
    assert(seq![e].drop_last() =~= Seq::<Entry>::empty());
    assert(render(Seq::<Entry>::empty()) + render_line(e.depth, e.text) =~= render_line(
        e.depth,
        e.text,
    ));
}


pub proof fn lemma_pop_ge_len(stack: Seq<nat>, indent: nat)
    ensures
        pop_ge(stack, indent).len() <= stack.len(),
    decreases stack.len(),
{
    if stack.len() > 0 && stack.last() >= indent {
        lemma_pop_ge_len(stack.drop_last(), indent);
    }
}

/// Depths start at zero and grow by at most one from row to row.
pub open spec fn depth_steps(rs: Seq<(nat, Seq<char>)>) -> bool {
    &&& rs.len() > 0 ==> rs[0].0 == 0
    &&& forall|j: int| 0 < j < rs.len() ==> #[trigger] rs[j].0 <= rs[j - 1].0 + 1
}

pub proof fn lemma_depths_steps(bs: Seq<(nat, Seq<char>)>)
    ensures
        depths(bs).len() == bs.len(),
        stack_after(bs).len() == (if bs.len() == 0 {
            0
        } else {
            depths(bs).last().0 + 1
        }),
        depth_steps(depths(bs)),
        forall|j: int| 0 <= j < bs.len() ==> #[trigger] depths(bs)[j].1 == bs[j].1,
    decreases bs.len(),
{
    if bs.len() > 0 {
        let a = bs.drop_last();
        lemma_depths_steps(a);
        lemma_pop_ge_len(stack_after(a), bs.last().0);
        assert forall|j: int| 0 <= j < bs.len() implies #[trigger] depths(bs)[j].1 == bs[j].1 by {
            if j < a.len() {
                assert(depths(bs)[j] == depths(a)[j]);
            }
        }
    }
}

/// A row's depth is at most its index.
pub proof fn lemma_steps_bound(rs: Seq<(nat, Seq<char>)>)
    requires
        depth_steps(rs),
    ensures
        forall|j: int| 0 <= j < rs.len() ==> #[trigger] rs[j].0 <= j,
{
    assert forall|j: int| 0 <= j < rs.len() implies #[trigger] rs[j].0 <= j by {
        lemma_steps_bound_at(rs, j);
    }
}

proof fn lemma_steps_bound_at(rs: Seq<(nat, Seq<char>)>, j: int)
    requires
        depth_steps(rs),
        0 <= j < rs.len(),
    ensures
        rs[j].0 <= j,
    decreases j,
{
    if j > 0 {
        lemma_steps_bound_at(rs, j - 1);
    }
}


/// Rows `lo..hi` as listing entries, row `i` with id `first + i`, all
/// expanded.
pub open spec fn numbered(rs: Seq<(nat, Seq<char>)>, lo: int, hi: int, first: int) -> Seq<Entry> {
    Seq::new(
        (hi - lo) as nat,
        |j: int|
            Entry { depth: rs[lo + j].0, id: (first + lo + j) as u64, text: rs[lo + j].1, collapsed: false },
    )
}

/// The exec form of a row list.
pub open spec fn rows_view(v: Seq<(usize, String)>) -> Seq<(nat, Seq<char>)> {
    v.map_values(|p: (usize, String)| (p.0 as nat, p.1@))
}

/// There are no more bullets than characters.
/// Changing the text of the last bullet changes only the text of the last
/// row, and leaves the open ancestors as they were.
pub proof fn lemma_retext_last(acc: Seq<(nat, Seq<char>)>, t: Seq<char>)
    requires
        acc.len() > 0,
    ensures
        ({
            let a2 = acc.update(acc.len() - 1, (acc.last().0, t));
            &&& depths(a2) == depths(acc).update(acc.len() - 1, (depths(acc).last().0, t))
            &&& stack_after(a2) == stack_after(acc)
        }),
        depths(acc).len() == acc.len(),
        stack_after(acc).len() > 0,
        stack_after(acc).last() == acc.last().0,
{
    let a2 = acc.update(acc.len() - 1, (acc.last().0, t));
    assert(a2.drop_last() =~= acc.drop_last());
    lemma_depths_steps(acc);
    assert(depths(a2) =~= depths(acc).update(acc.len() - 1, (depths(acc).last().0, t)));
}

/// There are no more rows than characters.
pub proof fn lemma_rows_le_chars(s: Seq<char>)
    ensures
        parse_rows(s).len() <= s.len(),
{
    lemma_scan_len(s, Seq::empty(), Seq::empty());
    lemma_depths_steps(bullets(s));
}

pub proof fn lemma_scan_len(s: Seq<char>, cur: Seq<char>, acc: Seq<(nat, Seq<char>)>)
    ensures
        scan(s, cur, acc).len() <= acc.len() + s.len() + (if cur.len() > 0 {
            1int
        } else {
            0
        }),
    decreases s.len(),
{
    if s.len() > 0 {
        if s[0] == '\n' {
            lemma_scan_len(s.drop_first(), Seq::empty(), push_bullet(acc, cur));
        } else {
            lemma_scan_len(s.drop_first(), cur.push(s[0]), acc);
        }
    }
}


// ---- the round trip ---------------------------------------------------------
/// The position of the last newline of `t`.
pub open spec fn last_nl(t: Seq<char>) -> Option<int>
    decreases t.len(),
{
    if t.len() == 0 {
        None
    } else if t.last() == '\n' {
        Some(t.len() - 1)
    } else {
        last_nl(t.drop_last())
    }
}

/// No line of `t` after its first reads as a bullet.
pub open spec fn no_bullet_lines(t: Seq<char>) -> bool
    decreases t.len(),
{
    match last_nl(t) {
        None => true,
        Some(k) => if 0 <= k < t.len() {
            parse_bullet(t.skip(k + 1)) is None && no_bullet_lines(t.take(k))
        } else {
            false
        },
    }
}

/// A text that survives the round trip through its serialized form: no
/// carriage return, and no later line that reads as a bullet (it would start
/// a block of its own).
pub open spec fn clean_text(t: Seq<char>) -> bool {
    !t.contains('\r') && no_bullet_lines(t)
}

/// Every entry's text is clean.
pub open spec fn clean_entries(es: Seq<Entry>) -> bool {
    forall|j: int| 0 <= j < es.len() ==> #[trigger] clean_text(es[j].text)
}

/// Depths start at zero and grow by at most one from entry to entry.
pub open spec fn entry_steps(es: Seq<Entry>) -> bool {
    &&& es.len() > 0 ==> es[0].depth == 0
    &&& forall|j: int| 0 < j < es.len() ==> #[trigger] es[j].depth <= es[j - 1].depth + 1
}

/// Entries as (depth, text) rows.
pub open spec fn entry_rows(es: Seq<Entry>) -> Seq<(nat, Seq<char>)> {
    es.map_values(|e: Entry| (e.depth, e.text))
}

/// Entries as the (indent width, text) bullets their lines carry.
pub open spec fn entry_bullets(es: Seq<Entry>) -> Seq<(nat, Seq<char>)> {
    es.map_values(|e: Entry| ((2 * e.depth) as nat, e.text))
}

/// Indent widths `0, 2, 4, ...` of `m` open ancestors.
pub open spec fn evens(m: nat) -> Seq<nat> {
    Seq::new(m, |j: int| (2 * j) as nat)
}

pub proof fn lemma_indent_chars(d: nat)
    ensures
        indent_chars(d).len() == 2 * d,
        forall|k: int| 0 <= k < 2 * d ==> #[trigger] indent_chars(d)[k] == ' ',
    decreases d,
{
    if d > 0 {
        lemma_indent_chars((d - 1) as nat);
    }
}

proof fn lemma_bullet_of_line(d: nat, t: Seq<char>, j: int)
    requires
        0 <= j <= 2 * d,
    ensures
        bullet_from(indent_chars(d) + seq!['-', ' '] + t, j, j as nat) == Some(((2 * d) as nat, t)),
    decreases 2 * d - j,
{
    let line = indent_chars(d) + seq!['-', ' '] + t;
    lemma_indent_chars(d);
    if j < 2 * d {
        assert(line[j] == ' ');
        lemma_bullet_of_line(d, t, j + 1);
    } else {
        assert(line[j] == '-');
        assert(line[j + 1] == ' ');
        assert(line.subrange(j + 2, line.len() as int) =~= t);
    }
}

proof fn lemma_scan_line(line: Seq<char>, rest: Seq<char>, cur: Seq<char>, acc: Seq<(nat, Seq<char>)>)
    requires
        !line.contains('\n'),
    ensures
        scan(line + seq!['\n'] + rest, cur, acc) == scan(rest, Seq::empty(), push_bullet(acc, cur + line)),
    decreases line.len(),
{
    let s = line + seq!['\n'] + rest;
    if line.len() == 0 {
        assert(s[0] == '\n');
        assert(s.drop_first() =~= rest);
        assert(cur + line =~= cur);
    } else {
        assert(s[0] == line[0]);
        assert(!line.drop_first().contains('\n')) by {
            if line.drop_first().contains('\n') {
                let k = choose|k: int| 0 <= k < line.drop_first().len() && line.drop_first()[k] == '\n';
                assert(line[k + 1] == '\n');
            }
        }
        assert(s.drop_first() =~= line.drop_first() + seq!['\n'] + rest);
        lemma_scan_line(line.drop_first(), rest, cur.push(line[0]), acc);
        assert(cur.push(line[0]) + line.drop_first() =~= cur + line);
    }
}

proof fn lemma_last_nl(t: Seq<char>)
    ensures
        match last_nl(t) {
            Some(k) => 0 <= k < t.len() && t[k] == '\n' && !t.skip(k + 1).contains('\n'),
            None => !t.contains('\n'),
        },
    decreases t.len(),
{
    if t.len() > 0 {
        lemma_last_nl(t.drop_last());
        if t.last() == '\n' {
            assert(t.skip(t.len() as int) =~= Seq::<char>::empty());
        } else {
            match last_nl(t.drop_last()) {
                Some(k) => {
                    assert forall|j: int| 0 <= j < t.skip(k + 1).len() implies #[trigger] t.skip(k + 1)[j] != '\n' by {
                        if k + 1 + j < t.len() - 1 {
                            assert(t.drop_last().skip(k + 1)[j] == t.skip(k + 1)[j]);
                        }
                    }
                },
                None => {
                    assert forall|j: int| 0 <= j < t.len() implies #[trigger] t[j] != '\n' by {
                        if j < t.len() - 1 {
                            assert(t.drop_last()[j] == t[j]);
                        }
                    }
                },
            }
        }
    }
}

proof fn lemma_reindent_plain(t: Seq<char>, pad: Seq<char>)
    requires
        !t.contains('\n'),
    ensures
        reindent(t, pad) == t,
    decreases t.len(),
{
    if t.len() > 0 {
        assert(!t.drop_last().contains('\n')) by {
            if t.drop_last().contains('\n') {
                let k = choose|k: int| 0 <= k < t.drop_last().len() && t.drop_last()[k] == '\n';
                assert(t[k] == '\n');
            }
        }
        assert(t.last() == t[t.len() - 1]);
        lemma_reindent_plain(t.drop_last(), pad);
        assert(t.drop_last() + seq![t.last()] =~= t);
    }
}

proof fn lemma_reindent_split(u: Seq<char>, v: Seq<char>, pad: Seq<char>)
    requires
        !v.contains('\n'),
    ensures
        reindent(u + seq!['\n'] + v, pad) == reindent(u, pad) + seq!['\n'] + pad + v,
    decreases v.len(),
{
    let t = u + seq!['\n'] + v;
    if v.len() == 0 {
        assert(t.drop_last() =~= u);
        assert(t.last() == '\n');
        assert(reindent(u, pad) + seq!['\n'] + pad + v =~= reindent(u, pad) + (seq!['\n'] + pad));
    } else {
        assert(!v.drop_last().contains('\n')) by {
            if v.drop_last().contains('\n') {
                let k = choose|k: int| 0 <= k < v.drop_last().len() && v.drop_last()[k] == '\n';
                assert(v[k] == '\n');
            }
        }
        assert(v.last() == v[v.len() - 1]);
        lemma_reindent_split(u, v.drop_last(), pad);
        assert(t.drop_last() =~= u + seq!['\n'] + v.drop_last());
        assert(t.last() == v.last());
        assert(reindent(u, pad) + seq!['\n'] + pad + v.drop_last() + seq![v.last()] =~= reindent(u, pad)
            + seq!['\n'] + pad + v);
    }
}

/// Whether a line reads as a bullet does not depend on how far it is
/// indented already.
proof fn lemma_bullet_none_indent(v: Seq<char>, i: int, a: nat, b: nat)
    ensures
        (bullet_from(v, i, a) is None) == (bullet_from(v, i, b) is None),
    decreases v.len() - i,
{
    if 0 <= i < v.len() {
        if v[i] == ' ' {
            lemma_bullet_none_indent(v, i + 1, a + 1, b + 1);
        } else if v[i] == '\t' {
            lemma_bullet_none_indent(v, i + 1, a + 2, b + 2);
        }
    }
}

/// Spaces in front of a line do not make it a bullet.
proof fn lemma_bullet_none_pad(p: Seq<char>, v: Seq<char>, j: int, a: nat)
    requires
        0 <= j <= p.len(),
        forall|k: int| 0 <= k < p.len() ==> #[trigger] p[k] == ' ',
    ensures
        (bullet_from(p + v, j, a) is None) == (bullet_from(v, 0, a) is None),
    decreases p.len() - j,
{
    let l = p + v;
    if j < p.len() {
        assert(l[j] == ' ');
        lemma_bullet_none_pad(p, v, j + 1, a + 1);
        lemma_bullet_none_indent(v, 0, a + 1, a);
    } else {
        lemma_bullet_none_shift(p, v, 0, a);
    }
}

proof fn lemma_bullet_none_shift(p: Seq<char>, v: Seq<char>, i: int, a: nat)
    requires
        0 <= i,
    ensures
        (bullet_from(p + v, p.len() + i, a) is None) == (bullet_from(v, i, a) is None),
    decreases v.len() - i,
{
    let l = p + v;
    if i < v.len() {
        assert(l[p.len() + i] == v[i]);
        if i + 1 < v.len() {
            assert(l[p.len() + i + 1] == v[i + 1]);
        }
        if v[i] == ' ' {
            lemma_bullet_none_shift(p, v, i + 1, a + 1);
        } else if v[i] == '\t' {
            lemma_bullet_none_shift(p, v, i + 1, a + 2);
        }
    }
}

/// Reading the serialized form of one block gives the block back.
proof fn lemma_scan_text(d: nat, t: Seq<char>, rest: Seq<char>, acc: Seq<(nat, Seq<char>)>)
    requires
        clean_text(t),
    ensures
        scan(render_line(d, t) + rest, Seq::empty(), acc) == scan(rest, Seq::empty(), acc.push(((2 * d) as nat, t))),
    decreases t.len(),
{
    let pad = indent_chars(d + 1);
    lemma_indent_chars(d);
    lemma_indent_chars(d + 1);
    lemma_last_nl(t);
    match last_nl(t) {
        None => {
            lemma_reindent_plain(t, pad);
            let line = indent_chars(d) + seq!['-', ' '] + t;
            assert(!line.contains('\n')) by {
                if line.contains('\n') {
                    let k = choose|k: int| 0 <= k < line.len() && line[k] == '\n';
                    if k >= 2 * d + 2 {
                        assert(t[k - 2 * d - 2] == '\n');
                    }
                }
            }
            assert(render_line(d, t) + rest =~= line + seq!['\n'] + rest);
            lemma_scan_line(line, rest, Seq::empty(), acc);
            assert(Seq::<char>::empty() + line =~= line);
            assert(strip_cr(line) == line) by {
                if t.len() > 0 {
                    assert(line.last() == t.last());
                    assert(t[t.len() - 1] == t.last());
                } else {
                    assert(line.last() == ' ');
                }
            }
            lemma_bullet_of_line(d, t, 0);
        },
        Some(k) => {
            let u = t.take(k);
            let v = t.skip(k + 1);
            assert(t =~= u + seq!['\n'] + v);
            assert(!u.contains('\r')) by {
                if u.contains('\r') {
                    let q = choose|q: int| 0 <= q < u.len() && u[q] == '\r';
                    assert(t[q] == '\r');
                }
            }
            assert(!v.contains('\r')) by {
                if v.contains('\r') {
                    let q = choose|q: int| 0 <= q < v.len() && v[q] == '\r';
                    assert(t[k + 1 + q] == '\r');
                }
            }
            assert(clean_text(u));
            lemma_reindent_split(u, v, pad);
            let pv = pad + v;
            assert(render_line(d, t) + rest =~= render_line(d, u) + (pv + seq!['\n'] + rest));
            lemma_scan_text(d, u, pv + seq!['\n'] + rest, acc);
            assert(!pv.contains('\n')) by {
                if pv.contains('\n') {
                    let q = choose|q: int| 0 <= q < pv.len() && pv[q] == '\n';
                    if q >= pad.len() {
                        assert(v[q - pad.len()] == '\n');
                    }
                }
            }
            let acc1 = acc.push(((2 * d) as nat, u));
            lemma_scan_line(pv, rest, Seq::empty(), acc1);
            assert(Seq::<char>::empty() + pv =~= pv);
            assert(strip_cr(pv) == pv) by {
                if v.len() > 0 {
                    assert(pv.last() == v[v.len() - 1]);
                } else {
                    assert(pv.last() == pad[pad.len() - 1]);
                }
            }
            lemma_bullet_none_pad(pad, v, 0, 0);
            assert(parse_bullet(pv) is None);
            assert(spaces_prefix(pv, 2 * d + 2)) by {
                assert forall|q: int| 0 <= q < 2 * d + 2 implies #[trigger] pv[q] == ' ' by {
                    assert(pv[q] == pad[q]);
                }
            }
            assert(pv.skip(2 * d + 2int) =~= v);
            assert(acc1.update(acc1.len() - 1, ((2 * d) as nat, u + seq!['\n'] + v)) =~= acc.push(((2 * d) as nat, t)));
        },
    }
}

proof fn lemma_scan_render(es: Seq<Entry>, rest: Seq<char>, acc: Seq<(nat, Seq<char>)>)
    requires
        clean_entries(es),
    ensures
        scan(render(es) + rest, Seq::empty(), acc) == scan(rest, Seq::empty(), acc + entry_bullets(es)),
    decreases es.len(),
{
    if es.len() == 0 {
        assert(render(es) + rest =~= rest);
        assert(acc + entry_bullets(es) =~= acc);
    } else {
        let dl = es.drop_last();
        let e = es.last();
        assert(clean_entries(dl));
        assert(clean_text(e.text));
        assert(render(es) + rest =~= render(dl) + (render_line(e.depth, e.text) + rest));
        lemma_scan_render(dl, render_line(e.depth, e.text) + rest, acc);
        lemma_scan_text(e.depth, e.text, rest, acc + entry_bullets(dl));
        assert((acc + entry_bullets(dl)).push(((2 * e.depth) as nat, e.text)) =~= acc + entry_bullets(es));
    }
}

proof fn lemma_pop_evens(m: nat, d: nat)
    requires
        d <= m,
    ensures
        pop_ge(evens(m), 2 * d) == evens(d),
    decreases m,
{
    if m > d {
        assert(evens(m).drop_last() =~= evens((m - 1) as nat));
        lemma_pop_evens((m - 1) as nat, d);
    } else {
        assert(evens(m) =~= evens(d));
    }
}

proof fn lemma_depths_of_bullets(es: Seq<Entry>)
    requires
        entry_steps(es),
    ensures
        depths(entry_bullets(es)) == entry_rows(es),
        stack_after(entry_bullets(es)) == (if es.len() == 0 {
            evens(0)
        } else {
            evens(es.last().depth + 1)
        }),
    decreases es.len(),
{
    if es.len() == 0 {
        assert(entry_bullets(es) =~= Seq::<(nat, Seq<char>)>::empty());
        assert(depths(entry_bullets(es)) =~= entry_rows(es));
        assert(evens(0) =~= Seq::<nat>::empty());
    } else {
        let dl = es.drop_last();
        let e = es.last();
        assert(entry_steps(dl)) by {
            assert forall|j: int| 0 < j < dl.len() implies #[trigger] dl[j].depth <= dl[j - 1].depth + 1 by {
                assert(es[j].depth <= es[j - 1].depth + 1);
            }
        }
        lemma_depths_of_bullets(dl);
        let bs = entry_bullets(es);
        assert(bs.drop_last() =~= entry_bullets(dl));
        assert(bs.last() == ((2 * e.depth) as nat, e.text));
        let m: nat = if dl.len() == 0 { 0 } else { dl.last().depth + 1 };
        assert(e.depth <= m) by {
            if dl.len() > 0 {
                assert(es[es.len() - 1].depth <= es[es.len() - 2].depth + 1);
            }
        }
        if dl.len() == 0 {
            assert(stack_after(entry_bullets(dl)) == evens(m));
        }
        lemma_pop_evens(m, e.depth);
        assert(evens(e.depth).push(2 * e.depth) =~= evens(e.depth + 1));
        assert(evens(e.depth).len() == e.depth);
        assert(depths(bs) =~= entry_rows(es));
    }
}

/// Reading back the serialized form of well-nested entries with clean texts
/// gives their (depth, text) rows.
pub proof fn lemma_parse_render(es: Seq<Entry>)
    requires
        entry_steps(es),
        clean_entries(es),
    ensures
        parse_rows(render(es)) == entry_rows(es),
{
    lemma_scan_render(es, Seq::empty(), Seq::empty());
    assert(render(es) + Seq::<char>::empty() =~= render(es));
    assert(Seq::<(nat, Seq<char>)>::empty() + entry_bullets(es) =~= entry_bullets(es));
    lemma_depths_of_bullets(es);
}

proof fn lemma_flat_steps(f: Seq<Node>, d: nat)
    ensures
        flat(f, d).len() > 0 ==> flat(f, d)[0].depth == d,
        forall|j: int| 0 <= j < flat(f, d).len() ==> #[trigger] flat(f, d)[j].depth >= d,
        forall|j: int| 0 < j < flat(f, d).len() ==> #[trigger] flat(f, d)[j].depth <= flat(f, d)[j - 1].depth + 1,
    decreases f,
{
    if f.len() > 0 {
        let r = f.subrange(1, f.len() as int);
        let c = f[0].children;
        lemma_flat_steps(c, d + 1);
        lemma_flat_steps(r, d);
        let e = Entry { depth: d, id: f[0].id, text: f[0].text, collapsed: f[0].collapsed };
        let a = seq![e] + flat(c, d + 1);
        assert(flat_node(f[0], d) == a);
        let all = a + flat(r, d);
        assert(flat(f, d) == all);
        assert forall|j: int| 0 < j < all.len() implies #[trigger] all[j].depth <= all[j - 1].depth + 1 by {
            if j < a.len() {
                if j > 1 {
                    assert(all[j] == flat(c, d + 1)[j - 1]);
                    assert(all[j - 1] == flat(c, d + 1)[j - 2]);
                }
            } else if j > a.len() {
                assert(all[j] == flat(r, d)[j - a.len()]);
                assert(all[j - 1] == flat(r, d)[j - 1 - a.len()]);
            } else {
                assert(all[j] == flat(r, d)[0]);
                if a.len() > 1 {
                    assert(all[j - 1] == flat(c, d + 1)[a.len() - 2]);
                }
            }
        }
        assert forall|j: int| 0 <= j < all.len() implies #[trigger] all[j].depth >= d by {
            if 0 < j < a.len() {
                assert(all[j] == flat(c, d + 1)[j - 1]);
            } else if j >= a.len() {
                assert(all[j] == flat(r, d)[j - a.len()]);
            }
        }
    }
}

/// Law: serializing an outline and parsing the result gives back the same
/// shape and texts (the same (depth, text) rows in preorder), multi-line
/// texts included, as long as no block text holds a carriage return or has a
/// later line that reads as a bullet of its own.
pub proof fn law_serialize_then_parse(o: Outline)
    requires
        clean_entries(flat(o@, 0)),
    ensures
        parse_rows(render(flat(o@, 0))) == rows(o@),
{
    lemma_flat_steps(o@, 0);
    lemma_parse_render(flat(o@, 0));
}

proof fn lemma_bullet_no_newline(line: Seq<char>, i: int, ind: nat)
    requires
        !line.contains('\n'),
    ensures
        bullet_from(line, i, ind) matches Some((_, t)) ==> !t.contains('\n'),
    decreases line.len() - i,
{
    if 0 <= i < line.len() {
        if line[i] == ' ' {
            lemma_bullet_no_newline(line, i + 1, ind + 1);
        } else if line[i] == '\t' {
            lemma_bullet_no_newline(line, i + 1, ind + 2);
        } else if i + 1 < line.len() {
            let t = line.subrange(i + 2, line.len() as int);
            assert(!t.contains('\n')) by {
                if t.contains('\n') {
                    let k = choose|k: int| 0 <= k < t.len() && t[k] == '\n';
                    assert(line[i + 2 + k] == '\n');
                }
            }
        }
    }
}

/// No text of the rows has a later line that reads as a bullet.
pub open spec fn rows_clean(rs: Seq<(nat, Seq<char>)>) -> bool {
    forall|j: int| 0 <= j < rs.len() ==> no_bullet_lines(#[trigger] rs[j].1)
}

proof fn lemma_last_nl_split(u: Seq<char>, v: Seq<char>)
    requires
        !v.contains('\n'),
    ensures
        last_nl(u + seq!['\n'] + v) == Some(u.len() as int),
    decreases v.len(),
{
    let t = u + seq!['\n'] + v;
    if v.len() == 0 {
        assert(t.last() == '\n');
    } else {
        assert(!v.drop_last().contains('\n')) by {
            if v.drop_last().contains('\n') {
                let k = choose|k: int| 0 <= k < v.drop_last().len() && v.drop_last()[k] == '\n';
                assert(v[k] == '\n');
            }
        }
        assert(t.last() == v[v.len() - 1]);
        assert(t.drop_last() =~= u + seq!['\n'] + v.drop_last());
        lemma_last_nl_split(u, v.drop_last());
    }
}

proof fn lemma_push_line_clean(acc: Seq<(nat, Seq<char>)>, line: Seq<char>)
    requires
        !line.contains('\n'),
        rows_clean(acc),
    ensures
        rows_clean(push_line(acc, line)),
{
    let r = push_line(acc, line);
    lemma_bullet_no_newline(line, 0, 0);
    match parse_bullet(line) {
        Some(b) => {
            lemma_last_nl(b.1);
            assert forall|j: int| 0 <= j < r.len() implies no_bullet_lines(#[trigger] r[j].1) by {
                if j < acc.len() {
                    assert(r[j] == acc[j]);
                }
            }
        },
        None => {
            if acc.len() > 0 && spaces_prefix(line, acc.last().0 + 2) {
                let n = (acc.last().0 + 2) as int;
                let w = line.skip(n);
                let t = acc.last().1;
                assert(!w.contains('\n')) by {
                    if w.contains('\n') {
                        let q = choose|q: int| 0 <= q < w.len() && w[q] == '\n';
                        assert(line[n + q] == '\n');
                    }
                }
                let p = line.take(n);
                assert(line =~= p + w);
                assert forall|k: int| 0 <= k < p.len() implies #[trigger] p[k] == ' ' by {
                    assert(p[k] == line[k]);
                }
                lemma_bullet_none_pad(p, w, 0, 0);
                let nt = t + seq!['\n'] + w;
                lemma_last_nl_split(t, w);
                assert(nt.skip(t.len() + 1int) =~= w);
                assert(nt.take(t.len() as int) =~= t);
                assert(acc[acc.len() - 1] == acc.last());
                assert(no_bullet_lines(nt));
                assert forall|j: int| 0 <= j < r.len() implies no_bullet_lines(#[trigger] r[j].1) by {
                    if j < acc.len() - 1 {
                        assert(r[j] == acc[j]);
                    }
                }
            }
        },
    }
}

proof fn lemma_scan_clean(s: Seq<char>, cur: Seq<char>, acc: Seq<(nat, Seq<char>)>)
    requires
        !cur.contains('\n'),
        rows_clean(acc),
    ensures
        rows_clean(scan(s, cur, acc)),
    decreases s.len(),
{
    if s.len() == 0 {
        if cur.len() > 0 {
            lemma_push_line_clean(acc, cur);
        }
    } else if s[0] == '\n' {
        let line = strip_cr(cur);
        assert(!line.contains('\n')) by {
            if line.contains('\n') {
                let k = choose|k: int| 0 <= k < line.len() && line[k] == '\n';
                assert(cur[k] == '\n');
            }
        }
        lemma_push_line_clean(acc, line);
        assert(!Seq::<char>::empty().contains('\n'));
        lemma_scan_clean(s.drop_first(), Seq::empty(), push_bullet(acc, cur));
    } else {
        assert(!cur.push(s[0]).contains('\n')) by {
            if cur.push(s[0]).contains('\n') {
                let k = choose|k: int| 0 <= k < cur.push(s[0]).len() && cur.push(s[0])[k] == '\n';
                if k < cur.len() {
                    assert(cur[k] == '\n');
                }
            }
        }
        lemma_scan_clean(s.drop_first(), cur.push(s[0]), acc);
    }
}

/// Law: once text has been through parse and serialize, doing it again
/// changes nothing: serializing the parse of a serialized parse gives the
/// same text, unless a block's text as read holds a carriage return (a last
/// line without a newline keeps its `\r`, which the next read strips).
pub proof fn law_reserialize_is_stable(s: Seq<char>)
    requires
        forall|j: int| 0 <= j < parse_rows(s).len() ==> !(#[trigger] parse_rows(s)[j]).1.contains('\r'),
    ensures
        ({
            let es = numbered(parse_rows(s), 0, parse_rows(s).len() as int, 1);
            let back = parse_rows(render(es));
            render(numbered(back, 0, back.len() as int, 1)) == render(es)
        }),
{
    let rs = parse_rows(s);
    let es = numbered(rs, 0, rs.len() as int, 1);
    assert(!Seq::<char>::empty().contains('\n'));
    lemma_scan_clean(s, Seq::empty(), Seq::empty());
    lemma_depths_steps(bullets(s));
    assert forall|j: int| 0 <= j < es.len() implies #[trigger] clean_text(es[j].text) by {
        assert(es[j].text == rs[j].1);
        assert(rows_clean(bullets(s)));
        assert(rs[j].1 == bullets(s)[j].1);
        assert(no_bullet_lines(bullets(s)[j].1));
    }
    assert(entry_steps(es)) by {
        assert forall|j: int| 0 < j < es.len() implies #[trigger] es[j].depth <= es[j - 1].depth + 1 by {
            assert(rs[j].0 <= rs[j - 1].0 + 1);
        }
    }
    lemma_parse_render(es);
    assert(entry_rows(es) =~= rs);
}

// ---- folding leaves the text alone -------------------------------------------
/// Listings with the same (depth, text) rows serialize alike.
proof fn lemma_render_rows(a: Seq<Entry>, b: Seq<Entry>)
    requires
        entry_rows(a) == entry_rows(b),
    ensures
        render(a) == render(b),
    decreases a.len(),
{
    assert(a.len() == entry_rows(a).len());
    assert(b.len() == entry_rows(b).len());
    if a.len() > 0 {
        assert(entry_rows(a.drop_last()) =~= entry_rows(a).drop_last());
        assert(entry_rows(b.drop_last()) =~= entry_rows(b).drop_last());
        lemma_render_rows(a.drop_last(), b.drop_last());
        assert(entry_rows(a)[a.len() - 1] == entry_rows(b)[a.len() - 1]);
    }
}

proof fn lemma_entry_rows_append(a: Seq<Entry>, b: Seq<Entry>)
    ensures
        entry_rows(a + b) == entry_rows(a) + entry_rows(b),
{
    assert(entry_rows(a + b) =~= entry_rows(a) + entry_rows(b));
}

proof fn lemma_flat_single(n: Node, d: nat)
    ensures
        flat(seq![n], d) == flat_node(n, d),
{
    assert(seq![n].subrange(1, 1) =~= Seq::<Node>::empty());
    assert(flat_node(n, d) + flat(Seq::<Node>::empty(), d) =~= flat_node(n, d));
}

/// Replacing sibling `k` by a node whose listing has the same rows keeps the
/// rows of the whole listing.
proof fn lemma_rows_update(f: Seq<Node>, k: int, n: Node, d: nat)
    requires
        0 <= k < f.len(),
        entry_rows(flat_node(n, d)) == entry_rows(flat_node(f[k], d)),
    ensures
        entry_rows(flat(f.update(k, n), d)) == entry_rows(flat(f, d)),
{
    let a = f.take(k);
    let c = f.skip(k + 1);
    assert(f =~= a + seq![f[k]] + c);
    assert(f.update(k, n) =~= a + seq![n] + c);
    lemma_flat_append(a + seq![f[k]], c, d);
    lemma_flat_append(a, seq![f[k]], d);
    lemma_flat_append(a + seq![n], c, d);
    lemma_flat_append(a, seq![n], d);
    lemma_flat_single(f[k], d);
    lemma_flat_single(n, d);
    lemma_entry_rows_append(flat(a, d) + flat_node(f[k], d), flat(c, d));
    lemma_entry_rows_append(flat(a, d), flat_node(f[k], d));
    lemma_entry_rows_append(flat(a, d) + flat_node(n, d), flat(c, d));
    lemma_entry_rows_append(flat(a, d), flat_node(n, d));
}

/// Replacing the siblings under `pp` by a list with the same rows keeps the
/// rows of the whole listing.
proof fn lemma_rows_replace(f: Seq<Node>, pp: Seq<usize>, ns: Seq<Node>, d: nat)
    requires
        entry_rows(flat(ns, d + pp.len())) == entry_rows(flat(siblings_at(f, pp), d + pp.len())),
    ensures
        entry_rows(flat(replace_siblings(f, pp, ns), d)) == entry_rows(flat(f, d)),
    decreases pp.len(),
{
    if pp.len() > 0 && pp[0] < f.len() {
        let i = pp[0] as int;
        let n = f[i];
        let rest = pp.drop_first();
        assert((d + 1) + rest.len() == d + pp.len());
        lemma_rows_replace(n.children, rest, ns, d + 1);
        let n2 = Node { children: replace_siblings(n.children, rest, ns), ..n };
        let e = seq![Entry { depth: d, id: n.id, text: n.text, collapsed: n.collapsed }];
        assert(flat_node(n2, d) == e + flat(n2.children, d + 1));
        assert(flat_node(n, d) == e + flat(n.children, d + 1));
        lemma_entry_rows_append(e, flat(n2.children, d + 1));
        lemma_entry_rows_append(e, flat(n.children, d + 1));
        lemma_rows_update(f, i, n2, d);
    }
}

/// Law: folding or unfolding a block leaves the serialized outline as it
/// was; the fold state is not written out.
pub proof fn law_toggle_keeps_serialization(f: Seq<Node>, id: u64)
    ensures
        render(flat(toggle_spec(f, id).1, 0)) == render(flat(f, 0)),
{
    if let Some(p) = find_path(f, id) {
        lemma_find_from(f, id, 0);
        let pp = p.drop_last();
        let k = p.last() as int;
        let s = siblings_at(f, pp);
        let n = s[k];
        let n2 = Node { collapsed: !n.collapsed, ..n };
        let dd = (0 + pp.len()) as nat;
        let e = seq![Entry { depth: dd, id: n.id, text: n.text, collapsed: n.collapsed }];
        let e2 = seq![Entry { depth: dd, id: n.id, text: n.text, collapsed: !n.collapsed }];
        assert(flat_node(n, dd) == e + flat(n.children, dd + 1));
        assert(flat_node(n2, dd) == e2 + flat(n.children, dd + 1));
        lemma_entry_rows_append(e, flat(n.children, dd + 1));
        lemma_entry_rows_append(e2, flat(n.children, dd + 1));
        assert(entry_rows(e) =~= entry_rows(e2));
        lemma_rows_update(s, k, n2, dd);
        assert(toggle_in(s, k) == s.update(k, n2));
        lemma_rows_replace(f, pp, toggle_in(s, k), 0);
        lemma_render_rows(flat(toggle_spec(f, id).1, 0), flat(f, 0));
    }
}


/// Law: serializing an outline, reading the text back and serializing
/// again gives the same text, multi-line blocks included, as long as no
/// block text holds a carriage return or has a later line that reads as a
/// bullet of its own.
pub proof fn law_serialize_parse_serialize(o: Outline)
    requires
        clean_entries(flat(o@, 0)),
    ensures
        ({
            let text = render(flat(o@, 0));
            render(numbered(parse_rows(text), 0, parse_rows(text).len() as int, 1)) == text
        }),
{
    let es = flat(o@, 0);
    let rs = parse_rows(render(es));
    law_serialize_then_parse(o);
    let back = numbered(rs, 0, rs.len() as int, 1);
    assert(entry_rows(back) =~= rs);
    assert(rows(o@) =~= entry_rows(es));
    lemma_render_rows(back, es);
}

} // verus!
