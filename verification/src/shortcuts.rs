//! Keyboard shortcuts: the platform's primary modifier, and the order in
//! which the shortcuts active at the focused element are listed.

use vstd::prelude::*;

verus! {

broadcast use vstd::seq_lib::group_seq_properties;

/// The primary modifier for key bindings: `cmd` on macOS, `ctrl` elsewhere.
pub fn cmd_key(macos: bool) -> (r: &'static str)
    ensures
        macos ==> r@ == "cmd"@,
        !macos ==> r@ == "ctrl"@,
{
    if macos {
        "cmd"
    } else {
        "ctrl"
    }
}

/// One active, unshadowed binding at the focused element.
#[derive(Clone, Debug, PartialEq, Eq)]
pub struct ShortcutHint {
    /// Platform-formatted key sequence, such as `ctrl-s` or `cmd-s`.
    pub keystroke: String,
    /// The registered action name, such as `gpui_notes::SavePage`.
    pub action_name: String,
    /// How deep in the focused context stack the binding's context matched.
    pub context_depth: usize,
    /// When the binding was registered.
    pub registration_order: usize,
}

/// What orders a hint: how deep its context is, and when it was registered.
pub struct HintKey {
    pub depth: nat,
    pub order: nat,
}

pub open spec fn hint_key(h: ShortcutHint) -> HintKey {
    HintKey { depth: h.context_depth as nat, order: h.registration_order as nat }
}

/// `a` is listed strictly before `b`: deeper context first, then earlier
/// registration.
pub open spec fn hint_before(a: HintKey, b: HintKey) -> bool {
    a.depth > b.depth || (a.depth == b.depth && a.order < b.order)
}

/// Inserts `h` into the ordered `s`, after every entry it does not precede.
pub open spec fn insert_hint(s: Seq<HintKey>, h: HintKey) -> Seq<HintKey>
    decreases s.len(),
{
    if s.len() == 0 {
        seq![h]
    } else if hint_before(h, s.last()) {
        insert_hint(s.drop_last(), h).push(s.last())
    } else {
        s.push(h)
    }
}

/// The stable order of `s`: deeper context first, then earlier registration.
pub open spec fn order_spec(s: Seq<HintKey>) -> Seq<HintKey>
    decreases s.len(),
{
    if s.len() == 0 {
        Seq::empty()
    } else {
        insert_hint(order_spec(s.drop_last()), s.last())
    }
}

pub open spec fn hint_keys(v: Seq<ShortcutHint>) -> Seq<HintKey> {
    v.map_values(|h: ShortcutHint| hint_key(h))
}

impl ShortcutHint {
    pub fn new(keystroke: String, action_name: String, context_depth: usize, registration_order: usize) -> (h: ShortcutHint)
        ensures
            h.keystroke == keystroke,
            h.action_name == action_name,
            hint_key(h) == (HintKey { depth: context_depth as nat, order: registration_order as nat }),
    {
        ShortcutHint { keystroke, action_name, context_depth, registration_order }
    }
}

proof fn lemma_insert_hint_at(s: Seq<HintKey>, h: HintKey, p: int)
    requires
        0 <= p <= s.len(),
        forall|q: int| p <= q < s.len() ==> hint_before(h, #[trigger] s[q]),
        p == 0 || !hint_before(h, s[p - 1]),
    ensures
        insert_hint(s, h) == s.take(p).push(h) + s.skip(p),
    decreases s.len(),
{
    if s.len() == 0 {
        assert(s.take(p).push(h) + s.skip(p) =~= seq![h]);
    } else if hint_before(h, s.last()) {
        lemma_insert_hint_at(s.drop_last(), h, p);
        assert(s.drop_last().take(p) == s.take(p));
        assert(s.take(p).push(h) + s.skip(p) =~= (s.take(p).push(h) + s.drop_last().skip(p)).push(
            s.last(),
        ));
    } else {
        assert(p == s.len());
        assert(s.take(p).push(h) + s.skip(p) =~= s.push(h));
    }
}

/// Lists hints with the deepest context first, then in registration order;
/// ties keep their order.
pub fn order_hints(hints: Vec<ShortcutHint>) -> (r: Vec<ShortcutHint>)
    ensures
        hint_keys(r@) == order_spec(hint_keys(hints@)),
        r@.to_multiset() == hints@.to_multiset(),
{
    let ghost orig = hint_keys(hints@);
    let ghost all = hints@;
    let mut rest = hints;
    let mut out: Vec<ShortcutHint> = Vec::new();
    let ghost mut i: int = 0;
    assert(orig.take(0) =~= Seq::<HintKey>::empty());
    proof {
        assert(all.take(0) =~= Seq::<ShortcutHint>::empty());
        assert(all.skip(0) =~= all);
    }
    while rest.len() > 0
        invariant
            0 <= i <= orig.len(),
            orig == hint_keys(all),
            rest@ == all.skip(i),
            hint_keys(out@) == order_spec(orig.take(i)),
            out@.to_multiset() == all.take(i).to_multiset(),
        decreases rest.len(),
    {
        let ghost r0 = rest@;
        assert(r0[0] == all[i]);
        let x = rest.remove(0);
        assert(rest@ =~= all.skip(i + 1));
        let mut p = out.len();
        while p > 0 && (x.context_depth > out[p - 1].context_depth || (x.context_depth == out[p
            - 1].context_depth && x.registration_order < out[p - 1].registration_order))
            invariant
                p <= out.len(),
                forall|q: int| p <= q < out.len() ==> hint_before(hint_key(x), #[trigger] hint_keys(out@)[q]),
            decreases p,
        {
            p -= 1;
        }
        proof {
            lemma_insert_hint_at(hint_keys(out@), hint_key(x), p as int);
            assert(orig.take(i + 1).drop_last() =~= orig.take(i));
            assert(orig.take(i + 1).last() == hint_key(x));
        }
        let ghost before = out@;
        out.insert(p, x);
        proof {
            assert(hint_keys(out@) =~= hint_keys(before).take(p as int).push(hint_key(x))
                + hint_keys(before).skip(p as int));
            assert(all.take(i + 1) =~= all.take(i).push(x));
            assert(out@ =~= before.insert(p as int, x));
            vstd::seq_lib::to_multiset_insert(before, p as int, x);
            vstd::seq_lib::to_multiset_build(all.take(i), x);
            i = i + 1;
        }
    }
    assert(orig.take(i) =~= orig);
    assert(all.take(i) =~= all);
    out
}

} // verus!
