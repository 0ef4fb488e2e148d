//! Inline completion for `[[Page]]` links and `#tags`.
//!
//! This is pure: it maps a buffer and a caret offset onto an open completion
//! site, ranks candidate names for it, and knows what text to splice back in
//! when one is accepted. The trigger scanners mirror the page-link and tag
//! patterns, so the popup never offers a completion that would fail to parse
//! as a link or a tag.

use vstd::prelude::*;
use vstd::string::*;
use std::ops::Range;
use crate::text::{
    byte_len, byte_offset, byte_offsets, char_at_byte, char_index_at, chars_of, is_boundary, is_whitespace, str_len,
    is_ws, lemma_byte_offset_mono, string_of, to_lower, lowercase, is_prefix, occurs_in,
    starts_with, contains_str, push_char,
};

verus! {

broadcast use vstd::seq_lib::group_seq_properties;

/// Longest list of existing names the popup shows. The list does not
/// scroll, so it is capped rather than clipped.
pub const MAX_ROWS: usize = 8;

/// What is being completed.
#[derive(Clone, Copy, Debug, PartialEq, Eq, Structural)]
pub enum CompletionKind {
    Page,
    Tag,
}

/// An open completion site in the buffer.
#[derive(Debug, PartialEq, Eq)]
pub struct Trigger {
    pub kind: CompletionKind,
    /// Byte range covering the sigil (`[[` or `#`) through the caret.
    pub range: Range<usize>,
    /// The text typed after the sigil.
    pub query: String,
}

/// The model of a trigger.
pub struct TriggerView {
    pub kind: CompletionKind,
    pub start: int,
    pub end: int,
    pub query: Seq<char>,
}

pub open spec fn trigger_view(t: Trigger) -> TriggerView {
    TriggerView {
        kind: t.kind,
        start: t.range.start as int,
        end: t.range.end as int,
        query: t.query@,
    }
}

pub open spec fn opt_trigger_view(t: Option<Trigger>) -> Option<TriggerView> {
    match t {
        Some(t) => Some(trigger_view(t)),
        None => None,
    }
}

/// The start of the last `[[` that lies within the first `k` characters.
pub open spec fn last_open(s: Seq<char>, k: int) -> Option<int>
    decreases k,
{
    if k < 2 {
        None
    } else if s[k - 2] == '[' && s[k - 1] == '[' {
        Some(k - 2)
    } else {
        last_open(s, k - 1)
    }
}

/// The position of the last `#` within the first `k` characters.
pub open spec fn last_hash(s: Seq<char>, k: int) -> Option<int>
    decreases k,
{
    if k <= 0 {
        None
    } else if s[k - 1] == '#' {
        Some(k - 1)
    } else {
        last_hash(s, k - 1)
    }
}

/// A link name typed so far: nothing that would close or break the link.
pub open spec fn link_query_ok(q: Seq<char>) -> bool {
    forall|i: int| 0 <= i < q.len() ==> #[trigger] q[i] != '[' && q[i] != ']' && q[i] != '\n'
}

/// A character a tag name may hold.
pub open spec fn tag_char(c: char) -> bool {
    ||| 'a' <= c <= 'z'
    ||| 'A' <= c <= 'Z'
    ||| '0' <= c <= '9'
    ||| c == '_'
    ||| c == '-'
    ||| c == '/'
}

/// A character after which a `#` starts a tag.
pub open spec fn tag_sep(c: char) -> bool {
    ||| is_ws(c)
    ||| c == '('
    ||| c == ','
    ||| c == '.'
    ||| c == ':'
    ||| c == ';'
    ||| c == '!'
    ||| c == '?'
    ||| c == '-'
}

/// The page-link site open at byte `caret` of `text`: the last `[[` before
/// the caret, when what follows it up to the caret has no bracket or line
/// break.
pub open spec fn page_trigger_spec(text: Seq<char>, caret: int) -> Option<TriggerView> {
    if !is_boundary(text, caret) {
        None
    } else {
        let k = crate::text::char_at_byte(text, caret);
        match last_open(text, k) {
            None => None,
            Some(j) => {
                let q = text.subrange(j + 2, k);
                if link_query_ok(q) {
                    Some(
                        TriggerView {
                            kind: CompletionKind::Page,
                            start: byte_offset(text, j) as int,
                            end: caret,
                            query: q,
                        },
                    )
                } else {
                    None
                }
            },
        }
    }
}

/// The tag site open at byte `caret` of `text`: the last `#` before the
/// caret, when it starts the text or follows a separator and only tag
/// characters follow it up to the caret.
pub open spec fn tag_trigger_spec(text: Seq<char>, caret: int) -> Option<TriggerView> {
    if !is_boundary(text, caret) {
        None
    } else {
        let k = crate::text::char_at_byte(text, caret);
        match last_hash(text, k) {
            None => None,
            Some(j) => {
                let q = text.subrange(j + 1, k);
                if (forall|i: int| 0 <= i < q.len() ==> tag_char(#[trigger] q[i])) && (j == 0
                    || tag_sep(text[j - 1])) {
                    Some(
                        TriggerView {
                            kind: CompletionKind::Tag,
                            start: byte_offset(text, j) as int,
                            end: caret,
                            query: q,
                        },
                    )
                } else {
                    None
                }
            },
        }
    }
}

/// The completion site open at `caret`: a page link wins over a tag, so a
/// `#` typed inside `[[...` keeps completing the page name.
pub open spec fn trigger_spec(text: Seq<char>, caret: int) -> Option<TriggerView> {
    match page_trigger_spec(text, caret) {
        Some(t) => Some(t),
        None => tag_trigger_spec(text, caret),
    }
}

/// The text and byte offsets `trigger_at` scans.
struct Scan {
    chars: Vec<char>,
    offs: Vec<usize>,
}

impl Scan {
    spec fn wf(&self, text: Seq<char>) -> bool {
        &&& self.chars@ == text
        &&& self.offs.len() == self.chars.len() + 1
        &&& forall|q: int| 0 <= q <= self.chars.len() ==> self.offs@[q] == byte_offset(text, q)
    }

    fn new(text: &str) -> (s: Scan)
        ensures
            s.wf(text@),
    {
        let chars = chars_of(text);
        let total = crate::text::str_len(text);
        let offs = byte_offsets(&chars, total);
        Scan { chars, offs }
    }
}

fn page_trigger(sc: &Scan, text: Ghost<Seq<char>>, caret: usize) -> (r: Option<Trigger>)
    requires
        sc.wf(text@),
    ensures
        opt_trigger_view(r) == page_trigger_spec(text@, caret as int),
{
    let v = &sc.chars;
    let k = match char_index_at(text, &sc.offs, caret) {
        Some(k) => k,
        None => return None,
    };
    proof {
        crate::text::lemma_char_at_byte(text@, caret as int, k as int);
    }
    let mut j = k;
    while j >= 2 && !(v[j - 2] == '[' && v[j - 1] == '[')
        invariant
            j <= k <= v.len(),
            sc.wf(text@),
            v@ == text@,
            last_open(text@, k as int) == last_open(text@, j as int),
        decreases j,
    {
        j -= 1;
    }
    if j < 2 {
        return None;
    }
    let start = j - 2;
    let mut i = j;
    while i < k
        invariant
            j <= i <= k <= v.len(),
            sc.wf(text@),
            v@ == text@,
            j >= 2,
            last_open(text@, k as int) == Some(j - 2),
            is_boundary(text@, caret as int),
            k as int == crate::text::char_at_byte(text@, caret as int),
            forall|q: int| j <= q < i ==> #[trigger] v@[q] != '[' && v@[q] != ']' && v@[q] != '\n',
        decreases k - i,
    {
        if v[i] == '[' || v[i] == ']' || v[i] == '\n' {
            proof {
                let q = text@.subrange(j as int, k as int);
                assert(q[i - j] == v@[i as int]);
            }
            return None;
        }
        i += 1;
    }
    let query = string_of(v, j, k);
    proof {
        let q = text@.subrange(j as int, k as int);
        assert forall|x: int| 0 <= x < q.len() implies #[trigger] q[x] != '[' && q[x] != ']' && q[x]
            != '\n' by {
            assert(q[x] == v@[j + x]);
        }
    }
    Some(Trigger { kind: CompletionKind::Page, range: Range { start: sc.offs[start], end: caret }, query })
}

fn is_tag_char(c: char) -> (r: bool)
    ensures
        r == tag_char(c),
{
    ('a' <= c && c <= 'z') || ('A' <= c && c <= 'Z') || ('0' <= c && c <= '9') || c == '_' || c
        == '-' || c == '/'
}

fn is_tag_sep(c: char) -> (r: bool)
    ensures
        r == tag_sep(c),
{
    is_whitespace(c) || c == '(' || c == ',' || c == '.' || c == ':' || c == ';' || c == '!' || c
        == '?' || c == '-'
}

fn tag_trigger(sc: &Scan, text: Ghost<Seq<char>>, caret: usize) -> (r: Option<Trigger>)
    requires
        sc.wf(text@),
    ensures
        opt_trigger_view(r) == tag_trigger_spec(text@, caret as int),
{
    let v = &sc.chars;
    let k = match char_index_at(text, &sc.offs, caret) {
        Some(k) => k,
        None => return None,
    };
    proof {
        crate::text::lemma_char_at_byte(text@, caret as int, k as int);
    }
    let mut j = k;
    while j >= 1 && v[j - 1] != '#'
        invariant
            j <= k <= v.len(),
            sc.wf(text@),
            v@ == text@,
            last_hash(text@, k as int) == last_hash(text@, j as int),
        decreases j,
    {
        j -= 1;
    }
    if j < 1 {
        return None;
    }
    let start = j - 1;
    let ghost q = text@.subrange(j as int, k as int);
    let mut i = j;
    while i < k
        invariant
            j <= i <= k <= v.len(),
            sc.wf(text@),
            v@ == text@,
            j >= 1,
            last_hash(text@, k as int) == Some(j - 1),
            is_boundary(text@, caret as int),
            k as int == crate::text::char_at_byte(text@, caret as int),
            q == text@.subrange(j as int, k as int),
            forall|x: int| j <= x < i ==> tag_char(#[trigger] v@[x]),
        decreases k - i,
    {
        if !is_tag_char(v[i]) {
            proof {
                assert(q[i - j] == v@[i as int]);
            }
            return None;
        }
        i += 1;
    }
    assert forall|x: int| 0 <= x < q.len() implies tag_char(#[trigger] q[x]) by {
        assert(q[x] == v@[j + x]);
    }
    if start > 0 && !is_tag_sep(v[start - 1]) {
        return None;
    }
    let query = string_of(v, j, k);
    Some(Trigger { kind: CompletionKind::Tag, range: Range { start: sc.offs[start], end: caret }, query })
}

/// Scans backwards from byte `caret` for an open completion sigil. A page
/// link wins over a tag when both match.
pub fn trigger_at(text: &str, caret: usize) -> (r: Option<Trigger>)
    ensures
        opt_trigger_view(r) == trigger_spec(text@, caret as int),
{
    let sc = Scan::new(text);
    match page_trigger(&sc, Ghost(text@), caret) {
        Some(t) => Some(t),
        None => tag_trigger(&sc, Ghost(text@), caret),
    }
}


// ---------------------------------------------------------------------------
// Candidates.

/// One row of the popup.
#[derive(Debug, PartialEq, Eq)]
pub enum Candidate {
    /// A name that already exists in the index.
    Existing(String),
    /// The literal query, offered so a link can point at a page or tag that
    /// does not exist yet.
    New(String),
}

/// The model of a row.
pub enum Row {
    Existing(Seq<char>),
    New(Seq<char>),
}

pub open spec fn row_view(c: Candidate) -> Row {
    match c {
        Candidate::Existing(n) => Row::Existing(n@),
        Candidate::New(n) => Row::New(n@),
    }
}

pub open spec fn rows_view(v: Seq<Candidate>) -> Seq<Row> {
    v.map_values(|c: Candidate| row_view(c))
}

/// The names whose lower-case form starts with `needle`, in order.
pub open spec fn prefix_matches(needle: Seq<char>, names: Seq<Seq<char>>) -> Seq<Seq<char>>
    decreases names.len(),
{
    if names.len() == 0 {
        Seq::empty()
    } else {
        let r = prefix_matches(needle, names.drop_last());
        if is_prefix(needle, lowercase(names.last())) {
            r.push(names.last())
        } else {
            r
        }
    }
}

/// The names whose lower-case form holds `needle` other than at its start,
/// in order.
pub open spec fn inner_matches(needle: Seq<char>, names: Seq<Seq<char>>) -> Seq<Seq<char>>
    decreases names.len(),
{
    if names.len() == 0 {
        Seq::empty()
    } else {
        let r = inner_matches(needle, names.drop_last());
        if !is_prefix(needle, lowercase(names.last())) && occurs_in(needle, lowercase(names.last())) {
            r.push(names.last())
        } else {
            r
        }
    }
}

/// The rows for `query`: names that match it at the start, then names that
/// hold it elsewhere, both ignoring case and at most `MAX_ROWS` in all; then
/// a `New` row when the query is not empty and no name equals it ignoring
/// case.
pub open spec fn candidates_spec(query: Seq<char>, names: Seq<Seq<char>>) -> Seq<Row> {
    let needle = lowercase(query);
    let found = prefix_matches(needle, names) + inner_matches(needle, names);
    let shown = if found.len() > MAX_ROWS {
        found.take(MAX_ROWS as int)
    } else {
        found
    };
    let rows = shown.map_values(|n: Seq<char>| Row::Existing(n));
    let listed = exists|i: int| 0 <= i < names.len() && lowercase(#[trigger] names[i]) == needle;
    if query.len() > 0 && !listed {
        rows.push(Row::New(query))
    } else {
        rows
    }
}

pub open spec fn names_of(v: Seq<String>) -> Seq<Seq<char>> {
    v.map_values(|s: String| s@)
}

/// The rows for `query` among `names`: prefix matches first, then substring
/// matches, both case-insensitive and capped at `MAX_ROWS` in all; a `New`
/// row is appended when the query is not empty and no name already equals it.
pub fn candidates(query: &str, names: &[String]) -> (r: Vec<Candidate>)
    ensures
        rows_view(r@) == candidates_spec(query@, names_of(names@)),
{
    let ghost ns = names_of(names@);
    let needle = to_lower(query);
    let mut prefixed: Vec<String> = Vec::new();
    let mut contained: Vec<String> = Vec::new();
    let mut listed = false;
    let mut i: usize = 0;
    while i < names.len()
        invariant
            i <= names.len(),
            ns == names_of(names@),
            needle@ == lowercase(query@),
            names_of(prefixed@) == prefix_matches(needle@, ns.take(i as int)),
            names_of(contained@) == inner_matches(needle@, ns.take(i as int)),
            listed == exists|j: int| 0 <= j < i && lowercase(#[trigger] ns[j]) == needle@,
        decreases names.len() - i,
    {
        assert(ns.take(i + 1).drop_last() =~= ns.take(i as int));
        assert(ns.take(i + 1).last() == names@[i as int]@);
        let hay = to_lower(names[i].as_str());
        let ghost p0 = prefixed@;
        let ghost c0 = contained@;
        if starts_with(hay.as_str(), needle.as_str()) {
            prefixed.push(names[i].clone());
            assert(names_of(prefixed@) =~= names_of(p0).push(names@[i as int]@));
        } else if contains_str(hay.as_str(), needle.as_str()) {
            contained.push(names[i].clone());
            assert(names_of(contained@) =~= names_of(c0).push(names@[i as int]@));
        }
        if hay == needle {
            listed = true;
        }
        assert(listed == exists|j: int| 0 <= j < i + 1 && lowercase(#[trigger] ns[j]) == needle@) by {
            if hay@ == needle@ {
                assert(lowercase(ns[i as int]) == needle@);
            }
        }
        i += 1;
    }
    assert(ns.take(names.len() as int) =~= ns);
    let ghost found = names_of(prefixed@) + names_of(contained@);
    let ghost shown = if found.len() > MAX_ROWS {
        found.take(MAX_ROWS as int)
    } else {
        found
    };
    let mut rows: Vec<Candidate> = Vec::new();
    let mut k: usize = 0;
    while k < prefixed.len() && rows.len() < MAX_ROWS
        invariant
            k <= prefixed.len(),
            rows.len() == k,
            k <= MAX_ROWS,
            forall|q: int| 0 <= q < k ==> rows_view(rows@)[q] == Row::Existing(#[trigger] names_of(prefixed@)[q]),
        decreases prefixed.len() - k,
    {
        rows.push(Candidate::Existing(prefixed[k].clone()));
        k += 1;
    }
    let mut m: usize = 0;
    while m < contained.len() && rows.len() < MAX_ROWS
        invariant
            k <= prefixed.len(),
            m <= contained.len(),
            rows.len() == k + m,
            k + m <= MAX_ROWS,
            m > 0 ==> k == prefixed.len(),
            k < prefixed.len() ==> k == MAX_ROWS,
            forall|q: int| 0 <= q < k ==> rows_view(rows@)[q] == Row::Existing(#[trigger] names_of(prefixed@)[q]),
            forall|q: int| 0 <= q < m ==> rows_view(rows@)[k + q] == Row::Existing(#[trigger] names_of(contained@)[q]),
        decreases contained.len() - m,
    {
        rows.push(Candidate::Existing(contained[m].clone()));
        m += 1;
    }
    proof {
        let sv = shown.map_values(|n: Seq<char>| Row::Existing(n));
        assert(rows_view(rows@) =~= sv) by {
            assert(rows_view(rows@).len() == sv.len());
            assert forall|q: int| 0 <= q < sv.len() implies rows_view(rows@)[q] == sv[q] by {
                if q < k {
                    assert(found[q] == names_of(prefixed@)[q]);
                } else {
                    assert(found[q] == names_of(contained@)[q - k]);
                    assert(rows_view(rows@)[k + (q - k)] == Row::Existing(names_of(contained@)[q - k]));
                }
            }
        }
    }
    if !query.is_empty() && !listed {
        let ghost r0 = rows@;
        rows.push(Candidate::New(query.to_owned()));
        assert(rows_view(rows@) =~= rows_view(r0).push(Row::New(query@)));
    }
    rows
}

/// An open popup: which site in the buffer it completes, its rows, and the
/// highlighted row.
#[derive(Debug, PartialEq, Eq)]
pub struct CompletionState {
    pub kind: CompletionKind,
    pub range: Range<usize>,
    pub candidates: Vec<Candidate>,
    pub selected: usize,
}

/// The text spliced in for `name`: `[[name]]` for a page, `#name` for a tag.
pub open spec fn insertion_spec(kind: CompletionKind, name: Seq<char>) -> Seq<char> {
    match kind {
        CompletionKind::Page => seq!['[', '['] + name + seq![']', ']'],
        CompletionKind::Tag => seq!['#'] + name,
    }
}

/// The popup label of a row.
pub open spec fn label_spec(kind: CompletionKind, row: Row) -> Seq<char> {
    match row {
        Row::Existing(n) => n,
        Row::New(n) => match kind {
            CompletionKind::Page => "New page: "@ + n,
            CompletionKind::Tag => "New tag: "@ + n,
        },
    }
}

fn row_name(c: &Candidate) -> (r: &String)
    ensures
        row_view(*c) == Row::Existing(r@) || row_view(*c) == Row::New(r@),
        row_view(*c) is Existing ==> row_view(*c) == Row::Existing(r@),
        row_view(*c) is New ==> row_view(*c) == Row::New(r@),
{
    match c {
        Candidate::Existing(n) => n,
        Candidate::New(n) => n,
    }
}

/// The name a row stands for.
pub open spec fn row_name_spec(r: Row) -> Seq<char> {
    match r {
        Row::Existing(n) => n,
        Row::New(n) => n,
    }
}

/// The row above `sel` among `len` rows, the last one above the first
/// (nowhere to go without rows).
pub open spec fn row_above(sel: int, len: int) -> int {
    if len == 0 {
        sel
    } else if sel == 0 {
        len - 1
    } else {
        sel - 1
    }
}

/// The row below `sel` among `len` rows, the first one below the last.
pub open spec fn row_below(sel: int, len: int) -> int {
    if len == 0 {
        sel
    } else {
        (sel + 1) % len
    }
}

/// Law: among rows, moving down and then up, or up and then down, comes
/// back to the same row.
pub proof fn law_up_down_return(sel: int, len: int)
    requires
        0 <= sel < len,
    ensures
        row_above(row_below(sel, len), len) == sel,
        row_below(row_above(sel, len), len) == sel,
{
    if sel + 1 < len {
        assert((sel + 1) % len == sel + 1) by (nonlinear_arith)
            requires
                0 <= sel + 1 < len,
        ;
    } else {
        assert((sel + 1) % len == 0) by (nonlinear_arith)
            requires
                sel + 1 == len,
                len > 0,
        ;
    }
    if sel == 0 {
        assert((len - 1 + 1) % len == 0) by (nonlinear_arith)
            requires
                len > 0,
        ;
    } else {
        assert((sel - 1 + 1) % len == sel) by (nonlinear_arith)
            requires
                0 < sel < len,
        ;
    }
}

proof fn lemma_prefix_matches_in(needle: Seq<char>, names: Seq<Seq<char>>)
    ensures
        forall|x: Seq<char>| #[trigger] prefix_matches(needle, names).contains(x) ==> names.contains(x)
            && is_prefix(needle, lowercase(x)),
    decreases names.len(),
{
    if names.len() > 0 {
        let d = names.drop_last();
        lemma_prefix_matches_in(needle, d);
        let r = prefix_matches(needle, d);
        assert forall|x: Seq<char>| #[trigger] prefix_matches(needle, names).contains(x) implies names.contains(x)
            && is_prefix(needle, lowercase(x)) by {
            let f = prefix_matches(needle, names);
            let i = choose|i: int| 0 <= i < f.len() && f[i] == x;
            if i < r.len() {
                assert(r[i] == x);
                assert(r.contains(x));
                let j = choose|j: int| 0 <= j < d.len() && d[j] == x;
                assert(names[j] == x);
            } else {
                assert(x == names.last());
                assert(names[names.len() - 1] == x);
            }
        }
    }
}

proof fn lemma_inner_matches_in(needle: Seq<char>, names: Seq<Seq<char>>)
    ensures
        forall|x: Seq<char>| #[trigger] inner_matches(needle, names).contains(x) ==> names.contains(x)
            && occurs_in(needle, lowercase(x)),
    decreases names.len(),
{
    if names.len() > 0 {
        let d = names.drop_last();
        lemma_inner_matches_in(needle, d);
        let r = inner_matches(needle, d);
        assert forall|x: Seq<char>| #[trigger] inner_matches(needle, names).contains(x) implies names.contains(x)
            && occurs_in(needle, lowercase(x)) by {
            let f = inner_matches(needle, names);
            let i = choose|i: int| 0 <= i < f.len() && f[i] == x;
            if i < r.len() {
                assert(r[i] == x);
                assert(r.contains(x));
                let j = choose|j: int| 0 <= j < d.len() && d[j] == x;
                assert(names[j] == x);
            } else {
                assert(x == names.last());
                assert(names[names.len() - 1] == x);
            }
        }
    }
}

/// Law: the popup never offers more than eight existing names, prefix and
/// substring matches together; a `New` row can only come last, so there is
/// at most one; and every existing name offered is one of `names` whose
/// lower-case form holds the lower-cased query.
pub proof fn law_candidate_rows(query: Seq<char>, names: Seq<Seq<char>>)
    ensures
        ({
            let r = candidates_spec(query, names);
            &&& r.len() <= 9
            &&& forall|i: int| 0 <= i < r.len() && #[trigger] r[i] is Existing ==> i < 8
            &&& forall|i: int| 0 <= i < r.len() && #[trigger] r[i] is New ==> i == r.len() - 1
            &&& forall|i: int| 0 <= i < r.len() ==> match #[trigger] r[i] {
                Row::Existing(n) => names.contains(n) && occurs_in(lowercase(query), lowercase(n)),
                Row::New(n) => n == query,
            }
        }),
{
    let needle = lowercase(query);
    let pm = prefix_matches(needle, names);
    let im = inner_matches(needle, names);
    let found = pm + im;
    let shown = if found.len() > MAX_ROWS {
        found.take(MAX_ROWS as int)
    } else {
        found
    };
    let rows = shown.map_values(|n: Seq<char>| Row::Existing(n));
    let r = candidates_spec(query, names);
    lemma_prefix_matches_in(needle, names);
    lemma_inner_matches_in(needle, names);
    assert(shown.len() <= 8);
    assert forall|i: int| 0 <= i < r.len() implies match #[trigger] r[i] {
        Row::Existing(n) => names.contains(n) && occurs_in(lowercase(query), lowercase(n)),
        Row::New(n) => n == query,
    } && (r[i] is Existing ==> i < 8) && (r[i] is New ==> i == r.len() - 1) by {
        if i < shown.len() {
            assert(r[i] == rows[i]);
            let x = shown[i];
            assert(x == found[i]);
            if i < pm.len() {
                assert(pm[i] == x);
                assert(pm.contains(x));
                let lx = lowercase(x);
                assert(is_prefix(needle, lx));
                assert(lx.subrange(0int, 0int + needle.len()) =~= lx.take(needle.len() as int));
                assert(lx.subrange(0int, 0int + needle.len()) == needle);
                assert(occurs_in(needle, lx));
            } else {
                assert(im[i - pm.len()] == x);
                assert(im.contains(x));
            }
        }
    }
}

/// An ASCII letter or digit, `_`, `-` or `/`: what a tag name is made of.
pub open spec fn tag_name_char(c: char) -> bool {
    ('a' <= c && c <= 'z') || ('A' <= c && c <= 'Z') || ('0' <= c && c <= '9') || c == '_' || c == '-'
        || c == '/'
}

/// White space or punctuation after which a `#` starts a tag.
pub open spec fn before_tag(c: char) -> bool {
    c == ' ' || c == '\t' || c == '\n' || c == '(' || c == ',' || c == '.' || c == ':' || c == ';'
        || c == '!' || c == '?' || c == '-'
}

proof fn lemma_no_open(s: Seq<char>, k: int)
    requires
        0 <= k <= s.len(),
        !s.contains('['),
    ensures
        last_open(s, k) is None,
    decreases k,
{
    if k >= 2 {
        assert(s[k - 2] != '[');
        lemma_no_open(s, k - 1);
    }
}

proof fn lemma_last_hash_at(s: Seq<char>, k: int, j: int)
    requires
        0 <= j < k <= s.len(),
        s[j] == '#',
        forall|i: int| j < i < k ==> #[trigger] s[i] != '#',
    ensures
        last_hash(s, k) == Some(j),
    decreases k,
{
    if k - 1 != j {
        lemma_last_hash_at(s, k - 1, j);
    }
}

/// Law: a `#` at the start of the text or after white space or punctuation,
/// followed up to the caret only by ASCII letters, digits, `_`, `-` and `/`,
/// opens a tag completion from the `#` to the caret whose query is exactly
/// those characters (when no `[[` is open before it).
pub proof fn law_tag_trigger_opens(pre: Seq<char>, q: Seq<char>)
    requires
        pre.len() == 0 || before_tag(pre.last()),
        !pre.contains('['),
        forall|i: int| 0 <= i < q.len() ==> tag_name_char(#[trigger] q[i]),
    ensures
        ({
            let text = pre + seq!['#'] + q;
            trigger_spec(text, byte_len(text) as int) == Some(
                TriggerView { kind: CompletionKind::Tag, start: byte_len(pre) as int, end: byte_len(text) as int, query: q },
            )
        }),
{
    let text = pre + seq!['#'] + q;
    let n = text.len() as int;
    let j = pre.len() as int;
    assert(text.take(n) =~= text);
    crate::text::lemma_char_at_byte(text, byte_len(text) as int, n);
    assert(!text.contains('[')) by {
        if text.contains('[') {
            let i = choose|i: int| 0 <= i < text.len() && text[i] == '[';
            if i < j {
                assert(pre[i] == '[');
            } else if i > j {
                assert(q[i - j - 1] == '[');
            }
        }
    }
    lemma_no_open(text, n);
    assert forall|i: int| j < i < n implies #[trigger] text[i] != '#' by {
        assert(text[i] == q[i - j - 1]);
    }
    lemma_last_hash_at(text, n, j);
    assert(text.subrange(j + 1, n) =~= q);
    assert(text.take(j) =~= pre);
    if j > 0 {
        assert(text[j - 1] == pre.last());
    }
    assert(forall|i: int| 0 <= i < q.len() ==> tag_char(#[trigger] q[i]));
}

proof fn lemma_last_open_at(s: Seq<char>, k: int, j: int)
    requires
        0 <= j,
        j + 2 <= k <= s.len(),
        s[j] == '[',
        s[j + 1] == '[',
        forall|i: int| j + 2 <= i < k ==> #[trigger] s[i] != '[',
    ensures
        last_open(s, k) == Some(j),
    decreases k,
{
    if k - 2 != j {
        lemma_last_open_at(s, k - 1, j);
    }
}

/// Law: `[[` followed up to the caret by text with no bracket and no line
/// break opens a page-link completion from the `[[` to the caret whose query
/// is exactly that text, whatever comes before the `[[`.
pub proof fn law_page_trigger_opens(pre: Seq<char>, q: Seq<char>)
    requires
        forall|i: int| 0 <= i < q.len() ==> #[trigger] q[i] != '[' && q[i] != ']' && q[i] != '\n',
    ensures
        ({
            let text = pre + seq!['[', '['] + q;
            trigger_spec(text, byte_len(text) as int) == Some(
                TriggerView { kind: CompletionKind::Page, start: byte_len(pre) as int, end: byte_len(text) as int, query: q },
            )
        }),
{
    let text = pre + seq!['[', '['] + q;
    let n = text.len() as int;
    let j = pre.len() as int;
    assert(text.take(n) =~= text);
    crate::text::lemma_char_at_byte(text, byte_len(text) as int, n);
    assert forall|i: int| j + 2 <= i < n implies #[trigger] text[i] != '[' by {
        assert(text[i] == q[i - j - 2]);
    }
    lemma_last_open_at(text, n, j);
    assert(text.subrange(j + 2, n) =~= q);
    assert(text.take(j) =~= pre);
}

/// `]]` starts at character `k` of `s`.
pub open spec fn closes_at(s: Seq<char>, k: int) -> bool {
    k + 2 <= s.len() && s[k] == ']' && s[k + 1] == ']'
}

impl CompletionState {
    /// The state for `trigger`, or `None` when there is nothing to offer (an
    /// empty query with no matching names).
    pub fn new(trigger: &Trigger, names: &[String]) -> (r: Option<CompletionState>)
        ensures
            candidates_spec(trigger.query@, names_of(names@)).len() == 0 ==> r is None,
            candidates_spec(trigger.query@, names_of(names@)).len() > 0 ==> (r matches Some(s) && s.kind
                == trigger.kind && s.range == trigger.range && rows_view(s.candidates@)
                == candidates_spec(trigger.query@, names_of(names@)) && s.selected == 0),
    {
        let candidates = candidates(trigger.query.as_str(), names);
        if candidates.len() == 0 {
            None
        } else {
            Some(
                CompletionState {
                    kind: trigger.kind,
                    range: Range { start: trigger.range.start, end: trigger.range.end },
                    candidates,
                    selected: 0,
                },
            )
        }
    }

    /// A refresh that lands on the same site keeps the highlighted row (as
    /// far as the rows reach), so the popup does not jump back to the top.
    pub fn keep_highlight(&mut self, previous_start: usize, previous_end: usize, previous_selected: usize)
        requires
            old(self).candidates.len() > 0,
        ensures
            final(self).kind == old(self).kind,
            final(self).range == old(self).range,
            final(self).candidates == old(self).candidates,
            final(self).selected == (if old(self).range.start == previous_start && old(self).range.end == previous_end {
                if previous_selected < old(self).candidates.len() {
                    previous_selected as int
                } else {
                    old(self).candidates.len() - 1
                }
            } else {
                old(self).selected as int
            }),
    {
        if self.range.start == previous_start && self.range.end == previous_end {
            let last = self.candidates.len() - 1;
            self.selected = if previous_selected < last { previous_selected } else { last };
        }
    }

    /// Moves the highlight up one row, wrapping from the first to the last.
    pub fn select_up(&mut self)
        ensures
            final(self).kind == old(self).kind,
            final(self).range == old(self).range,
            final(self).candidates == old(self).candidates,
            final(self).selected == row_above(old(self).selected as int, old(self).candidates.len() as int),
    {
        if self.candidates.len() == 0 {
            return;
        }
        self.selected = if self.selected == 0 {
            self.candidates.len() - 1
        } else {
            self.selected - 1
        };
    }

    /// Moves the highlight down one row, wrapping from the last to the first.
    pub fn select_down(&mut self)
        ensures
            final(self).kind == old(self).kind,
            final(self).range == old(self).range,
            final(self).candidates == old(self).candidates,
            final(self).selected == row_below(old(self).selected as int, old(self).candidates.len() as int),
    {
        let n = self.candidates.len();
        if n == 0 {
            return;
        }
        let s = self.selected % n;
        self.selected = if s + 1 == n {
            0
        } else {
            s + 1
        };
        proof {
            let sel = old(self).selected as int;
            let ni = n as int;
            vstd::arithmetic::div_mod::lemma_add_mod_noop(sel, 1, ni);
            vstd::arithmetic::div_mod::lemma_mod_bound(sel, ni);
            if n == 1 {
                assert(1int % 1int == 0) by (nonlinear_arith);
                assert(sel % 1 == 0) by (nonlinear_arith);
                assert((0int + 0int) % 1int == 0) by (nonlinear_arith);
            } else {
                vstd::arithmetic::div_mod::lemma_small_mod(1, n as nat);
                if s + 1 < n {
                    vstd::arithmetic::div_mod::lemma_small_mod((s + 1) as nat, n as nat);
                } else {
                    vstd::arithmetic::div_mod::lemma_mod_self_0(ni);
                }
            }
        }
    }

    /// The text to splice over `range` for the highlighted row.
    pub fn insertion(&self) -> (r: Option<String>)
        ensures
            self.selected < self.candidates.len() ==> (r matches Some(t) && t@ == insertion_spec(
                self.kind,
                row_name_spec(row_view(self.candidates@[self.selected as int])),
            )),
            self.selected >= self.candidates.len() ==> r is None,
    {
        if self.selected >= self.candidates.len() {
            return None;
        }
        let name = row_name(&self.candidates[self.selected]);
        match self.kind {
            CompletionKind::Page => {
                let mut out = "[[".to_owned();
                out.append(name.as_str());
                out.append("]]");
                proof {
                    reveal_strlit("[[");
                    reveal_strlit("]]");
                }
                Some(out)
            },
            CompletionKind::Tag => {
                let mut out = "#".to_owned();
                out.append(name.as_str());
                proof {
                    reveal_strlit("#");
                }
                Some(out)
            },
        }
    }

    /// Accepting the highlighted row: the byte range to replace and the text
    /// to put there. For a page link an auto-paired `]]` right after the
    /// site is swallowed too, so accepting yields `[[Name]]` rather than
    /// `[[Name]]]]`. Nothing when no row is highlighted.
    pub fn splice(&self, content: &str) -> (r: Option<(Range<usize>, String)>)
        requires
            is_boundary(content@, self.range.end as int),
        ensures
            self.selected >= self.candidates.len() ==> r is None,
            self.selected < self.candidates.len() ==> (r matches Some((rg, t)) && t@ == insertion_spec(
                self.kind,
                row_name_spec(row_view(self.candidates@[self.selected as int])),
            ) && rg.start == self.range.start && rg.end == self.range.end + (if self.kind == CompletionKind::Page
                && closes_at(content@, char_at_byte(content@, self.range.end as int)) {
                2int
            } else {
                0int
            })),
    {
        let insertion = match self.insertion() {
            Some(t) => t,
            None => {
                return None;
            },
        };
        let cs = chars_of(content);
        let total = str_len(content);
        let offs = byte_offsets(&cs, total);
        let k = match char_index_at(Ghost(content@), &offs, self.range.end) {
            Some(k) => k,
            None => {
                return None;
            },
        };
        proof {
            crate::text::lemma_char_at_byte(content@, self.range.end as int, k as int);
        }
        let closes = cs.len() - k >= 2 && cs[k] == ']' && cs[k + 1] == ']';
        let end = match self.kind {
            CompletionKind::Page => if closes {
                proof {
                    crate::text::lemma_byte_offset_step(content@, k as int);
                    crate::text::lemma_byte_offset_step(content@, k + 1);
                    lemma_byte_offset_mono(content@, k + 2, content@.len() as int);
                }
                assert(offs@[k + 2] == self.range.end + 2);
                offs[k + 2]
            } else {
                self.range.end
            },
            CompletionKind::Tag => self.range.end,
        };
        Some((Range { start: self.range.start, end }, insertion))
    }

    /// The label of row `index`, as the popup shows it.
    pub fn label(&self, index: usize) -> (r: Option<String>)
        ensures
            index < self.candidates.len() ==> (r matches Some(t) && t@ == label_spec(
                self.kind,
                row_view(self.candidates@[index as int]),
            )),
            index >= self.candidates.len() ==> r is None,
    {
        if index >= self.candidates.len() {
            return None;
        }
        match &self.candidates[index] {
            Candidate::Existing(name) => Some(name.clone()),
            Candidate::New(name) => {
                let mut out = match self.kind {
                    CompletionKind::Page => "New page: ".to_owned(),
                    CompletionKind::Tag => "New tag: ".to_owned(),
                };
                out.append(name.as_str());
                Some(out)
            },
        }
    }
}

} // verus!
