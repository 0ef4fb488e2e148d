//! Character-level helpers for working with `str` and `String` contents.

use vstd::prelude::*;

verus! {

broadcast use vstd::string::group_string_axioms;

/// The characters of `s`, in order.
pub fn chars_of(s: &str) -> (v: Vec<char>)
    ensures
        v@ == s@,
{
    let mut v: Vec<char> = Vec::new();
    for c in it: s.chars()
        invariant
            v@ == it.seq().take(it.index()),
    {
        v.push(c);
    }
    v
}

/// Appends one character to a `String` (std's `String::push`).
#[verifier::external_body]
pub(crate) fn push_char(s: &mut String, c: char)
    ensures
        final(s)@ == old(s)@.push(c),
{
    s.push(c);
}

/// The string made of `v[lo..hi]`.
pub fn string_of(v: &Vec<char>, lo: usize, hi: usize) -> (s: String)
    requires
        lo <= hi <= v.len(),
    ensures
        s@ == v@.subrange(lo as int, hi as int),
{
    let mut s = String::new();
    let mut i = lo;
    while i < hi
        invariant
            lo <= i <= hi <= v.len(),
            s@ == v@.subrange(lo as int, i as int),
        decreases hi - i,
    {
        push_char(&mut s, v[i]);
        i += 1;
    }
    s
}


/// The number of bytes `c` takes in UTF-8.
pub open spec fn char_width(c: char) -> nat {
    if (c as u32) < 0x80 {
        1
    } else if (c as u32) < 0x800 {
        2
    } else if (c as u32) < 0x10000 {
        3
    } else {
        4
    }
}

/// The number of bytes `s` takes in UTF-8.
pub open spec fn byte_len(s: Seq<char>) -> nat
    decreases s.len(),
{
    if s.len() == 0 {
        0
    } else {
        char_width(s[0]) + byte_len(s.drop_first())
    }
}

/// The byte offset of the `k`-th character of `s`.
pub open spec fn byte_offset(s: Seq<char>, k: int) -> nat {
    byte_len(s.take(k))
}

/// `b` is a byte offset at which a character of `s` starts, or the end of `s`.
pub open spec fn is_boundary(s: Seq<char>, b: int) -> bool {
    exists|k: int| 0 <= k <= s.len() && byte_offset(s, k) == b
}

/// The character index at which byte `b` of `s` starts.
pub open spec fn char_at_byte(s: Seq<char>, b: int) -> int {
    choose|k: int| 0 <= k <= s.len() && byte_offset(s, k) == b
}

/// The character that starts at a byte offset is the one with that offset.
pub proof fn lemma_char_at_byte(s: Seq<char>, b: int, k: int)
    requires
        0 <= k <= s.len(),
        byte_offset(s, k) == b,
    ensures
        char_at_byte(s, b) == k,
        is_boundary(s, b),
{
    let j = char_at_byte(s, b);
    lemma_byte_offset_injective(s, j, k);
}

/// The byte length of a concatenation is the sum of the byte lengths.
pub proof fn lemma_byte_len_concat(a: Seq<char>, b: Seq<char>)
    ensures
        byte_len(a + b) == byte_len(a) + byte_len(b),
    decreases a.len(),
{
    if a.len() > 0 {
        assert((a + b).drop_first() =~= a.drop_first() + b);
        lemma_byte_len_concat(a.drop_first(), b);
    } else {
        assert(a + b =~= b);
    }
}

/// Each character adds its width to the offset of the next one.
pub proof fn lemma_byte_offset_step(s: Seq<char>, k: int)
    requires
        0 <= k < s.len(),
    ensures
        byte_offset(s, k + 1) == byte_offset(s, k) + char_width(s[k]),
{
    let one = seq![s[k]];
    assert(s.take(k + 1) =~= s.take(k) + one);
    lemma_byte_len_concat(s.take(k), one);
    assert(one.drop_first() =~= Seq::<char>::empty());
    assert(byte_len(one) == char_width(s[k]) + byte_len(one.drop_first()));
}

/// Byte offsets grow strictly with the character index.
pub proof fn lemma_byte_offset_mono(s: Seq<char>, i: int, j: int)
    requires
        0 <= i <= j <= s.len(),
    ensures
        byte_offset(s, i) + (j - i) <= byte_offset(s, j),
        byte_offset(s, j) <= byte_len(s),
    decreases j - i,
{
    lemma_byte_len_concat(s.take(j), s.skip(j));
    assert(s.take(j) + s.skip(j) =~= s);
    if i < j {
        lemma_byte_offset_step(s, j - 1);
        lemma_byte_offset_mono(s, i, j - 1);
    }
}

/// Offsets of distinct characters differ.
pub proof fn lemma_byte_offset_injective(s: Seq<char>, i: int, j: int)
    requires
        0 <= i <= s.len(),
        0 <= j <= s.len(),
        byte_offset(s, i) == byte_offset(s, j),
    ensures
        i == j,
{
    if i < j {
        lemma_byte_offset_mono(s, i, j);
    } else if j < i {
        lemma_byte_offset_mono(s, j, i);
    }
}

/// The UTF-8 width of a character, as `char::len_utf8` computes it.
pub fn width_of(c: char) -> (w: usize)
    ensures
        w == char_width(c),
{
    let u = c as u32;
    if u < 0x80 {
        1
    } else if u < 0x800 {
        2
    } else if u < 0x10000 {
        3
    } else {
        4
    }
}

/// The length of `s` in bytes (std's `str::len`).
#[verifier::external_body]
pub(crate) fn str_len(s: &str) -> (n: usize)
    ensures
        n == byte_len(s@),
{
    s.len()
}

/// The byte offset of every character of `s`, and of its end: entry `k` is
/// where character `k` starts.
pub fn byte_offsets(s: &Vec<char>, total: usize) -> (offs: Vec<usize>)
    requires
        total == byte_len(s@),
    ensures
        offs.len() == s.len() + 1,
        forall|k: int| 0 <= k <= s.len() ==> offs@[k] == byte_offset(s@, k),
{
    let mut offs: Vec<usize> = Vec::new();
    offs.push(0);
    assert(s@.take(0) =~= Seq::<char>::empty());
    let mut i: usize = 0;
    let mut at: usize = 0;
    while i < s.len()
        invariant
            i <= s.len(),
            total == byte_len(s@),
            offs.len() == i + 1,
            at == byte_offset(s@, i as int),
            forall|k: int| 0 <= k <= i ==> offs@[k] == byte_offset(s@, k),
        decreases s.len() - i,
    {
        proof {
            lemma_byte_offset_step(s@, i as int);
            lemma_byte_offset_mono(s@, i as int + 1, s.len() as int);
            assert(s@.take(s.len() as int) =~= s@);
        }
        at = at + width_of(s[i]);
        offs.push(at);
        i += 1;
    }
    offs
}

/// The index of the character that starts at byte `b` of the text whose
/// offsets are `offs`, if one does (the end of the text counts).
pub fn char_index_at(s: Ghost<Seq<char>>, offs: &Vec<usize>, b: usize) -> (r: Option<usize>)
    requires
        offs.len() == s@.len() + 1,
        forall|k: int| 0 <= k <= s@.len() ==> offs@[k] == byte_offset(s@, k),
    ensures
        match r {
            Some(k) => k <= s@.len() && byte_offset(s@, k as int) == b,
            None => !is_boundary(s@, b as int),
        },
{
    let mut k: usize = 0;
    while k < offs.len()
        invariant
            offs.len() == s@.len() + 1,
            forall|j: int| 0 <= j <= s@.len() ==> offs@[j] == byte_offset(s@, j),
            forall|j: int| 0 <= j < k ==> byte_offset(s@, j) != b,
        decreases offs.len() - k,
    {
        if offs[k] == b {
            return Some(k);
        }
        k += 1;
    }
    None
}


/// Whether `regex::Regex::new` accepts `pattern`.
pub uninterp spec fn regex_valid(pattern: Seq<char>) -> bool;

/// For each match that `regex::Regex::captures_iter` finds in `text`, left to
/// right, the byte span of each capture group (group 0 is the whole match;
/// `None` for a group that did not take part).
pub uninterp spec fn regex_captures(pattern: Seq<char>, text: Seq<char>) -> Seq<Seq<Option<(usize, usize)>>>;

/// A span of `text`: ordered, inside it, on character boundaries.
pub open spec fn span_in(text: Seq<char>, sp: (usize, usize)) -> bool {
    &&& sp.0 <= sp.1 <= byte_len(text)
    &&& is_boundary(text, sp.0 as int)
    &&& is_boundary(text, sp.1 as int)
}

/// Compiles `pattern` with `regex::Regex::new` and lists the capture-group
/// spans of every match in `text` (`Regex::captures_iter`, `Captures::iter`,
/// `Match::start`, `Match::end`); `None` when the pattern is refused. The
/// contract claims the named result, and what the regex crate documents of
/// every match: `start <= end`, both inside the text and on UTF-8 character
/// boundaries.
#[verifier::external_body]
pub(crate) fn regex_captures_of(pattern: &str, text: &str) -> (r: Option<Vec<Vec<Option<(usize, usize)>>>>)
    ensures
        r is Some == regex_valid(pattern@),
        r matches Some(v) ==> v@.map_values(|c: Vec<Option<(usize, usize)>>| c@) == regex_captures(
            pattern@,
            text@,
        ),
        r matches Some(v) ==> forall|i: int, j: int|
            0 <= i < v.len() && 0 <= j < v@[i].len() && v@[i]@[j] is Some ==> span_in(
                text@,
                #[trigger] v@[i]@[j]->Some_0,
            ),
{
    match regex::Regex::new(pattern) {
        Ok(re) => Some(
            re.captures_iter(text)
                .map(|c| c.iter().map(|m| m.map(|m| (m.start(), m.end()))).collect())
                .collect(),
        ),
        Err(_) => None,
    }
}


/// `c` with ASCII upper-case letters mapped to lower case.
pub open spec fn ascii_lower_char(c: char) -> char {
    if 'A' <= c <= 'Z' {
        ((c as u32) + 32) as char
    } else {
        c
    }
}

/// `s` with ASCII upper-case letters mapped to lower case, as
/// `str::to_ascii_lowercase` does.
pub open spec fn ascii_lower(s: Seq<char>) -> Seq<char> {
    s.map_values(|c: char| ascii_lower_char(c))
}

pub fn ascii_lower_of(c: char) -> (r: char)
    ensures
        r == ascii_lower_char(c),
{
    if 'A' <= c && c <= 'Z' {
        let b = c as u8;
        (b + 32) as char
    } else {
        c
    }
}

/// `s` with ASCII letters in lower case.
pub fn to_ascii_lower(s: &str) -> (r: String)
    ensures
        r@ == ascii_lower(s@),
{
    let v = chars_of(s);
    let mut r = String::new();
    let mut i: usize = 0;
    while i < v.len()
        invariant
            i <= v.len(),
            v@ == s@,
            r@ == ascii_lower(s@.take(i as int)),
        decreases v.len() - i,
    {
        push_char(&mut r, ascii_lower_of(v[i]));
        assert(s@.take(i + 1) =~= s@.take(i as int).push(v@[i as int]));
        assert(r@ =~= ascii_lower(s@.take(i + 1)));
        i += 1;
    }
    assert(s@.take(s@.len() as int) =~= s@);
    r
}

/// The characters of `s` between bytes `a` and `b`.
pub open spec fn byte_slice(s: Seq<char>, a: int, b: int) -> Seq<char> {
    s.subrange(char_at_byte(s, a), char_at_byte(s, b))
}

/// `text[a..b]`, by byte offsets on character boundaries.
pub fn slice_bytes(chars: &Vec<char>, offs: &Vec<usize>, a: usize, b: usize) -> (r: String)
    requires
        offs.len() == chars.len() + 1,
        forall|k: int| 0 <= k <= chars.len() ==> offs@[k] == byte_offset(chars@, k),
        a <= b,
        is_boundary(chars@, a as int),
        is_boundary(chars@, b as int),
    ensures
        r@ == byte_slice(chars@, a as int, b as int),
{
    let ia = char_index_at(Ghost(chars@), offs, a);
    let ib = char_index_at(Ghost(chars@), offs, b);
    match (ia, ib) {
        (Some(i), Some(j)) => {
            proof {
                let ka = char_at_byte(chars@, a as int);
                let kb = char_at_byte(chars@, b as int);
                lemma_byte_offset_injective(chars@, ka, i as int);
                lemma_byte_offset_injective(chars@, kb, j as int);
                if j < i {
                    lemma_byte_offset_mono(chars@, j as int + 1, i as int);
                    lemma_byte_offset_step(chars@, j as int);
                }
            }
            string_of(chars, i, j)
        },
        _ => {
            proof {
                assert(false);
            }
            String::new()
        },
    }
}


/// Whether `c` has the Unicode `White_Space` property (`char::is_whitespace`).
pub open spec fn is_ws(c: char) -> bool {
    let u = c as u32;
    ||| 0x9 <= u <= 0xD
    ||| u == 0x20
    ||| u == 0x85
    ||| u == 0xA0
    ||| u == 0x1680
    ||| 0x2000 <= u <= 0x200A
    ||| u == 0x2028
    ||| u == 0x2029
    ||| u == 0x202F
    ||| u == 0x205F
    ||| u == 0x3000
}

pub fn is_whitespace(c: char) -> (r: bool)
    ensures
        r == is_ws(c),
{
    let u = c as u32;
    (0x9 <= u && u <= 0xD) || u == 0x20 || u == 0x85 || u == 0xA0 || u == 0x1680 || (0x2000 <= u
        && u <= 0x200A) || u == 0x2028 || u == 0x2029 || u == 0x202F || u == 0x205F || u == 0x3000
}

/// `s` without leading white space.
pub open spec fn trim_start(s: Seq<char>) -> Seq<char>
    decreases s.len(),
{
    if s.len() > 0 && is_ws(s[0]) {
        trim_start(s.drop_first())
    } else {
        s
    }
}

/// `s` without trailing white space.
pub open spec fn trim_end(s: Seq<char>) -> Seq<char>
    decreases s.len(),
{
    if s.len() > 0 && is_ws(s.last()) {
        trim_end(s.drop_last())
    } else {
        s
    }
}

/// `s` without leading and trailing white space (`str::trim`).
pub open spec fn trim(s: Seq<char>) -> Seq<char> {
    trim_end(trim_start(s))
}

/// `v[lo..hi]` without leading and trailing white space.
pub fn trimmed(v: &Vec<char>, lo: usize, hi: usize) -> (r: String)
    requires
        lo <= hi <= v.len(),
    ensures
        r@ == trim(v@.subrange(lo as int, hi as int)),
{
    let ghost s = v@.subrange(lo as int, hi as int);
    let mut a = lo;
    while a < hi && is_whitespace(v[a])
        invariant
            lo <= a <= hi <= v.len(),
            s == v@.subrange(lo as int, hi as int),
            trim_start(s) == trim_start(v@.subrange(a as int, hi as int)),
        decreases hi - a,
    {
        assert(v@.subrange(a as int, hi as int).drop_first() =~= v@.subrange(a + 1, hi as int));
        a += 1;
    }
    let mut b = hi;
    while b > a && is_whitespace(v[b - 1])
        invariant
            lo <= a <= b <= hi <= v.len(),
            trim_start(s) == v@.subrange(a as int, hi as int),
            trim(s) == trim_end(v@.subrange(a as int, b as int)),
        decreases b - a,
    {
        assert(v@.subrange(a as int, b as int).drop_last() =~= v@.subrange(a as int, b - 1));
        b -= 1;
    }
    string_of(v, a, b)
}


/// The lower-case form of `s`, as `str::to_lowercase` gives it (full Unicode
/// case mapping).
pub uninterp spec fn lowercase(s: Seq<char>) -> Seq<char>;

/// `s` in lower case (std's `str::to_lowercase`). The contract claims only
/// that the result is the named lower-case form of `s`.
#[verifier::external_body]
pub(crate) fn to_lower(s: &str) -> (r: String)
    ensures
        r@ == lowercase(s@),
{
    s.to_lowercase()
}

/// `p` is a prefix of `s`.
pub open spec fn is_prefix(p: Seq<char>, s: Seq<char>) -> bool {
    p.len() <= s.len() && s.take(p.len() as int) == p
}

/// `p` occurs in `s`.
pub open spec fn occurs_in(p: Seq<char>, s: Seq<char>) -> bool {
    exists|i: int| 0 <= i <= s.len() - p.len() && #[trigger] s.subrange(i, i + p.len()) == p
}

/// `p` occurs in `s` at character `i`.
pub fn occurs_at(p: &Vec<char>, s: &Vec<char>, i: usize) -> (r: bool)
    requires
        i <= s.len(),
    ensures
        r == (i + p.len() <= s.len() && s@.subrange(i as int, i + p.len()) == p@),
{
    if p.len() > s.len() - i {
        return false;
    }
    let mut j: usize = 0;
    while j < p.len()
        invariant
            j <= p.len(),
            i + p.len() <= s.len(),
            forall|q: int| 0 <= q < j ==> s@[i + q] == p@[q],
        decreases p.len() - j,
    {
        if s[i + j] != p[j] {
            assert(s@.subrange(i as int, i + p.len())[j as int] != p@[j as int]);
            return false;
        }
        j += 1;
    }
    assert(s@.subrange(i as int, i + p.len()) =~= p@);
    true
}

/// Whether `p` is a prefix of `s`.
pub fn starts_with(s: &str, p: &str) -> (r: bool)
    ensures
        r == is_prefix(p@, s@),
{
    let sv = chars_of(s);
    let pv = chars_of(p);
    let r = occurs_at(&pv, &sv, 0);
    assert(sv@.subrange(0, pv@.len() as int) == sv@.take(pv@.len() as int));
    r
}

/// Whether `a` and `b` are the same text.
pub fn same_str(a: &str, b: &str) -> (r: bool)
    ensures
        r == (a@ == b@),
{
    assert(a@.take(a@.len() as int) =~= a@);
    assert(b@.take(b@.len() as int) =~= b@);
    let r = starts_with(a, b) && starts_with(b, a);
    if r {
        assert(a@ =~= b@);
    }
    r
}

/// Whether `p` occurs in `s`.
pub fn contains_str(s: &str, p: &str) -> (r: bool)
    ensures
        r == occurs_in(p@, s@),
{
    let sv = chars_of(s);
    let pv = chars_of(p);
    if pv.len() == 0 {
        assert(s@.subrange(0int, 0int + p@.len()) =~= p@);
        return true;
    }
    if pv.len() > sv.len() {
        return false;
    }
    let mut i: usize = 0;
    while i <= sv.len() - pv.len()
        invariant
            0 < pv.len() <= sv.len(),
            i <= sv.len() - pv.len() + 1,
            sv@ == s@,
            pv@ == p@,
            forall|q: int| 0 <= q < i ==> #[trigger] s@.subrange(q, q + p@.len()) != p@,
        decreases sv.len() - i,
    {
        if occurs_at(&pv, &sv, i) {
            return true;
        }
        i += 1;
    }
    false
}


/// The characters of an optional string.
pub open spec fn opt_string_view(r: Option<String>) -> Option<Seq<char>> {
    match r {
        Some(s) => Some(s@),
        None => None,
    }
}


/// `a` sorts before `b`: lexicographically by character (for UTF-8 text,
/// the same as by bytes, as `str`'s ordering goes).
pub open spec fn str_lt(a: Seq<char>, b: Seq<char>) -> bool
    decreases a.len(),
{
    if a.len() == 0 {
        b.len() > 0
    } else if b.len() == 0 {
        false
    } else if a[0] != b[0] {
        (a[0] as u32) < (b[0] as u32)
    } else {
        str_lt(a.drop_first(), b.drop_first())
    }
}

proof fn lemma_char_code(x: char, y: char)
    ensures
        x != y ==> (x as u32) != (y as u32),
{
    if x != y {
        assert(x as u32 == x as int);
        assert(y as u32 == y as int);
    }
}

/// `str_lt` is asymmetric.
pub proof fn lemma_str_lt_asym(a: Seq<char>, b: Seq<char>)
    ensures
        str_lt(a, b) ==> !str_lt(b, a),
    decreases a.len(),
{
    if a.len() > 0 && b.len() > 0 && a[0] == b[0] {
        lemma_str_lt_asym(a.drop_first(), b.drop_first());
    }
}

/// When `a` sorts before `c`, any `b` sorts after `a` or before `c`.
pub proof fn lemma_str_lt_split(a: Seq<char>, b: Seq<char>, c: Seq<char>)
    ensures
        str_lt(a, c) ==> str_lt(a, b) || str_lt(b, c),
    decreases a.len(),
{
    if a.len() > 0 && b.len() > 0 && c.len() > 0 {
        lemma_char_code(a[0], b[0]);
        lemma_char_code(b[0], c[0]);
        lemma_char_code(a[0], c[0]);
        if a[0] == b[0] && b[0] == c[0] {
            lemma_str_lt_split(a.drop_first(), b.drop_first(), c.drop_first());
        }
    }
}

/// Two different texts are ordered one way or the other.
pub proof fn lemma_str_lt_total(a: Seq<char>, b: Seq<char>)
    ensures
        a != b ==> str_lt(a, b) || str_lt(b, a),
    decreases a.len(),
{
    if a.len() > 0 && b.len() > 0 {
        lemma_char_code(a[0], b[0]);
        if a[0] == b[0] {
            lemma_str_lt_total(a.drop_first(), b.drop_first());
            if a.drop_first() == b.drop_first() {
                assert(a =~= seq![a[0]] + a.drop_first());
                assert(b =~= seq![b[0]] + b.drop_first());
            }
        }
    } else if a.len() == 0 && b.len() == 0 {
        assert(a =~= b);
    }
}

/// Whether `a` sorts before `b`.
pub fn str_less(a: &str, b: &str) -> (r: bool)
    ensures
        r == str_lt(a@, b@),
{
    let x = chars_of(a);
    let y = chars_of(b);
    let mut i: usize = 0;
    assert(a@.skip(0) =~= a@);
    assert(b@.skip(0) =~= b@);
    while i < x.len() && i < y.len() && x[i] == y[i]
        invariant
            i <= x.len(),
            i <= y.len(),
            x@ == a@,
            y@ == b@,
            str_lt(a@, b@) == str_lt(a@.skip(i as int), b@.skip(i as int)),
        decreases x.len() - i,
    {
        assert(a@.skip(i as int).drop_first() =~= a@.skip(i + 1));
        assert(b@.skip(i as int).drop_first() =~= b@.skip(i + 1));
        i += 1;
    }
    if i == x.len() {
        assert(a@.skip(i as int).len() == 0);
        i < y.len()
    } else if i == y.len() {
        assert(b@.skip(i as int).len() == 0);
        false
    } else {
        assert(a@.skip(i as int)[0] == x@[i as int]);
        assert(b@.skip(i as int)[0] == y@[i as int]);
        (x[i] as u32) < (y[i] as u32)
    }
}

} // verus!
