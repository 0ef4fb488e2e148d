//! Where pages and journals live on disk: a root directory with `pages/` and
//! `journals/` below it, one markdown file per page.
//!
//! Page names map onto file names the way Logseq does it: a `/` (a namespace
//! separator) is written as `%2F`. A literal `%` round-trips as it is; a name
//! that itself holds `%2F` would collide with an encoded `/`, and is out of
//! scope.

use vstd::prelude::*;
use vstd::string::*;
use crate::journal::{render_date, simple_format, JournalDate};
use crate::text::{chars_of, opt_string_view, push_char, str_less, str_lt, string_of};

verus! {

broadcast use vstd::seq_lib::group_seq_properties;

/// The directory of regular pages, below the root.
pub const PAGES_DIR: &'static str = "pages";

/// The directory of journal pages, below the root.
pub const JOURNALS_DIR: &'static str = "journals";

/// The format of a journal's file name: `YYYY_MM_DD`.
pub const JOURNAL_FILE_FORMAT: &'static str = "%Y_%m_%d";

/// Why the store refuses a request.
#[derive(Debug, PartialEq, Eq)]
pub enum StoreError {
    /// The page name is empty, starts with `.` or holds a `\`.
    InvalidName(String),
}

/// A notes directory.
pub struct NotesStore {
    root: String,
}

impl NotesStore {
    pub closed spec fn root_spec(&self) -> Seq<char> {
        self.root@
    }

    /// The store rooted at `root`.
    pub fn new(root: String) -> (s: NotesStore)
        ensures
            s.root_spec() == root@,
    {
        NotesStore { root }
    }

    /// The root directory.
    pub fn root(&self) -> (r: &str)
        ensures
            r@ == self.root_spec(),
    {
        self.root.as_str()
    }
}

/// A page name the store accepts: not empty, not starting with `.`, without
/// `\` and without `:` (which file systems refuse or give a meaning of their
/// own, and which a URL such as `https://...` holds).
pub open spec fn valid_name(name: Seq<char>) -> bool {
    &&& name.len() > 0
    &&& name[0] != '.'
    &&& !name.contains('\\')
    &&& !name.contains(':')
}

/// Checks a page name: empty names, names starting with `.` and names with
/// a `\` or a `:` are refused.
pub fn validate_name(name: &str) -> (r: Result<(), StoreError>)
    ensures
        r is Ok <==> valid_name(name@),
        r matches Err(StoreError::InvalidName(n)) ==> n@ == name@,
{
    let v = chars_of(name);
    let mut bad = v.len() == 0 || v[0] == '.';
    let mut i: usize = 0;
    while i < v.len()
        invariant
            i <= v.len(),
            v@ == name@,
            bad == (v.len() == 0 || v@[0] == '.' || exists|j: int| 0 <= j < i && (v@[j] == '\\' || v@[j] == ':')),
        decreases v.len() - i,
    {
        if v[i] == '\\' || v[i] == ':' {
            bad = true;
        }
        i += 1;
    }
    if bad {
        Err(StoreError::InvalidName(name.to_owned()))
    } else {
        assert(!name@.contains('\\'));
        assert(!name@.contains(':'));
        Ok(())
    }
}

/// The encoded form of `/`.
pub open spec fn slash_code() -> Seq<char> {
    seq!['%', '2', 'F']
}

/// `name` with each `/` written as `%2F`.
pub open spec fn encode_spec(name: Seq<char>) -> Seq<char>
    decreases name.len(),
{
    if name.len() == 0 {
        Seq::empty()
    } else {
        (if name[0] == '/' {
            slash_code()
        } else {
            seq![name[0]]
        }) + encode_spec(name.drop_first())
    }
}

/// `s` with each `%2F`, left to right, read back as `/`.
pub open spec fn decode_spec(s: Seq<char>) -> Seq<char>
    decreases s.len(),
{
    if s.len() == 0 {
        Seq::empty()
    } else if s.len() >= 3 && s.take(3) == slash_code() {
        seq!['/'] + decode_spec(s.skip(3))
    } else {
        seq![s[0]] + decode_spec(s.drop_first())
    }
}

/// A page's name as it appears in its file name: each `/` becomes `%2F`.
pub fn encode_page_name(name: &str) -> (r: String)
    ensures
        r@ == encode_spec(name@),
{
    let v = chars_of(name);
    let mut out = String::new();
    let mut i = v.len();
    let mut tail: Vec<char> = Vec::new();
    // Build the encoding of each suffix, from the end.
    assert(v@.skip(i as int) =~= Seq::<char>::empty());
    while i > 0
        invariant
            i <= v.len(),
            v@ == name@,
            tail@ == encode_spec(v@.skip(i as int)),
        decreases i,
    {
        i -= 1;
        let ghost t0 = tail@;
        assert(v@.skip(i as int).drop_first() =~= v@.skip(i + 1));
        if v[i] == '/' {
            tail.insert(0, 'F');
            tail.insert(0, '2');
            tail.insert(0, '%');
            assert(tail@ =~= slash_code() + t0);
        } else {
            tail.insert(0, v[i]);
            assert(tail@ =~= seq![v@[i as int]] + t0);
        }
    }
    assert(v@.skip(0) =~= v@);
    let mut k: usize = 0;
    while k < tail.len()
        invariant
            k <= tail.len(),
            out@ == tail@.take(k as int),
        decreases tail.len() - k,
    {
        push_char(&mut out, tail[k]);
        assert(tail@.take(k + 1) =~= tail@.take(k as int).push(tail@[k as int]));
        k += 1;
    }
    assert(tail@.take(tail.len() as int) =~= tail@);
    out
}

proof fn lemma_decode_code(s: Seq<char>)
    requires
        s.len() >= 3,
        s[0] == '%',
        s[1] == '2',
        s[2] == 'F',
    ensures
        decode_spec(s) == seq!['/'] + decode_spec(s.skip(3)),
{
    assert(s.take(3) =~= slash_code());
}

proof fn lemma_decode_other(s: Seq<char>)
    requires
        s.len() > 0,
        !(s.len() >= 3 && s[0] == '%' && s[1] == '2' && s[2] == 'F'),
    ensures
        decode_spec(s) == seq![s[0]] + decode_spec(s.drop_first()),
{
    if s.len() >= 3 && s.take(3) == slash_code() {
        assert(s.take(3)[0] == s[0]);
        assert(s.take(3)[1] == s[1]);
        assert(s.take(3)[2] == s[2]);
    }
}

/// A page's name read back from its file name: each `%2F` becomes `/`.
pub fn decode_page_name(encoded: &str) -> (r: String)
    ensures
        r@ == decode_spec(encoded@),
{
    let v = chars_of(encoded);
    let mut out = String::new();
    let mut i: usize = 0;
    assert(v@.skip(0) =~= v@);
    while i < v.len()
        invariant
            i <= v.len(),
            v@ == encoded@,
            decode_spec(encoded@) == out@ + decode_spec(v@.skip(i as int)),
        decreases v.len() - i,
    {
        let ghost rest = v@.skip(i as int);
        if v.len() - i >= 3 && v[i] == '%' && v[i + 1] == '2' && v[i + 2] == 'F' {
            proof {
                lemma_decode_code(rest);
                assert(rest.skip(3) =~= v@.skip(i + 3));
            }
            let ghost o0 = out@;
            push_char(&mut out, '/');
            assert(o0 + (seq!['/'] + decode_spec(v@.skip(i + 3))) =~= out@ + decode_spec(v@.skip(i + 3)));
            i += 3;
        } else {
            proof {
                lemma_decode_other(rest);
                assert(rest.drop_first() =~= v@.skip(i + 1));
            }
            let ghost o0 = out@;
            push_char(&mut out, v[i]);
            assert(o0 + (seq![v@[i as int]] + decode_spec(v@.skip(i + 1))) =~= out@ + decode_spec(v@.skip(i + 1)));
            i += 1;
        }
    }
    assert(v@.skip(i as int) =~= Seq::<char>::empty());
    assert(out@ + Seq::<char>::empty() =~= out@);
    out
}

/// `slash_code()` does not occur in `s`.
pub open spec fn free_of_slash_code(s: Seq<char>) -> bool {
    forall|i: int| 0 <= i && i + 3 <= s.len() ==> #[trigger] s.subrange(i, i + 3) != slash_code()
}

/// Reading back a page's encoded name gives the name again, for every name
/// that does not itself hold `%2F`.
pub proof fn law_decode_inverts_encode(name: Seq<char>)
    requires
        free_of_slash_code(name),
    ensures
        decode_spec(encode_spec(name)) == name,
    decreases name.len(),
{
    if name.len() > 0 {
        let rest = name.drop_first();
        assert(free_of_slash_code(rest)) by {
            assert forall|i: int| 0 <= i && i + 3 <= rest.len() implies #[trigger] rest.subrange(i, i + 3)
                != slash_code() by {
                assert(rest.subrange(i, i + 3) =~= name.subrange(i + 1, i + 1 + 3));
            }
        }
        law_decode_inverts_encode(rest);
        let e = encode_spec(name);
        if name[0] == '/' {
            assert(e.take(3) =~= slash_code());
            assert(e.skip(3) =~= encode_spec(rest));
            assert(decode_spec(e) =~= seq!['/'] + name.drop_first());
            assert(seq!['/'] + name.drop_first() =~= name);
        } else {
            let er = encode_spec(rest);
            assert(e =~= seq![name[0]] + er);
            if e.len() >= 3 && e.take(3) == slash_code() {
                // The name would start with `%2F`.
                assert(name[0] == '%');
                assert(er[0] == '2' && er[1] == 'F');
                assert(rest.len() > 0);
                assert(rest[0] != '/');
                assert(er =~= seq![rest[0]] + encode_spec(rest.drop_first()));
                assert(rest[0] == '2');
                let rr = rest.drop_first();
                assert(rr.len() > 0) by {
                    if rr.len() == 0 {
                        assert(encode_spec(rr) =~= Seq::<char>::empty());
                    }
                }
                assert(rr[0] != '/');
                assert(encode_spec(rr) =~= seq![rr[0]] + encode_spec(rr.drop_first()));
                assert(rr[0] == 'F');
                assert(name.subrange(0int, 0int + 3) =~= slash_code());
                assert(false);
            }
            assert(e.drop_first() =~= er);
            assert(decode_spec(e) =~= seq![name[0]] + rest);
            assert(seq![name[0]] + rest =~= name);
        }
    }
}

/// The file name of a page, when the store accepts its name.
pub open spec fn page_file_spec(name: Seq<char>) -> Option<Seq<char>> {
    if valid_name(name) {
        Some(encode_spec(name) + seq!['.', 'm', 'd'])
    } else {
        None
    }
}

/// The file name (below `pages/`) of the page called `name`: its encoded
/// name with `.md`.
pub fn page_file_name(name: &str) -> (r: Result<String, StoreError>)
    ensures
        r matches Ok(f) ==> page_file_spec(name@) == Some(f@),
        r is Err <==> page_file_spec(name@) is None,
        r matches Err(StoreError::InvalidName(n)) ==> n@ == name@,
{
    match validate_name(name) {
        Err(e) => Err(e),
        Ok(()) => {
            let mut f = encode_page_name(name);
            f.append(".md");
            proof {
                reveal_strlit(".md");
            }
            Ok(f)
        },
    }
}

/// The page a file below `pages/` holds: a name ending in `.md`, with
/// something before it, names the page its stem decodes to.
pub open spec fn page_of_file_spec(file: Seq<char>) -> Option<Seq<char>> {
    if file.len() > 3 && file.skip(file.len() - 3) == seq!['.', 'm', 'd'] {
        Some(decode_spec(file.take(file.len() - 3)))
    } else {
        None
    }
}

/// The page a file below `pages/` holds, if it is a page file.
pub fn page_of_file(file: &str) -> (r: Option<String>)
    ensures
        opt_string_view(r) == page_of_file_spec(file@),
{
    let v = chars_of(file);
    let n = v.len();
    if n > 3 && v[n - 3] == '.' && v[n - 2] == 'm' && v[n - 1] == 'd' {
        assert(file@.skip(n - 3) =~= seq!['.', 'm', 'd']);
        let stem = string_of(&v, 0, n - 3);
        assert(v@.subrange(0, n - 3) =~= file@.take(n - 3));
        Some(decode_page_name(stem.as_str()))
    } else {
        proof {
            if n > 3 && file@.skip(n - 3) == seq!['.', 'm', 'd'] {
                assert(file@.skip(n - 3)[0] == v@[n - 3]);
                assert(file@.skip(n - 3)[1] == v@[n - 2]);
                assert(file@.skip(n - 3)[2] == v@[n - 1]);
            }
        }
        None
    }
}

/// The file name (below `journals/`) of the journal of `date`: `YYYY_MM_DD.md`.
pub fn journal_file_name(date: &JournalDate) -> (r: String)
    ensures
        0 <= date.y() <= 9999 ==> r@ == render_date(
            JOURNAL_FILE_FORMAT@,
            date.y() as nat,
            date.m() as nat,
            date.d() as nat,
        ) + seq!['.', 'm', 'd'],
{
    proof {
        lemma_file_format_simple();
    }
    let mut f = match date.format(JOURNAL_FILE_FORMAT) {
        Some(s) => s,
        None => String::new(),
    };
    f.append(".md");
    proof {
        reveal_strlit(".md");
    }
    f
}

/// The journal a file below `journals/` holds: a name ending in `.md`
/// whose stem reads as a date in the journal file format.
pub fn journal_of_file(file: &str) -> (r: Option<JournalDate>)
    ensures
        file@.len() > 3 && file@.skip(file@.len() - 3) == seq!['.', 'm', 'd'] ==> match crate::journal::parsed_date(
            file@.take(file@.len() - 3),
            JOURNAL_FILE_FORMAT@,
        ) {
            Some(t) => r matches Some(dt) && dt.y() == t.0 && dt.m() == t.1 && dt.d() == t.2,
            None => r is None,
        },
        !(file@.len() > 3 && file@.skip(file@.len() - 3) == seq!['.', 'm', 'd']) ==> r is None,
{
    let v = chars_of(file);
    let n = v.len();
    if n > 3 && v[n - 3] == '.' && v[n - 2] == 'm' && v[n - 1] == 'd' {
        assert(file@.skip(n - 3) =~= seq!['.', 'm', 'd']);
        let stem = string_of(&v, 0, n - 3);
        assert(v@.subrange(0, n - 3) =~= file@.take(n - 3));
        JournalDate::parse(stem.as_str(), JOURNAL_FILE_FORMAT)
    } else {
        proof {
            if n > 3 && file@.skip(n - 3) == seq!['.', 'm', 'd'] {
                assert(file@.skip(n - 3)[0] == v@[n - 3]);
                assert(file@.skip(n - 3)[1] == v@[n - 2]);
                assert(file@.skip(n - 3)[2] == v@[n - 1]);
            }
        }
        None
    }
}

/// `YYYY_MM_DD` is a simple format.
pub proof fn lemma_file_format_simple()
    ensures
        simple_format(JOURNAL_FILE_FORMAT@),
{
    reveal_strlit("%Y_%m_%d");
    let f = JOURNAL_FILE_FORMAT@;
    assert(simple_format(f.skip(8)));
    assert(f.skip(6).skip(2) =~= f.skip(8));
    assert(simple_format(f.skip(6)));
    assert(f.skip(5).skip(1) =~= f.skip(6));
    assert(simple_format(f.skip(5)));
    assert(f.skip(3).skip(2) =~= f.skip(5));
    assert(simple_format(f.skip(3)));
    assert(f.skip(2).skip(1) =~= f.skip(3));
    assert(simple_format(f.skip(2)));
    assert(f.skip(0).skip(2) =~= f.skip(2));
    assert(f.skip(0) =~= f);
}


// ---------------------------------------------------------------------------
// Listing.

pub open spec fn strings_view(v: Seq<String>) -> Seq<Seq<char>> {
    v.map_values(|x: String| x@)
}

/// Inserts `x` into `s` after every name that does not sort after it.
pub open spec fn insert_name(s: Seq<Seq<char>>, x: Seq<char>) -> Seq<Seq<char>>
    decreases s.len(),
{
    if s.len() == 0 {
        seq![x]
    } else if str_lt(x, s.last()) {
        insert_name(s.drop_last(), x).push(s.last())
    } else {
        s.push(x)
    }
}

/// `s` in ascending order.
pub open spec fn sort_names(s: Seq<Seq<char>>) -> Seq<Seq<char>>
    decreases s.len(),
{
    if s.len() == 0 {
        Seq::empty()
    } else {
        insert_name(sort_names(s.drop_last()), s.last())
    }
}

/// The pages held by `files`, in the order of the files.
pub open spec fn pages_in(files: Seq<Seq<char>>) -> Seq<Seq<char>>
    decreases files.len(),
{
    if files.len() == 0 {
        Seq::empty()
    } else {
        match page_of_file_spec(files.last()) {
            Some(n) => pages_in(files.drop_last()).push(n),
            None => pages_in(files.drop_last()),
        }
    }
}

proof fn lemma_insert_name_at(s: Seq<Seq<char>>, x: Seq<char>, p: int)
    requires
        0 <= p <= s.len(),
        forall|q: int| p <= q < s.len() ==> str_lt(x, #[trigger] s[q]),
        p == 0 || !str_lt(x, s[p - 1]),
    ensures
        insert_name(s, x) == s.take(p).push(x) + s.skip(p),
    decreases s.len(),
{
    if s.len() == 0 {
        assert(s.take(p).push(x) + s.skip(p) =~= seq![x]);
    } else if str_lt(x, s.last()) {
        lemma_insert_name_at(s.drop_last(), x, p);
        assert(s.drop_last().take(p) == s.take(p));
        assert(s.take(p).push(x) + s.skip(p) =~= (s.take(p).push(x) + s.drop_last().skip(p)).push(s.last()));
    } else {
        assert(p == s.len());
        assert(s.take(p).push(x) + s.skip(p) =~= s.push(x));
    }
}

/// The pages of the files found below `pages/`, in ascending order of name:
/// each `.md` file gives the page its stem decodes to; other files are
/// skipped.
pub fn page_names_of(files: &[String]) -> (r: Vec<String>)
    ensures
        strings_view(r@) == sort_names(pages_in(strings_view(files@))),
{
    let ghost fv = strings_view(files@);
    let mut out: Vec<String> = Vec::new();
    let mut i: usize = 0;
    assert(fv.take(0) =~= Seq::<Seq<char>>::empty());
    assert(strings_view(out@) =~= Seq::<Seq<char>>::empty());
    while i < files.len()
        invariant
            i <= files.len(),
            fv == strings_view(files@),
            strings_view(out@) == sort_names(pages_in(fv.take(i as int))),
        decreases files.len() - i,
    {
        proof {
            assert(fv.take(i + 1).drop_last() =~= fv.take(i as int));
            assert(fv.take(i + 1).last() == files@[i as int]@);
        }
        match page_of_file(files[i].as_str()) {
            Some(name) => {
                let ghost cur = strings_view(out@);
                let mut p = out.len();
                while p > 0 && str_less(name.as_str(), out[p - 1].as_str())
                    invariant
                        p <= out.len(),
                        cur == strings_view(out@),
                        forall|q: int| p <= q < out.len() ==> str_lt(name@, #[trigger] cur[q]),
                    decreases p,
                {
                    p -= 1;
                }
                proof {
                    lemma_insert_name_at(cur, name@, p as int);
                    let ps = pages_in(fv.take(i as int));
                    assert(pages_in(fv.take(i + 1)) == ps.push(name@));
                    assert(ps.push(name@).drop_last() =~= ps);
                }
                let ghost nv = name@;
                out.insert(p, name);
                assert(strings_view(out@) =~= cur.take(p as int).push(nv) + cur.skip(p as int));
            },
            None => {},
        }
        i += 1;
    }
    assert(fv.take(files.len() as int) =~= fv);
    out
}

/// `a` is an earlier day than `b`.
pub open spec fn day_lt(a: (int, int, int), b: (int, int, int)) -> bool {
    a.0 < b.0 || (a.0 == b.0 && (a.1 < b.1 || (a.1 == b.1 && a.2 < b.2)))
}

pub open spec fn day_of(d: JournalDate) -> (int, int, int) {
    (d.y(), d.m(), d.d())
}

/// Inserts `x` into `s` after every day not later than it.
pub open spec fn insert_day(s: Seq<(int, int, int)>, x: (int, int, int)) -> Seq<(int, int, int)>
    decreases s.len(),
{
    if s.len() == 0 {
        seq![x]
    } else if day_lt(x, s.last()) {
        insert_day(s.drop_last(), x).push(s.last())
    } else {
        s.push(x)
    }
}

/// `s` in ascending order.
pub open spec fn sort_days(s: Seq<(int, int, int)>) -> Seq<(int, int, int)>
    decreases s.len(),
{
    if s.len() == 0 {
        Seq::empty()
    } else {
        insert_day(sort_days(s.drop_last()), s.last())
    }
}

/// The days of the journals held by `files`, in the order of the files: an
/// `.md` file whose stem reads as a date in the journal file format.
pub open spec fn days_in(files: Seq<Seq<char>>) -> Seq<(int, int, int)>
    decreases files.len(),
{
    if files.len() == 0 {
        Seq::empty()
    } else {
        let f = files.last();
        let rest = days_in(files.drop_last());
        if f.len() > 3 && f.skip(f.len() - 3) == seq!['.', 'm', 'd'] {
            match crate::journal::parsed_date(f.take(f.len() - 3), JOURNAL_FILE_FORMAT@) {
                Some(t) => rest.push((t.0 as int, t.1 as int, t.2 as int)),
                None => rest,
            }
        } else {
            rest
        }
    }
}

proof fn lemma_insert_day_at(s: Seq<(int, int, int)>, x: (int, int, int), p: int)
    requires
        0 <= p <= s.len(),
        forall|q: int| p <= q < s.len() ==> day_lt(x, #[trigger] s[q]),
        p == 0 || !day_lt(x, s[p - 1]),
    ensures
        insert_day(s, x) == s.take(p).push(x) + s.skip(p),
    decreases s.len(),
{
    if s.len() == 0 {
        assert(s.take(p).push(x) + s.skip(p) =~= seq![x]);
    } else if day_lt(x, s.last()) {
        lemma_insert_day_at(s.drop_last(), x, p);
        assert(s.drop_last().take(p) == s.take(p));
        assert(s.take(p).push(x) + s.skip(p) =~= (s.take(p).push(x) + s.drop_last().skip(p)).push(s.last()));
    } else {
        assert(p == s.len());
        assert(s.take(p).push(x) + s.skip(p) =~= s.push(x));
    }
}

fn earlier(a: &JournalDate, b: &JournalDate) -> (r: bool)
    ensures
        r == day_lt(day_of(*a), day_of(*b)),
{
    a.year() < b.year() || (a.year() == b.year() && (a.month() < b.month() || (a.month() == b.month() && a.day()
        < b.day())))
}

/// The journals of the files found below `journals/`, oldest first: each
/// `.md` file whose stem reads as a date in the journal file format; other
/// files are skipped.
pub fn journal_dates_of(files: &[String]) -> (r: Vec<JournalDate>)
    ensures
        r@.map_values(|d: JournalDate| day_of(d)) == sort_days(days_in(strings_view(files@))),
{
    let ghost fv = strings_view(files@);
    let mut out: Vec<JournalDate> = Vec::new();
    let mut i: usize = 0;
    assert(fv.take(0) =~= Seq::<Seq<char>>::empty());
    assert(out@.map_values(|d: JournalDate| day_of(d)) =~= Seq::<(int, int, int)>::empty());
    while i < files.len()
        invariant
            i <= files.len(),
            fv == strings_view(files@),
            out@.map_values(|d: JournalDate| day_of(d)) == sort_days(days_in(fv.take(i as int))),
        decreases files.len() - i,
    {
        proof {
            assert(fv.take(i + 1).drop_last() =~= fv.take(i as int));
            assert(fv.take(i + 1).last() == files@[i as int]@);
        }
        match journal_of_file(files[i].as_str()) {
            Some(date) => {
                let ghost cur = out@.map_values(|d: JournalDate| day_of(d));
                let mut p = out.len();
                while p > 0 && earlier(&date, &out[p - 1])
                    invariant
                        p <= out.len(),
                        cur == out@.map_values(|d: JournalDate| day_of(d)),
                        forall|q: int| p <= q < out.len() ==> day_lt(day_of(date), #[trigger] cur[q]),
                    decreases p,
                {
                    p -= 1;
                }
                proof {
                    lemma_insert_day_at(cur, day_of(date), p as int);
                    let ds = days_in(fv.take(i as int));
                    assert(days_in(fv.take(i + 1)) == ds.push(day_of(date)));
                    assert(ds.push(day_of(date)).drop_last() =~= ds);
                }
                out.insert(p, date);
                assert(out@.map_values(|d: JournalDate| day_of(d)) =~= cur.take(p as int).push(day_of(date)) + cur.skip(
                    p as int,
                ));
            },
            None => {
                assert(days_in(fv.take(i + 1)) == days_in(fv.take(i as int)));
            },
        }
        i += 1;
    }
    assert(fv.take(files.len() as int) =~= fv);
    out
}


/// `dates`, oldest first.
pub fn sorted_dates(dates: &[JournalDate]) -> (r: Vec<JournalDate>)
    ensures
        r@.map_values(|d: JournalDate| day_of(d)) == sort_days(dates@.map_values(|d: JournalDate| day_of(d))),
{
    let ghost dv = dates@.map_values(|d: JournalDate| day_of(d));
    let mut out: Vec<JournalDate> = Vec::new();
    let mut i: usize = 0;
    assert(dv.take(0) =~= Seq::<(int, int, int)>::empty());
    assert(out@.map_values(|d: JournalDate| day_of(d)) =~= Seq::<(int, int, int)>::empty());
    while i < dates.len()
        invariant
            i <= dates.len(),
            dv == dates@.map_values(|d: JournalDate| day_of(d)),
            out@.map_values(|d: JournalDate| day_of(d)) == sort_days(dv.take(i as int)),
        decreases dates.len() - i,
    {
        let date = dates[i];
        let ghost cur = out@.map_values(|d: JournalDate| day_of(d));
        let mut p = out.len();
        while p > 0 && earlier(&date, &out[p - 1])
            invariant
                p <= out.len(),
                cur == out@.map_values(|d: JournalDate| day_of(d)),
                forall|q: int| p <= q < out.len() ==> day_lt(day_of(date), #[trigger] cur[q]),
            decreases p,
        {
            p -= 1;
        }
        proof {
            lemma_insert_day_at(cur, day_of(date), p as int);
            assert(dv.take(i + 1).drop_last() =~= dv.take(i as int));
            assert(dv.take(i + 1).last() == day_of(date));
        }
        out.insert(p, date);
        assert(out@.map_values(|d: JournalDate| day_of(d)) =~= cur.take(p as int).push(day_of(date)) + cur.skip(p as int));
        i += 1;
    }
    assert(dv.take(dates.len() as int) =~= dv);
    out
}

} // verus!
