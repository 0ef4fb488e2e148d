//! Calendar dates of journal pages, and the names they go by.

use vstd::prelude::*;
use std::fmt::Write;
use chrono::{Datelike, NaiveDate};
use crate::text::opt_string_view;

verus! {

broadcast use vstd::seq_lib::group_seq_properties;

/// The year is a leap year of the proleptic Gregorian calendar.
pub open spec fn is_leap(y: int) -> bool {
    (y % 4 == 0 && y % 100 != 0) || y % 400 == 0
}

/// The number of days of month `m` of year `y`.
pub open spec fn days_in_month(y: int, m: int) -> int {
    if m == 2 {
        if is_leap(y) {
            29
        } else {
            28
        }
    } else if m == 4 || m == 6 || m == 9 || m == 11 {
        30
    } else {
        31
    }
}

/// `(y, m, d)` is a day of the calendar, within the years the date library
/// covers.
pub open spec fn valid_ymd(y: int, m: int, d: int) -> bool {
    &&& -262143 <= y <= 262142
    &&& 1 <= m <= 12
    &&& 1 <= d <= days_in_month(y, m)
}

/// Whether `chrono::NaiveDate::from_ymd_opt` accepts the date. The contract
/// restates chrono's documentation: it does exactly for existing days of
/// years -262143 to 262142.
#[verifier::external_body]
fn date_exists(y: i32, m: u32, d: u32) -> (r: bool)
    ensures
        r == valid_ymd(y as int, m as int, d as int),
{
    NaiveDate::from_ymd_opt(y, m, d).is_some()
}

/// `n` in decimal, zero-padded to at least `w` digits.
pub open spec fn padded(n: nat, w: nat) -> Seq<char>
    decreases n + w,
{
    if w == 0 && n == 0 {
        Seq::empty()
    } else {
        let w2 = if w > 0 {
            (w - 1) as nat
        } else {
            0
        };
        padded(n / 10, w2).push((('0' as u32) + n % 10) as char)
    }
}

/// A format string made of literal characters and the `%Y`, `%m` and `%d`
/// specifiers only.
pub open spec fn simple_format(fmt: Seq<char>) -> bool
    decreases fmt.len(),
{
    if fmt.len() == 0 {
        true
    } else if fmt[0] == '%' {
        fmt.len() >= 2 && (fmt[1] == 'Y' || fmt[1] == 'm' || fmt[1] == 'd') && simple_format(
            fmt.skip(2),
        )
    } else {
        simple_format(fmt.skip(1))
    }
}

/// A simple format applied to a date of years 0 to 9999: the year on four
/// digits, month and day on two, literal characters as they are.
pub open spec fn render_date(fmt: Seq<char>, y: nat, m: nat, d: nat) -> Seq<char>
    decreases fmt.len(),
{
    if fmt.len() == 0 {
        Seq::empty()
    } else if fmt[0] == '%' && fmt.len() >= 2 {
        let field = if fmt[1] == 'Y' {
            padded(y, 4)
        } else if fmt[1] == 'm' {
            padded(m, 2)
        } else {
            padded(d, 2)
        };
        field + render_date(fmt.skip(2), y, m, d)
    } else {
        seq![fmt[0]] + render_date(fmt.skip(1), y, m, d)
    }
}

/// What `chrono::NaiveDate::format` writes for the date with format `fmt`.
pub uninterp spec fn formatted_date(y: int, m: int, d: int, fmt: Seq<char>) -> Option<Seq<char>>;

/// Writes the date with `chrono::NaiveDate::format(fmt)`; `None` when chrono
/// refuses the format string. The contract names the result and states what
/// chrono documents for `%Y`, `%m` and `%d` (zero-padded to four, two and two
/// digits) on years 0 to 9999; other years and specifiers are left unsaid.
#[verifier::external_body]
fn format_date(y: i32, m: u32, d: u32, fmt: &str) -> (r: Option<String>)
    requires
        valid_ymd(y as int, m as int, d as int),
    ensures
        opt_string_view(r) == formatted_date(y as int, m as int, d as int, fmt@),
        simple_format(fmt@) && 0 <= y <= 9999 ==> opt_string_view(r) == Some(render_date(fmt@, y as nat, m as nat, d as nat)),
{
    match NaiveDate::from_ymd_opt(y, m, d) {
        Some(date) => {
            let mut s = String::new();
            match write!(s, "{}", date.format(fmt)) {
                Ok(()) => Some(s),
                Err(_) => None,
            }
        },
        None => None,
    }
}

/// The date `chrono::NaiveDate::parse_from_str` reads from `s` with `fmt`.
pub uninterp spec fn parsed_date(s: Seq<char>, fmt: Seq<char>) -> Option<(i32, u32, u32)>;

/// Reads a date with `chrono::NaiveDate::parse_from_str(s, fmt)` and takes
/// its year, month and day. The contract names the result and says that a
/// date read is a day of the calendar.
#[verifier::external_body]
fn parse_date(s: &str, fmt: &str) -> (r: Option<(i32, u32, u32)>)
    ensures
        r == parsed_date(s@, fmt@),
        r matches Some(t) ==> valid_ymd(t.0 as int, t.1 as int, t.2 as int),
{
    NaiveDate::parse_from_str(s, fmt).ok().map(|d| (d.year(), d.month(), d.day()))
}

/// The format of a journal page's name: `YYYY-MM-DD`.
pub const JOURNAL_NAME_FORMAT: &'static str = "%Y-%m-%d";

/// A day of the calendar, as journal pages are keyed.
#[derive(Clone, Copy, Debug, PartialEq, Eq, Hash, PartialOrd, Ord, Structural)]
pub struct JournalDate {
    year: i32,
    month: u32,
    day: u32,
}

impl JournalDate {
    #[verifier::type_invariant]
    spec fn inv(self) -> bool {
        valid_ymd(self.year as int, self.month as int, self.day as int)
    }

    pub closed spec fn y(self) -> int {
        self.year as int
    }

    pub closed spec fn m(self) -> int {
        self.month as int
    }

    pub closed spec fn d(self) -> int {
        self.day as int
    }

    /// The date, if `(year, month, day)` is a day of the calendar.
    pub fn new(year: i32, month: u32, day: u32) -> (r: Option<JournalDate>)
        ensures
            valid_ymd(year as int, month as int, day as int) <==> r is Some,
            r matches Some(dt) ==> dt.y() == year && dt.m() == month && dt.d() == day,
    {
        if date_exists(year, month, day) {
            Some(JournalDate { year, month, day })
        } else {
            None
        }
    }

    pub fn year(&self) -> (r: i32)
        ensures
            r == self.y(),
    {
        self.year
    }

    pub fn month(&self) -> (r: u32)
        ensures
            r == self.m(),
    {
        self.month
    }

    pub fn day(&self) -> (r: u32)
        ensures
            r == self.d(),
    {
        self.day
    }

    /// The date written with `fmt`, if the date library accepts the format.
    pub fn format(&self, fmt: &str) -> (r: Option<String>)
        ensures
            opt_string_view(r) == formatted_date(self.y(), self.m(), self.d(), fmt@),
            simple_format(fmt@) && 0 <= self.y() <= 9999 ==> opt_string_view(r) == Some(render_date(fmt@, self.y() as nat, self.m() as nat, self.d() as nat)),
    {
        proof {
            use_type_invariant(self);
        }
        format_date(self.year, self.month, self.day, fmt)
    }

    /// The date read from `s` with `fmt`, if it holds one.
    pub fn parse(s: &str, fmt: &str) -> (r: Option<JournalDate>)
        ensures
            match parsed_date(s@, fmt@) {
                Some(t) => r matches Some(dt) && dt.y() == t.0 && dt.m() == t.1 && dt.d() == t.2,
                None => r is None,
            },
    {
        match parse_date(s, fmt) {
            Some((year, month, day)) => Some(JournalDate { year, month, day }),
            None => None,
        }
    }
}

/// Dates with the same year, month and day are equal.
pub proof fn lemma_date_ext(a: JournalDate, b: JournalDate)
    requires
        a.y() == b.y(),
        a.m() == b.m(),
        a.d() == b.d(),
    ensures
        a == b,
{
}

/// The date's ISO name: `YYYY-MM-DD`.
pub open spec fn iso_name(dt: JournalDate) -> Option<Seq<char>> {
    formatted_date(dt.y(), dt.m(), dt.d(), JOURNAL_NAME_FORMAT@)
}

/// Whether `s` is exactly the ISO name (`YYYY-MM-DD`) of a date.
pub open spec fn is_journal_name_spec(s: Seq<char>) -> bool {
    match parsed_date(s, JOURNAL_NAME_FORMAT@) {
        Some(t) => formatted_date(t.0 as int, t.1 as int, t.2 as int, JOURNAL_NAME_FORMAT@) == Some(s),
        None => false,
    }
}

/// Whether `s` is exactly the ISO name (`YYYY-MM-DD`) of a date: it reads as
/// a date and writing that date back gives `s` again.
pub fn is_journal_name(s: &str) -> (r: bool)
    ensures
        r == is_journal_name_spec(s@),
{
    match JournalDate::parse(s, JOURNAL_NAME_FORMAT) {
        Some(dt) => match dt.format(JOURNAL_NAME_FORMAT) {
            Some(back) => back == s.to_owned(),
            None => false,
        },
        None => false,
    }
}

/// The date's page name: `YYYY-MM-DD`.
pub fn display_name(dt: &JournalDate) -> (r: String)
    ensures
        iso_name(*dt) matches Some(n) ==> r@ == n,
        0 <= dt.y() <= 9999 ==> r@ == render_date(JOURNAL_NAME_FORMAT@, dt.y() as nat, dt.m() as nat, dt.d() as nat),
{
    proof {
        lemma_iso_format_simple();
    }
    match dt.format(JOURNAL_NAME_FORMAT) {
        Some(s) => s,
        None => String::new(),
    }
}

/// `YYYY-MM-DD` is a simple format.
pub proof fn lemma_iso_format_simple()
    ensures
        simple_format(JOURNAL_NAME_FORMAT@),
{
    reveal_strlit("%Y-%m-%d");
    let f = JOURNAL_NAME_FORMAT@;
    assert(simple_format(f.skip(8)));
    assert(f.skip(6).skip(2) =~= f.skip(8));
    assert(simple_format(f.skip(6)));
    assert(f.skip(5).skip(1) =~= f.skip(6));
    assert(simple_format(f.skip(5)));
    assert(f.skip(3).skip(2) =~= f.skip(5));
    assert(simple_format(f.skip(3)));
    assert(f.skip(2).skip(1) =~= f.skip(3));
    assert(simple_format(f.skip(2)));
    assert(f.skip(0).skip(2) =~= f.skip(2));
    assert(f.skip(0) =~= f);
}

} // verus!
