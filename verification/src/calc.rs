//! The text side of `calc` blocks: every line of a calc fence is an
//! arithmetic expression, optionally bound to a name with `name = expr`.
//! This module splits assignments, cuts lines into tokens and reads the
//! tokens into the steps of their evaluation, in the order they happen;
//! numbers stay as their text, to be read and computed by the caller.

use vstd::prelude::*;
use vstd::string::*;
use crate::text::{
    chars_of, is_whitespace, is_ws, opt_string_view, push_char, same_str, str_len, string_of, trim,
    trimmed,
};

verus! {

broadcast use vstd::seq_lib::group_seq_properties;

/// An ASCII letter.
pub open spec fn ascii_alpha(c: char) -> bool {
    ('a' <= c <= 'z') || ('A' <= c <= 'Z')
}

/// An ASCII letter or digit.
pub open spec fn ascii_alnum(c: char) -> bool {
    ascii_alpha(c) || ('0' <= c <= '9')
}

/// A bare identifier: a letter or `_`, then letters, digits or `_`.
pub open spec fn is_ident(n: Seq<char>) -> bool {
    &&& n.len() > 0
    &&& ascii_alpha(n[0]) || n[0] == '_'
    &&& forall|i: int| 0 <= i < n.len() ==> ascii_alnum(#[trigger] n[i]) || n[i] == '_'
}

/// The position of the first `=` in `s`.
pub open spec fn first_eq(s: Seq<char>, i: int) -> Option<int>
    decreases s.len() - i,
{
    if i >= s.len() {
        None
    } else if s[i] == '=' {
        Some(i)
    } else {
        first_eq(s, i + 1)
    }
}

/// `name = expr` split into the bound name and the expression; a line whose
/// left side is not a bare identifier is all expression.
pub open spec fn split_assignment_spec(line: Seq<char>) -> (Option<Seq<char>>, Seq<char>) {
    match first_eq(line, 0) {
        None => (None, line),
        Some(i) => {
            let name = trim(line.take(i));
            if is_ident(name) {
                (Some(name), line.skip(i + 1))
            } else {
                (None, line)
            }
        },
    }
}

fn ascii_alpha_of(c: char) -> (r: bool)
    ensures
        r == ascii_alpha(c),
{
    ('a' <= c && c <= 'z') || ('A' <= c && c <= 'Z')
}

fn ascii_alnum_of(c: char) -> (r: bool)
    ensures
        r == ascii_alnum(c),
{
    ascii_alpha_of(c) || ('0' <= c && c <= '9')
}

/// Splits `name = expr` into its parts. A leading `name =` only counts when
/// `name` is a bare identifier, so `1 + 2 = 3` stays a (failing) expression.
pub fn split_assignment(line: &str) -> (r: (Option<String>, String))
    ensures
        r.0 matches Some(n) ==> split_assignment_spec(line@).0 == Some(n@),
        r.0 is None ==> split_assignment_spec(line@).0 is None,
        r.1@ == split_assignment_spec(line@).1,
{
    let v = chars_of(line);
    let mut i: usize = 0;
    while i < v.len() && v[i] != '='
        invariant
            i <= v.len(),
            v@ == line@,
            first_eq(line@, 0) == first_eq(line@, i as int),
        decreases v.len() - i,
    {
        i += 1;
    }
    if i == v.len() {
        return (None, line.to_owned());
    }
    let name = trimmed(&v, 0, i);
    assert(v@.subrange(0, i as int) =~= line@.take(i as int));
    let nv = chars_of(name.as_str());
    let mut ok = nv.len() > 0 && (ascii_alpha_of(nv[0]) || nv[0] == '_');
    let mut k: usize = 0;
    while k < nv.len()
        invariant
            k <= nv.len(),
            nv@ == name@,
            ok == (nv.len() > 0 && (ascii_alpha(nv@[0]) || nv@[0] == '_') && forall|q: int|
                0 <= q < k ==> ascii_alnum(#[trigger] nv@[q]) || nv@[q] == '_'),
        decreases nv.len() - k,
    {
        if !(ascii_alnum_of(nv[k]) || nv[k] == '_') {
            ok = false;
        }
        k += 1;
    }
    if ok {
        let rhs = string_of(&v, i + 1, v.len());
        assert(v@.subrange(i + 1, v.len() as int) =~= line@.skip(i + 1));
        (Some(name), rhs)
    } else {
        (None, line.to_owned())
    }
}

// ---------------------------------------------------------------------------
// Tokens.

/// Whether `c` has the Unicode `Alphabetic` property (`char::is_alphabetic`).
pub uninterp spec fn alphabetic(c: char) -> bool;

/// Whether `c` is alphabetic or numeric in Unicode (`char::is_alphanumeric`).
pub uninterp spec fn alphanumeric(c: char) -> bool;

/// `char::is_alphabetic`. The contract only names the result.
#[verifier::external_body]
fn is_alphabetic(c: char) -> (r: bool)
    ensures
        r == alphabetic(c),
{
    c.is_alphabetic()
}

/// `char::is_alphanumeric`. The contract names the result and states what
/// std documents: an alphabetic character is alphanumeric.
#[verifier::external_body]
fn is_alphanumeric(c: char) -> (r: bool)
    ensures
        r == alphanumeric(c),
        alphabetic(c) ==> r,
{
    c.is_alphanumeric()
}

/// A token of a calc line.
#[derive(Debug, PartialEq, Eq)]
pub enum Tok {
    /// A number, as its text (digits and dots).
    Num(String),
    Ident(String),
    /// Postfix `%`, as distinct from the `%` remainder operator.
    Percent,
    Sym(char),
}

/// The model of a token.
pub enum TokView {
    Num(Seq<char>),
    Ident(Seq<char>),
    Percent,
    Sym(char),
}

pub open spec fn tok_view(t: Tok) -> TokView {
    match t {
        Tok::Num(s) => TokView::Num(s@),
        Tok::Ident(s) => TokView::Ident(s@),
        Tok::Percent => TokView::Percent,
        Tok::Sym(c) => TokView::Sym(c),
    }
}

pub open spec fn toks_view(v: Seq<Tok>) -> Seq<TokView> {
    v.map_values(|t: Tok| tok_view(t))
}

pub open spec fn num_char(c: char) -> bool {
    ('0' <= c <= '9') || c == '.'
}

pub open spec fn ident_char(c: char) -> bool {
    alphanumeric(c) || c == '_'
}

/// A single-character operator or bracket.
pub open spec fn sym_char(c: char) -> bool {
    c == '+' || c == '-' || c == '*' || c == '/' || c == '^' || c == '(' || c == ')' || c == ','
}

/// The end of the run of number characters starting at `i`.
pub open spec fn num_end(s: Seq<char>, i: int) -> int
    decreases s.len() - i,
{
    if i >= s.len() || !num_char(s[i]) {
        i
    } else {
        num_end(s, i + 1)
    }
}

/// The end of the run of identifier characters starting at `i`.
pub open spec fn ident_end(s: Seq<char>, i: int) -> int
    decreases s.len() - i,
{
    if i >= s.len() || !ident_char(s[i]) {
        i
    } else {
        ident_end(s, i + 1)
    }
}

/// No operand starts `r`: it is empty, starts with a closing operator, or
/// with the word `of`.
pub open spec fn no_operand(r: Seq<char>) -> bool {
    ||| r.len() == 0
    ||| r[0] == '+' || r[0] == '-' || r[0] == '*' || r[0] == '/' || r[0] == '^' || r[0] == ')'
        || r[0] == ',' || r[0] == '%'
    ||| r.len() >= 2 && r[0] == 'o' && r[1] == 'f' && (r.len() == 2 || is_ws(r[2]))
}

/// After a `%`, past white space, no operand follows. Then the `%` is a
/// percent sign, else the remainder operator.
pub open spec fn percent_follows(rest: Seq<char>) -> bool {
    no_operand(crate::text::trim_start(rest))
}

/// The tokens of `s` from position `i`, and the first character that is no
/// token, if any.
#[verifier::opaque]
pub open spec fn tokens_from(s: Seq<char>, i: int) -> (Seq<TokView>, Option<char>)
    decreases s.len() - i, 0int,
{
    if i < 0 || i >= s.len() {
        (Seq::empty(), None)
    } else {
        let c = s[i];
        if is_ws(c) {
            tokens_from(s, i + 1)
        } else if num_char(c) {
            let j = num_end(s, i);
            if j <= i || j > s.len() {
                (Seq::empty(), None)
            } else {
                let rest = tokens_from(s, j);
                (seq![TokView::Num(s.subrange(i, j))] + rest.0, rest.1)
            }
        } else if alphabetic(c) || c == '_' {
            let j = ident_end(s, i);
            if j <= i || j > s.len() {
                (Seq::empty(), None)
            } else {
                let rest = tokens_from(s, j);
                (seq![TokView::Ident(s.subrange(i, j))] + rest.0, rest.1)
            }
        } else if c == '%' {
            let rest = tokens_from(s, i + 1);
            (
                seq![
                    if percent_follows(s.skip(i + 1)) {
                        TokView::Percent
                    } else {
                        TokView::Sym('%')
                    },
                ] + rest.0,
                rest.1,
            )
        } else if sym_char(c) {
            let rest = tokens_from(s, i + 1);
            (seq![TokView::Sym(c)] + rest.0, rest.1)
        } else {
            (Seq::empty(), Some(c))
        }
    }
}

proof fn lemma_num_end(s: Seq<char>, i: int)
    requires
        0 <= i <= s.len(),
    ensures
        i <= num_end(s, i) <= s.len(),
        i < s.len() && num_char(s[i]) ==> num_end(s, i) > i,
    decreases s.len() - i,
{
    if i < s.len() && num_char(s[i]) {
        lemma_num_end(s, i + 1);
    }
}

proof fn lemma_ident_end(s: Seq<char>, i: int)
    requires
        0 <= i <= s.len(),
    ensures
        i <= ident_end(s, i) <= s.len(),
        i < s.len() && ident_char(s[i]) ==> ident_end(s, i) > i,
    decreases s.len() - i,
{
    if i < s.len() && ident_char(s[i]) {
        lemma_ident_end(s, i + 1);
    }
}

fn is_percent_sign(v: &Vec<char>, from: usize) -> (r: bool)
    requires
        from <= v.len(),
    ensures
        r == percent_follows(v@.skip(from as int)),
{
    let mut a = from;
    while a < v.len() && is_whitespace(v[a])
        invariant
            from <= a <= v.len(),
            crate::text::trim_start(v@.skip(from as int)) == crate::text::trim_start(v@.skip(a as int)),
        decreases v.len() - a,
    {
        assert(v@.skip(a as int).drop_first() =~= v@.skip(a + 1));
        a += 1;
    }
    let ghost r = v@.skip(a as int);
    assert(crate::text::trim_start(r) == r);
    if a == v.len() {
        assert(r.len() == 0);
        return true;
    }
    let c = v[a];
    assert(r[0] == c);
    if c == '+' || c == '-' || c == '*' || c == '/' || c == '^' || c == ')' || c == ',' || c == '%' {
        return true;
    }
    if v.len() - a >= 2 && v[a] == 'o' && v[a + 1] == 'f' {
        assert(r[1] == v@[a + 1]);
        if v.len() - a == 2 {
            return true;
        }
        assert(r[2] == v@[a + 2]);
        return is_whitespace(v[a + 2]);
    }
    proof {
        if r.len() >= 2 {
            assert(r[1] == v@[a + 1]);
        }
    }
    false
}

proof fn lemma_tokens_end(s: Seq<char>, i: int)
    requires
        i >= s.len(),
    ensures
        tokens_from(s, i) == (Seq::<TokView>::empty(), Option::<char>::None),
{
    reveal(tokens_from);
}

proof fn lemma_tokens_ws(s: Seq<char>, i: int)
    requires
        0 <= i < s.len(),
        is_ws(s[i]),
    ensures
        tokens_from(s, i) == tokens_from(s, i + 1),
{
    reveal(tokens_from);
}

proof fn lemma_tokens_num(s: Seq<char>, i: int)
    requires
        0 <= i < s.len(),
        !is_ws(s[i]),
        num_char(s[i]),
    ensures
        ({
            let j = num_end(s, i);
            let rest = tokens_from(s, j);
            tokens_from(s, i) == (seq![TokView::Num(s.subrange(i, j))] + rest.0, rest.1)
        }),
{
    lemma_num_end(s, i);
    reveal(tokens_from);
}

proof fn lemma_tokens_ident(s: Seq<char>, i: int)
    requires
        0 <= i < s.len(),
        !is_ws(s[i]),
        !num_char(s[i]),
        alphabetic(s[i]) || s[i] == '_',
        ident_end(s, i) > i,
    ensures
        ({
            let j = ident_end(s, i);
            let rest = tokens_from(s, j);
            tokens_from(s, i) == (seq![TokView::Ident(s.subrange(i, j))] + rest.0, rest.1)
        }),
{
    lemma_ident_end(s, i);
    reveal(tokens_from);
}

proof fn lemma_tokens_percent(s: Seq<char>, i: int)
    requires
        0 <= i < s.len(),
        s[i] == '%',
        !alphabetic(s[i]),
    ensures
        ({
            let rest = tokens_from(s, i + 1);
            tokens_from(s, i) == (
                seq![
                    if percent_follows(s.skip(i + 1)) {
                        TokView::Percent
                    } else {
                        TokView::Sym('%')
                    },
                ] + rest.0,
                rest.1,
            )
        }),
{
    reveal(tokens_from);
    assert(!is_ws('%'));
}

proof fn lemma_tokens_sym(s: Seq<char>, i: int)
    requires
        0 <= i < s.len(),
        sym_char(s[i]),
        !alphabetic(s[i]),
    ensures
        ({
            let rest = tokens_from(s, i + 1);
            tokens_from(s, i) == (seq![TokView::Sym(s[i])] + rest.0, rest.1)
        }),
{
    reveal(tokens_from);
    let c = s[i];
    assert(!is_ws(c));
    assert(!num_char(c));
    assert(c != '_');
    assert(c != '%');
}

proof fn lemma_tokens_stop(s: Seq<char>, i: int)
    requires
        0 <= i < s.len(),
        !is_ws(s[i]),
        !num_char(s[i]),
        !alphabetic(s[i]),
        s[i] != '_',
        s[i] != '%',
        !sym_char(s[i]),
    ensures
        tokens_from(s, i) == (Seq::<TokView>::empty(), Some(s[i])),
{
    reveal(tokens_from);
}

/// Cuts a calc line into tokens, up to the first character that is none:
/// white space separates; digits and dots make a number; a letter or `_`
/// starts a name of letters, digits and `_`; `%` is a percent sign when no
/// operand can follow it, else the remainder operator; `+ - * / ^ ( ) ,` are
/// operators. Returns the tokens and the character that stopped the scan.
pub fn tokenize(input: &str) -> (r: (Vec<Tok>, Option<char>))
    ensures
        (toks_view(r.0@), r.1) == tokens_from(input@, 0),
{
    let v = chars_of(input);
    let ghost s = input@;
    let mut out: Vec<Tok> = Vec::new();
    let mut i: usize = 0;
    assert(toks_view(out@) =~= Seq::<TokView>::empty());
    assert(Seq::<TokView>::empty() + tokens_from(s, 0).0 =~= tokens_from(s, 0).0);
    while i < v.len()
        invariant
            i <= v.len(),
            v@ == s,
            s == input@,
            tokens_from(s, 0) == (toks_view(out@) + tokens_from(s, i as int).0, tokens_from(s, i as int).1),
        decreases v.len() - i,
    {
        let c = v[i];
        let ghost o0 = toks_view(out@);
        let ghost i0 = i as int;
        if is_whitespace(c) {
            proof {
                lemma_tokens_ws(s, i0);
            }
            i += 1;
        } else if ('0' <= c && c <= '9') || c == '.' {
            proof {
                lemma_tokens_num(s, i0);
            }
            let start = i;
            while i < v.len() && (('0' <= v[i] && v[i] <= '9') || v[i] == '.')
                invariant
                    start <= i <= v.len(),
                    v@ == s,
                    num_end(s, start as int) == num_end(s, i as int),
                decreases v.len() - i,
            {
                i += 1;
            }
            let text = string_of(&v, start, i);
            out.push(Tok::Num(text));
            proof {
                let t = seq![TokView::Num(s.subrange(start as int, i as int))];
                assert(toks_view(out@) =~= o0 + t);
                assert(o0 + (t + tokens_from(s, i as int).0) =~= (o0 + t) + tokens_from(s, i as int).0);
            }
        } else if is_alphabetic(c) || c == '_' {
            let _ = is_alphanumeric(c);
            proof {
                lemma_ident_end(s, i0);
                lemma_tokens_ident(s, i0);
            }
            let start = i;
            while i < v.len() && (is_alphanumeric(v[i]) || v[i] == '_')
                invariant
                    start <= i <= v.len(),
                    v@ == s,
                    ident_end(s, start as int) == ident_end(s, i as int),
                decreases v.len() - i,
            {
                i += 1;
            }
            let text = string_of(&v, start, i);
            out.push(Tok::Ident(text));
            proof {
                let t = seq![TokView::Ident(s.subrange(start as int, i as int))];
                assert(toks_view(out@) =~= o0 + t);
                assert(o0 + (t + tokens_from(s, i as int).0) =~= (o0 + t) + tokens_from(s, i as int).0);
            }
        } else if c == '%' {
            proof {
                lemma_tokens_percent(s, i0);
            }
            let pct = is_percent_sign(&v, i + 1);
            out.push(
                if pct {
                    Tok::Percent
                } else {
                    Tok::Sym('%')
                },
            );
            proof {
                let t = seq![
                    if percent_follows(s.skip(i0 + 1)) {
                        TokView::Percent
                    } else {
                        TokView::Sym('%')
                    },
                ];
                assert(toks_view(out@) =~= o0 + t);
                assert(o0 + (t + tokens_from(s, i0 + 1).0) =~= (o0 + t) + tokens_from(s, i0 + 1).0);
            }
            i += 1;
        } else if c == '+' || c == '-' || c == '*' || c == '/' || c == '^' || c == '(' || c == ')' || c
            == ',' {
            proof {
                lemma_tokens_sym(s, i0);
            }
            out.push(Tok::Sym(c));
            proof {
                let t = seq![TokView::Sym(c)];
                assert(toks_view(out@) =~= o0 + t);
                assert(o0 + (t + tokens_from(s, i0 + 1).0) =~= (o0 + t) + tokens_from(s, i0 + 1).0);
            }
            i += 1;
        } else {
            proof {
                lemma_tokens_stop(s, i0);
                assert(o0 + Seq::<TokView>::empty() =~= o0);
            }
            return (out, Some(c));
        }
    }
    proof {
        lemma_tokens_end(s, i as int);
    }
    assert(toks_view(out@) + Seq::<TokView>::empty() =~= toks_view(out@));
    (out, None)
}

// ---------------------------------------------------------------------------
// The grammar. A line is read by recursive descent, as
//   expr  := term (('+' | '-') term)*
//   term  := unary (('*' | '/' | '%' | 'of') unary)*
//   unary := '-' unary | '+'? power
//   power := atom ('^' unary)?
//   atom  := (number | name | name '(' args | '(' expr ')') '%'?
// and the result is the order in which the steps of the evaluation happen
// (operands before their operator), followed by the syntax error that
// stopped the reading, if one did. Evaluating the steps in order, and
// reporting the first step that fails or else the syntax error, gives the
// same answer as evaluating while reading.

/// One step of the evaluation of a line.
#[derive(Debug, PartialEq, Eq)]
pub enum Op {
    /// Push a number, given as its text.
    Num(String),
    /// Push the value bound to a name (or an aggregate such as `sum`).
    Var(String),
    /// Pop that many arguments and push the named function's result.
    Call(String, usize),
    /// Pop a value and push its negation.
    Neg,
    /// Pop the right and then the left operand; push the result.
    Add,
    Sub,
    Mul,
    Div,
    Rem,
    Pow,
    /// Mark the value on top as a percentage.
    Percent,
}

/// The model of a step.
pub enum OpView {
    Num(Seq<char>),
    Var(Seq<char>),
    Call(Seq<char>, nat),
    Neg,
    Add,
    Sub,
    Mul,
    Div,
    Rem,
    Pow,
    Percent,
}

pub open spec fn op_view(o: Op) -> OpView {
    match o {
        Op::Num(s) => OpView::Num(s@),
        Op::Var(s) => OpView::Var(s@),
        Op::Call(s, n) => OpView::Call(s@, n as nat),
        Op::Neg => OpView::Neg,
        Op::Add => OpView::Add,
        Op::Sub => OpView::Sub,
        Op::Mul => OpView::Mul,
        Op::Div => OpView::Div,
        Op::Rem => OpView::Rem,
        Op::Pow => OpView::Pow,
        Op::Percent => OpView::Percent,
    }
}

pub open spec fn ops_view(v: Seq<Op>) -> Seq<OpView> {
    v.map_values(|o: Op| op_view(o))
}

/// Why reading a line stopped.
#[derive(Debug, PartialEq, Eq)]
pub enum SyntaxError {
    /// A `(` without its `)`, or arguments not separated by `,`.
    Unbalanced,
    /// The line ended where an operand was due.
    UnexpectedEnd,
    /// A token where it cannot stand.
    Unexpected(Tok),
}

/// The model of a syntax error.
pub enum SyntaxView {
    Unbalanced,
    UnexpectedEnd,
    Unexpected(TokView),
}

pub open spec fn syntax_view(e: SyntaxError) -> SyntaxView {
    match e {
        SyntaxError::Unbalanced => SyntaxView::Unbalanced,
        SyntaxError::UnexpectedEnd => SyntaxView::UnexpectedEnd,
        SyntaxError::Unexpected(t) => SyntaxView::Unexpected(tok_view(t)),
    }
}

pub open spec fn opt_syntax_view(e: Option<SyntaxError>) -> Option<SyntaxView> {
    match e {
        Some(x) => Some(syntax_view(x)),
        None => None,
    }
}

/// What reading from a position gives: the steps, where reading stopped,
/// and the error that stopped it, if any.
pub struct Parsed {
    pub ops: Seq<OpView>,
    pub pos: int,
    pub err: Option<SyntaxView>,
}

/// The token at `p`, if there is one.
pub open spec fn tok_at(t: Seq<TokView>, p: int) -> Option<TokView> {
    if 0 <= p < t.len() {
        Some(t[p])
    } else {
        None
    }
}

pub open spec fn is_sym(t: Seq<TokView>, p: int, c: char) -> bool {
    tok_at(t, p) == Some(TokView::Sym(c))
}

/// The multiplicative operator a token stands for: `*`, `/`, `%` or the
/// word `of` (which multiplies).
pub open spec fn term_op(k: TokView) -> Option<OpView> {
    match k {
        TokView::Sym(c) => if c == '*' {
            Some(OpView::Mul)
        } else if c == '/' {
            Some(OpView::Div)
        } else if c == '%' {
            Some(OpView::Rem)
        } else {
            None
        },
        TokView::Ident(n) => if n == seq!['o', 'f'] {
            Some(OpView::Mul)
        } else {
            None
        },
        _ => None,
    }
}

/// The additive operator a token stands for.
pub open spec fn expr_op(k: TokView) -> Option<OpView> {
    match k {
        TokView::Sym(c) => if c == '+' {
            Some(OpView::Add)
        } else if c == '-' {
            Some(OpView::Sub)
        } else {
            None
        },
        _ => None,
    }
}

pub open spec fn stopped(ops: Seq<OpView>, pos: int, e: SyntaxView) -> Parsed {
    Parsed { ops, pos, err: Some(e) }
}

pub open spec fn read(ops: Seq<OpView>, pos: int) -> Parsed {
    Parsed { ops, pos, err: None }
}

/// `atom` at `p`.
pub open spec fn atom_spec(t: Seq<TokView>, p: int) -> Parsed
    decreases t.len() - p, 0int,
{
    if p < 0 || p >= t.len() {
        stopped(Seq::empty(), p, SyntaxView::UnexpectedEnd)
    } else {
        let base = match t[p] {
            TokView::Num(s) => read(seq![OpView::Num(s)], p + 1),
            TokView::Ident(n) => if is_sym(t, p + 1, '(') {
                let a = args_spec(t, p + 2);
                if a.0.err is Some {
                    a.0
                } else {
                    read(a.0.ops.push(OpView::Call(n, a.1)), a.0.pos)
                }
            } else {
                read(seq![OpView::Var(n)], p + 1)
            },
            TokView::Sym(c) => if c == '(' {
                let e = expr_spec(t, p + 1);
                if e.err is Some {
                    e
                } else if is_sym(t, e.pos, ')') {
                    read(e.ops, e.pos + 1)
                } else {
                    stopped(e.ops, e.pos, SyntaxView::Unbalanced)
                }
            } else {
                stopped(Seq::empty(), p, SyntaxView::Unexpected(t[p]))
            },
            TokView::Percent => stopped(Seq::empty(), p, SyntaxView::Unexpected(t[p])),
        };
        if base.err is None && tok_at(t, base.pos) == Some(TokView::Percent) {
            read(base.ops.push(OpView::Percent), base.pos + 1)
        } else {
            base
        }
    }
}

/// The arguments of a call, from just after its `(`, and how many there are.
pub open spec fn args_spec(t: Seq<TokView>, p: int) -> (Parsed, nat)
    decreases t.len() - p, 8int,
{
    if is_sym(t, p, ')') {
        (read(Seq::empty(), p + 1), 0)
    } else {
        arg_list_spec(t, p, 0)
    }
}

/// The arguments from `p` on, `n` of them already read.
pub open spec fn arg_list_spec(t: Seq<TokView>, p: int, n: nat) -> (Parsed, nat)
    decreases t.len() - p, 7int,
{
    let e = expr_spec(t, p);
    if e.err is Some {
        (e, n)
    } else if is_sym(t, e.pos, ')') {
        (read(e.ops, e.pos + 1), n + 1)
    } else if is_sym(t, e.pos, ',') && p < e.pos + 1 {
        let r = arg_list_spec(t, e.pos + 1, n + 1);
        (Parsed { ops: e.ops + r.0.ops, pos: r.0.pos, err: r.0.err }, r.1)
    } else {
        (stopped(e.ops, e.pos, SyntaxView::Unbalanced), n)
    }
}

/// `power` at `p`.
pub open spec fn power_spec(t: Seq<TokView>, p: int) -> Parsed
    decreases t.len() - p, 1int,
{
    let a = atom_spec(t, p);
    if a.err is None && is_sym(t, a.pos, '^') && p < a.pos + 1 {
        let u = unary_spec(t, a.pos + 1);
        if u.err is Some {
            Parsed { ops: a.ops + u.ops, pos: u.pos, err: u.err }
        } else {
            read((a.ops + u.ops).push(OpView::Pow), u.pos)
        }
    } else {
        a
    }
}

/// `unary` at `p`.
pub open spec fn unary_spec(t: Seq<TokView>, p: int) -> Parsed
    decreases t.len() - p, 2int,
{
    if is_sym(t, p, '-') {
        let u = unary_spec(t, p + 1);
        if u.err is Some {
            u
        } else {
            read(u.ops.push(OpView::Neg), u.pos)
        }
    } else if is_sym(t, p, '+') {
        power_spec(t, p + 1)
    } else {
        power_spec(t, p)
    }
}

/// `term` at `p`.
pub open spec fn term_spec(t: Seq<TokView>, p: int) -> Parsed
    decreases t.len() - p, 3int,
{
    let u = unary_spec(t, p);
    if u.err is Some || !(p < u.pos <= t.len()) {
        u
    } else {
        let r = term_tail_spec(t, u.pos);
        Parsed { ops: u.ops + r.ops, pos: r.pos, err: r.err }
    }
}

/// The `* unary` steps of a term from `p` on.
pub open spec fn term_tail_spec(t: Seq<TokView>, p: int) -> Parsed
    decreases t.len() - p, 4int,
{
    if 0 <= p < t.len() && term_op(t[p]) is Some {
        let op = term_op(t[p]).unwrap();
        let u = unary_spec(t, p + 1);
        if u.err is Some {
            u
        } else if !(p < u.pos <= t.len()) {
            read(u.ops.push(op), u.pos)
        } else {
            let r = term_tail_spec(t, u.pos);
            Parsed { ops: u.ops.push(op) + r.ops, pos: r.pos, err: r.err }
        }
    } else {
        read(Seq::empty(), p)
    }
}

/// `expr` at `p`.
pub open spec fn expr_spec(t: Seq<TokView>, p: int) -> Parsed
    decreases t.len() - p, 5int,
{
    let a = term_spec(t, p);
    if a.err is Some || !(p < a.pos <= t.len()) {
        a
    } else {
        let r = expr_tail_spec(t, a.pos);
        Parsed { ops: a.ops + r.ops, pos: r.pos, err: r.err }
    }
}

/// The `+ term` steps of an expression from `p` on.
pub open spec fn expr_tail_spec(t: Seq<TokView>, p: int) -> Parsed
    decreases t.len() - p, 6int,
{
    if 0 <= p < t.len() && expr_op(t[p]) is Some {
        let op = expr_op(t[p]).unwrap();
        let u = term_spec(t, p + 1);
        if u.err is Some {
            u
        } else if !(p < u.pos <= t.len()) {
            read(u.ops.push(op), u.pos)
        } else {
            let r = expr_tail_spec(t, u.pos);
            Parsed { ops: u.ops.push(op) + r.ops, pos: r.pos, err: r.err }
        }
    } else {
        read(Seq::empty(), p)
    }
}

/// A whole line: an expression that uses up every token.
pub open spec fn program_spec(t: Seq<TokView>) -> (Seq<OpView>, Option<SyntaxView>) {
    let e = expr_spec(t, 0);
    if e.err is Some {
        (e.ops, e.err)
    } else if 0 <= e.pos < t.len() {
        (e.ops, Some(SyntaxView::Unexpected(t[e.pos])))
    } else {
        (e.ops, None)
    }
}


/// A token that is an operand on its own: a number or a name.
pub open spec fn lone_operand(k: TokView) -> bool {
    k is Num || k is Ident
}

/// The step that pushes a lone operand.
pub open spec fn push_of(k: TokView) -> OpView {
    match k {
        TokView::Num(s) => OpView::Num(s),
        TokView::Ident(n) => OpView::Var(n),
        _ => OpView::Neg,
    }
}

/// The step of `*`, `/` or `%`.
pub open spec fn product_step(c: char) -> OpView {
    if c == '*' {
        OpView::Mul
    } else if c == '/' {
        OpView::Div
    } else {
        OpView::Rem
    }
}

/// Law: the operand after `*`, `/` or `%` may be negated: `a * -b`, for any
/// numbers or names `a` and `b`, reads without error as push `a`, push `b`,
/// negate, then multiply (or divide, or take the remainder).
pub proof fn law_negated_factor(a: TokView, c: char, b: TokView)
    requires
        lone_operand(a),
        lone_operand(b),
        c == '*' || c == '/' || c == '%',
    ensures
        program_spec(seq![a, TokView::Sym(c), TokView::Sym('-'), b]) == (
            seq![push_of(a), push_of(b), OpView::Neg, product_step(c)],
            None::<SyntaxView>,
        ),
{
    let t = seq![a, TokView::Sym(c), TokView::Sym('-'), b];
    let pa = push_of(a);
    let pb = push_of(b);
    assert(tok_at(t, 1) == Some(TokView::Sym(c)));
    assert(atom_spec(t, 0) == read(seq![pa], 1));
    assert(power_spec(t, 0) == read(seq![pa], 1));
    assert(unary_spec(t, 0) == read(seq![pa], 1));
    assert(tok_at(t, 4) is None);
    assert(atom_spec(t, 3) == read(seq![pb], 4));
    assert(power_spec(t, 3) == read(seq![pb], 4));
    assert(unary_spec(t, 3) == read(seq![pb], 4));
    assert(is_sym(t, 2, '-'));
    assert(unary_spec(t, 3).ops.push(OpView::Neg) =~= seq![pb, OpView::Neg]);
    assert(unary_spec(t, 2) == read(seq![pb, OpView::Neg], 4));
    assert(term_op(t[1]) == Some(product_step(c)));
    assert(term_tail_spec(t, 4) == read(Seq::<OpView>::empty(), 4));
    assert(term_tail_spec(t, 1).ops =~= seq![pb, OpView::Neg, product_step(c)]);
    assert(term_spec(t, 0).ops =~= seq![pa, pb, OpView::Neg, product_step(c)]);
    assert(term_spec(t, 0).pos == 4 && term_spec(t, 0).err is None);
    assert(expr_tail_spec(t, 4) == read(Seq::<OpView>::empty(), 4));
    assert(expr_spec(t, 0).ops =~= seq![pa, pb, OpView::Neg, product_step(c)]);
}

/// The step of `+` or `-`.
pub open spec fn sum_step(c: char) -> OpView {
    if c == '+' {
        OpView::Add
    } else {
        OpView::Sub
    }
}

/// A lone operand at `p`, followed by the end or by a symbol that neither
/// opens a call nor raises to a power, reads as itself.
proof fn lemma_lone_at(t: Seq<TokView>, p: int)
    requires
        0 <= p < t.len(),
        lone_operand(t[p]),
        p + 1 == t.len() || (t[p + 1] is Sym && t[p + 1] != TokView::Sym('(') && t[p + 1] != TokView::Sym('^')),
    ensures
        atom_spec(t, p) == read(seq![push_of(t[p])], p + 1),
        power_spec(t, p) == read(seq![push_of(t[p])], p + 1),
        unary_spec(t, p) == read(seq![push_of(t[p])], p + 1),
{
    assert(atom_spec(t, p) == read(seq![push_of(t[p])], p + 1));
    assert(power_spec(t, p) == read(seq![push_of(t[p])], p + 1));
}

/// Law: `*`, `/` and `%` bind tighter than `+` and `-`: `a + b * c`, for
/// any numbers or names, reads without error as push `a`, `b`, `c`, then
/// the product, then the sum.
pub proof fn law_product_before_sum(a: TokView, s: char, b: TokView, m: char, c: TokView)
    requires
        lone_operand(a),
        lone_operand(b),
        lone_operand(c),
        s == '+' || s == '-',
        m == '*' || m == '/' || m == '%',
    ensures
        program_spec(seq![a, TokView::Sym(s), b, TokView::Sym(m), c]) == (
            seq![push_of(a), push_of(b), push_of(c), product_step(m), sum_step(s)],
            None::<SyntaxView>,
        ),
{
    let t = seq![a, TokView::Sym(s), b, TokView::Sym(m), c];
    lemma_lone_at(t, 0);
    lemma_lone_at(t, 2);
    lemma_lone_at(t, 4);
    assert(term_tail_spec(t, 1) == read(Seq::<OpView>::empty(), 1));
    assert(term_spec(t, 0).ops =~= seq![push_of(a)]);
    assert(term_tail_spec(t, 5) == read(Seq::<OpView>::empty(), 5));
    assert(term_op(t[3]) == Some(product_step(m)));
    assert(term_tail_spec(t, 3).ops =~= seq![push_of(c), product_step(m)]);
    assert(term_spec(t, 2).ops =~= seq![push_of(b), push_of(c), product_step(m)]);
    assert(term_spec(t, 2).pos == 5 && term_spec(t, 2).err is None);
    assert(expr_tail_spec(t, 5) == read(Seq::<OpView>::empty(), 5));
    assert(expr_op(t[1]) == Some(sum_step(s)));
    assert(expr_tail_spec(t, 1).ops =~= seq![push_of(b), push_of(c), product_step(m), sum_step(s)]);
    assert(expr_spec(t, 0).ops =~= seq![push_of(a), push_of(b), push_of(c), product_step(m), sum_step(s)]);
}

/// Law: `+` and `-` group from the left: `a - b + c`, for any numbers or
/// names, reads without error as push `a`, `b`, the first step, then `c`
/// and the second step.
pub proof fn law_sums_group_left(a: TokView, s1: char, b: TokView, s2: char, c: TokView)
    requires
        lone_operand(a),
        lone_operand(b),
        lone_operand(c),
        s1 == '+' || s1 == '-',
        s2 == '+' || s2 == '-',
    ensures
        program_spec(seq![a, TokView::Sym(s1), b, TokView::Sym(s2), c]) == (
            seq![push_of(a), push_of(b), sum_step(s1), push_of(c), sum_step(s2)],
            None::<SyntaxView>,
        ),
{
    let t = seq![a, TokView::Sym(s1), b, TokView::Sym(s2), c];
    lemma_lone_at(t, 0);
    lemma_lone_at(t, 2);
    lemma_lone_at(t, 4);
    assert(term_tail_spec(t, 1) == read(Seq::<OpView>::empty(), 1));
    assert(term_tail_spec(t, 3) == read(Seq::<OpView>::empty(), 3));
    assert(term_tail_spec(t, 5) == read(Seq::<OpView>::empty(), 5));
    assert(term_spec(t, 0).ops =~= seq![push_of(a)]);
    assert(term_spec(t, 2).ops =~= seq![push_of(b)]);
    assert(term_spec(t, 4).ops =~= seq![push_of(c)]);
    assert(expr_tail_spec(t, 5) == read(Seq::<OpView>::empty(), 5));
    assert(expr_op(t[1]) == Some(sum_step(s1)));
    assert(expr_op(t[3]) == Some(sum_step(s2)));
    assert(expr_tail_spec(t, 3).ops =~= seq![push_of(c), sum_step(s2)]);
    assert(expr_tail_spec(t, 1).ops =~= seq![push_of(b), sum_step(s1), push_of(c), sum_step(s2)]);
    assert(expr_spec(t, 0).ops =~= seq![push_of(a), push_of(b), sum_step(s1), push_of(c), sum_step(s2)]);
}

fn push_op(out: &mut Vec<Op>, o: Op)
    ensures
        ops_view(final(out)@) == ops_view(old(out)@).push(op_view(o)),
{
    let ghost o0 = out@;
    let ghost ov = op_view(o);
    out.push(o);
    assert(ops_view(out@) =~= ops_view(o0).push(ov));
}

fn copy_tok(k: &Tok) -> (r: Tok)
    ensures
        tok_view(r) == tok_view(*k),
{
    match k {
        Tok::Num(s) => Tok::Num(s.clone()),
        Tok::Ident(s) => Tok::Ident(s.clone()),
        Tok::Percent => Tok::Percent,
        Tok::Sym(c) => Tok::Sym(*c),
    }
}

fn sym_at(t: &[Tok], p: usize, c: char) -> (r: bool)
    ensures
        r == is_sym(toks_view(t@), p as int, c),
        r ==> p < t.len(),
{
    if p < t.len() {
        match &t[p] {
            Tok::Sym(d) => *d == c,
            _ => false,
        }
    } else {
        false
    }
}

fn percent_at(t: &[Tok], p: usize) -> (r: bool)
    ensures
        r == (tok_at(toks_view(t@), p as int) == Some(TokView::Percent)),
{
    if p < t.len() {
        match &t[p] {
            Tok::Percent => true,
            _ => false,
        }
    } else {
        false
    }
}

fn is_of(n: &String) -> (r: bool)
    ensures
        r == (n@ == seq!['o', 'f']),
{
    let cs = chars_of(n.as_str());
    let r = cs.len() == 2 && cs[0] == 'o' && cs[1] == 'f';
    proof {
        if r {
            assert(n@ =~= seq!['o', 'f']);
        }
    }
    r
}

fn term_op_at(t: &[Tok], p: usize) -> (r: Option<Op>)
    requires
        p < t@.len(),
    ensures
        match r {
            Some(o) => term_op(toks_view(t@)[p as int]) == Some(op_view(o)),
            None => term_op(toks_view(t@)[p as int]) is None,
        },
{
    match &t[p] {
        Tok::Sym(c) => if *c == '*' {
            Some(Op::Mul)
        } else if *c == '/' {
            Some(Op::Div)
        } else if *c == '%' {
            Some(Op::Rem)
        } else {
            None
        },
        Tok::Ident(n) => if is_of(n) {
            Some(Op::Mul)
        } else {
            None
        },
        _ => None,
    }
}

fn expr_op_at(t: &[Tok], p: usize) -> (r: Option<Op>)
    requires
        p < t@.len(),
    ensures
        match r {
            Some(o) => expr_op(toks_view(t@)[p as int]) == Some(op_view(o)),
            None => expr_op(toks_view(t@)[p as int]) is None,
        },
{
    match &t[p] {
        Tok::Sym(c) => if *c == '+' {
            Some(Op::Add)
        } else if *c == '-' {
            Some(Op::Sub)
        } else {
            None
        },
        _ => None,
    }
}

/// Reads an `atom` at `p`, appending its steps to `out`.
fn atom(t: &[Tok], p: usize, out: &mut Vec<Op>) -> (r: (usize, Option<SyntaxError>))
    requires
        p <= t@.len(),
    ensures
        ops_view(final(out)@) == ops_view(old(out)@) + atom_spec(toks_view(t@), p as int).ops,
        r.0 == atom_spec(toks_view(t@), p as int).pos,
        opt_syntax_view(r.1) == atom_spec(toks_view(t@), p as int).err,
        p <= r.0 <= t@.len(),
        r.1 is None ==> p < r.0,
    decreases t@.len() - p, 0int,
{
    let ghost tv = toks_view(t@);
    let ghost o0 = ops_view(out@);
    if p >= t.len() {
        assert(o0 + Seq::<OpView>::empty() =~= o0);
        return (p, Some(SyntaxError::UnexpectedEnd));
    }
    let ghost base = match tv[p as int] {
        TokView::Num(s) => read(seq![OpView::Num(s)], p + 1),
        TokView::Ident(n) => if is_sym(tv, p + 1, '(') {
            let a = args_spec(tv, p + 2);
            if a.0.err is Some {
                a.0
            } else {
                read(a.0.ops.push(OpView::Call(n, a.1)), a.0.pos)
            }
        } else {
            read(seq![OpView::Var(n)], p + 1)
        },
        TokView::Sym(c) => if c == '(' {
            let e = expr_spec(tv, p + 1);
            if e.err is Some {
                e
            } else if is_sym(tv, e.pos, ')') {
                read(e.ops, e.pos + 1)
            } else {
                stopped(e.ops, e.pos, SyntaxView::Unbalanced)
            }
        } else {
            stopped(Seq::empty(), p as int, SyntaxView::Unexpected(tv[p as int]))
        },
        TokView::Percent => stopped(Seq::empty(), p as int, SyntaxView::Unexpected(tv[p as int])),
    };
    assert(tv[p as int] == tok_view(t@[p as int]));
    let pos: usize = match &t[p] {
        Tok::Num(s) => {
            push_op(out, Op::Num(s.clone()));
            p + 1
        },
        Tok::Ident(n) => {
            if sym_at(t, p + 1, '(') {
                let (q, count, err) = args(t, p + 2, out);
                if err.is_some() {
                    return (q, err);
                }
                let ghost before = ops_view(out@);
                push_op(out, Op::Call(n.clone(), count));
                assert(ops_view(out@) =~= o0 + args_spec(tv, p + 2).0.ops.push(OpView::Call(n@, count as nat)));
                q
            } else {
                push_op(out, Op::Var(n.clone()));
                assert(ops_view(out@) =~= o0 + seq![OpView::Var(n@)]);
                p + 1
            }
        },
        Tok::Sym(c) => {
            if *c == '(' {
                let (q, err) = expr(t, p + 1, out);
                if err.is_some() {
                    return (q, err);
                }
                if sym_at(t, q, ')') {
                    q + 1
                } else {
                    return (q, Some(SyntaxError::Unbalanced));
                }
            } else {
                assert(o0 + Seq::<OpView>::empty() =~= o0);
                return (p, Some(SyntaxError::Unexpected(Tok::Sym(*c))));
            }
        },
        Tok::Percent => {
            assert(o0 + Seq::<OpView>::empty() =~= o0);
            return (p, Some(SyntaxError::Unexpected(Tok::Percent)));
        },
    };
    assert(ops_view(out@) =~= o0 + base.ops);
    assert(base.err is None && base.pos == pos);
    if percent_at(t, pos) {
        push_op(out, Op::Percent);
        assert(ops_view(out@) =~= o0 + base.ops.push(OpView::Percent));
        (pos + 1, None)
    } else {
        (pos, None)
    }
}

/// Reads the arguments of a call, from just after its `(`.
fn args(t: &[Tok], p: usize, out: &mut Vec<Op>) -> (r: (usize, usize, Option<SyntaxError>))
    requires
        p <= t@.len(),
    ensures
        ops_view(final(out)@) == ops_view(old(out)@) + args_spec(toks_view(t@), p as int).0.ops,
        r.0 == args_spec(toks_view(t@), p as int).0.pos,
        r.1 == args_spec(toks_view(t@), p as int).1,
        opt_syntax_view(r.2) == args_spec(toks_view(t@), p as int).0.err,
        p <= r.0 <= t@.len(),
        r.2 is None ==> p < r.0,
    decreases t@.len() - p, 8int,
{
    if sym_at(t, p, ')') {
        assert(ops_view(out@) =~= ops_view(out@) + Seq::<OpView>::empty());
        return (p + 1, 0, None);
    }
    arg_list(t, p, 0, out)
}

/// Reads arguments from `p` on, `n` of them already read.
fn arg_list(t: &[Tok], p: usize, n: usize, out: &mut Vec<Op>) -> (r: (usize, usize, Option<SyntaxError>))
    requires
        p <= t@.len(),
        n <= p,
    ensures
        ops_view(final(out)@) == ops_view(old(out)@) + arg_list_spec(toks_view(t@), p as int, n as nat).0.ops,
        r.0 == arg_list_spec(toks_view(t@), p as int, n as nat).0.pos,
        r.1 == arg_list_spec(toks_view(t@), p as int, n as nat).1,
        opt_syntax_view(r.2) == arg_list_spec(toks_view(t@), p as int, n as nat).0.err,
        p <= r.0 <= t@.len(),
        r.2 is None ==> p < r.0,
    decreases t@.len() - p, 7int,
{
    let ghost o0 = ops_view(out@);
    let (q, err) = expr(t, p, out);
    if err.is_some() {
        return (q, n, err);
    }
    if sym_at(t, q, ')') {
        return (q + 1, n + 1, None);
    }
    if sym_at(t, q, ',') {
        let ghost o1 = ops_view(out@);
        let r = arg_list(t, q + 1, n + 1, out);
        proof {
            let e = expr_spec(toks_view(t@), p as int);
            let rr = arg_list_spec(toks_view(t@), q + 1, (n + 1) as nat);
            assert(ops_view(out@) =~= o0 + (e.ops + rr.0.ops));
        }
        return r;
    }
    (q, n, Some(SyntaxError::Unbalanced))
}

/// Reads a `power` at `p`.
fn power(t: &[Tok], p: usize, out: &mut Vec<Op>) -> (r: (usize, Option<SyntaxError>))
    requires
        p <= t@.len(),
    ensures
        ops_view(final(out)@) == ops_view(old(out)@) + power_spec(toks_view(t@), p as int).ops,
        r.0 == power_spec(toks_view(t@), p as int).pos,
        opt_syntax_view(r.1) == power_spec(toks_view(t@), p as int).err,
        p <= r.0 <= t@.len(),
        r.1 is None ==> p < r.0,
    decreases t@.len() - p, 1int,
{
    let ghost o0 = ops_view(out@);
    let (q, err) = atom(t, p, out);
    if err.is_some() || !sym_at(t, q, '^') {
        return (q, err);
    }
    let ghost a = atom_spec(toks_view(t@), p as int);
    let (q2, err2) = unary(t, q + 1, out);
    let ghost u = unary_spec(toks_view(t@), q + 1);
    if err2.is_some() {
        assert(ops_view(out@) =~= o0 + (a.ops + u.ops));
        return (q2, err2);
    }
    push_op(out, Op::Pow);
    assert(ops_view(out@) =~= o0 + (a.ops + u.ops).push(OpView::Pow));
    (q2, None)
}

/// Reads a `unary` at `p`.
fn unary(t: &[Tok], p: usize, out: &mut Vec<Op>) -> (r: (usize, Option<SyntaxError>))
    requires
        p <= t@.len(),
    ensures
        ops_view(final(out)@) == ops_view(old(out)@) + unary_spec(toks_view(t@), p as int).ops,
        r.0 == unary_spec(toks_view(t@), p as int).pos,
        opt_syntax_view(r.1) == unary_spec(toks_view(t@), p as int).err,
        p <= r.0 <= t@.len(),
        r.1 is None ==> p < r.0,
    decreases t@.len() - p, 2int,
{
    let ghost o0 = ops_view(out@);
    if sym_at(t, p, '-') {
        let (q, err) = unary(t, p + 1, out);
        if err.is_some() {
            return (q, err);
        }
        let ghost u = unary_spec(toks_view(t@), p + 1);
        push_op(out, Op::Neg);
        assert(ops_view(out@) =~= o0 + u.ops.push(OpView::Neg));
        (q, None)
    } else if sym_at(t, p, '+') {
        power(t, p + 1, out)
    } else {
        power(t, p, out)
    }
}

/// Reads a `term` at `p`.
fn term(t: &[Tok], p: usize, out: &mut Vec<Op>) -> (r: (usize, Option<SyntaxError>))
    requires
        p <= t@.len(),
    ensures
        ops_view(final(out)@) == ops_view(old(out)@) + term_spec(toks_view(t@), p as int).ops,
        r.0 == term_spec(toks_view(t@), p as int).pos,
        opt_syntax_view(r.1) == term_spec(toks_view(t@), p as int).err,
        p <= r.0 <= t@.len(),
        r.1 is None ==> p < r.0,
    decreases t@.len() - p, 3int,
{
    let ghost o0 = ops_view(out@);
    let (q, err) = unary(t, p, out);
    if err.is_some() {
        return (q, err);
    }
    let ghost u = unary_spec(toks_view(t@), p as int);
    let r = term_tail(t, q, out);
    assert(ops_view(out@) =~= o0 + (u.ops + term_tail_spec(toks_view(t@), q as int).ops));
    r
}

/// Reads the `* unary` steps of a term from `p` on.
fn term_tail(t: &[Tok], p: usize, out: &mut Vec<Op>) -> (r: (usize, Option<SyntaxError>))
    requires
        p <= t@.len(),
    ensures
        ops_view(final(out)@) == ops_view(old(out)@) + term_tail_spec(toks_view(t@), p as int).ops,
        r.0 == term_tail_spec(toks_view(t@), p as int).pos,
        opt_syntax_view(r.1) == term_tail_spec(toks_view(t@), p as int).err,
        p <= r.0 <= t@.len(),
    decreases t@.len() - p, 4int,
{
    let ghost o0 = ops_view(out@);
    if p >= t.len() {
        assert(o0 + Seq::<OpView>::empty() =~= o0);
        return (p, None);
    }
    let op = match term_op_at(t, p) {
        Some(op) => op,
        None => {
            assert(o0 + Seq::<OpView>::empty() =~= o0);
            return (p, None);
        },
    };
    let ghost ov = op_view(op);
    let (q, err) = unary(t, p + 1, out);
    if err.is_some() {
        return (q, err);
    }
    let ghost u = unary_spec(toks_view(t@), p + 1);
    push_op(out, op);
    let r = term_tail(t, q, out);
    assert(ops_view(out@) =~= o0 + (u.ops.push(ov) + term_tail_spec(toks_view(t@), q as int).ops));
    r
}

/// Reads an `expr` at `p`.
fn expr(t: &[Tok], p: usize, out: &mut Vec<Op>) -> (r: (usize, Option<SyntaxError>))
    requires
        p <= t@.len(),
    ensures
        ops_view(final(out)@) == ops_view(old(out)@) + expr_spec(toks_view(t@), p as int).ops,
        r.0 == expr_spec(toks_view(t@), p as int).pos,
        opt_syntax_view(r.1) == expr_spec(toks_view(t@), p as int).err,
        p <= r.0 <= t@.len(),
        r.1 is None ==> p < r.0,
    decreases t@.len() - p, 5int,
{
    let ghost o0 = ops_view(out@);
    let (q, err) = term(t, p, out);
    if err.is_some() {
        return (q, err);
    }
    let ghost a = term_spec(toks_view(t@), p as int);
    let r = expr_tail(t, q, out);
    assert(ops_view(out@) =~= o0 + (a.ops + expr_tail_spec(toks_view(t@), q as int).ops));
    r
}

/// Reads the `+ term` steps of an expression from `p` on.
fn expr_tail(t: &[Tok], p: usize, out: &mut Vec<Op>) -> (r: (usize, Option<SyntaxError>))
    requires
        p <= t@.len(),
    ensures
        ops_view(final(out)@) == ops_view(old(out)@) + expr_tail_spec(toks_view(t@), p as int).ops,
        r.0 == expr_tail_spec(toks_view(t@), p as int).pos,
        opt_syntax_view(r.1) == expr_tail_spec(toks_view(t@), p as int).err,
        p <= r.0 <= t@.len(),
    decreases t@.len() - p, 6int,
{
    let ghost o0 = ops_view(out@);
    if p >= t.len() {
        assert(o0 + Seq::<OpView>::empty() =~= o0);
        return (p, None);
    }
    let op = match expr_op_at(t, p) {
        Some(op) => op,
        None => {
            assert(o0 + Seq::<OpView>::empty() =~= o0);
            return (p, None);
        },
    };
    let ghost ov = op_view(op);
    let (q, err) = term(t, p + 1, out);
    if err.is_some() {
        return (q, err);
    }
    let ghost u = term_spec(toks_view(t@), p + 1);
    push_op(out, op);
    let r = expr_tail(t, q, out);
    assert(ops_view(out@) =~= o0 + (u.ops.push(ov) + expr_tail_spec(toks_view(t@), q as int).ops));
    r
}

/// Reads a line's tokens: the steps of its evaluation, in the order they
/// happen, and the syntax error that stopped the reading, if any. Every
/// token must be used: one left over is unexpected.
pub fn parse_tokens(tokens: &[Tok]) -> (r: (Vec<Op>, Option<SyntaxError>))
    ensures
        (ops_view(r.0@), opt_syntax_view(r.1)) == program_spec(toks_view(tokens@)),
{
    let mut out: Vec<Op> = Vec::new();
    assert(ops_view(out@) =~= Seq::<OpView>::empty());
    let (q, err) = expr(tokens, 0, &mut out);
    assert(ops_view(out@) =~= expr_spec(toks_view(tokens@), 0).ops);
    if err.is_some() {
        return (out, err);
    }
    if q < tokens.len() {
        let k = copy_tok(&tokens[q]);
        return (out, Some(SyntaxError::Unexpected(k)));
    }
    (out, None)
}


/// A line of a calc block, read.
#[derive(Debug, PartialEq, Eq)]
pub enum Line {
    /// Nothing but white space.
    Blank,
    /// A character that is no token stopped the reading; `tokens` are those
    /// before it.
    Stopped { name: Option<String>, tokens: Vec<Tok>, stop: char },
    /// The tokens, the steps of the evaluation, and the syntax error that
    /// stopped the reading, if any.
    Read { name: Option<String>, tokens: Vec<Tok>, ops: Vec<Op>, error: Option<SyntaxError> },
}

/// The model of a read line.
pub enum LineView {
    Blank,
    Stopped(Option<Seq<char>>, Seq<TokView>, char),
    Read(Option<Seq<char>>, Seq<TokView>, Seq<OpView>, Option<SyntaxView>),
}

pub open spec fn line_view(l: Line) -> LineView {
    match l {
        Line::Blank => LineView::Blank,
        Line::Stopped { name, tokens, stop } => LineView::Stopped(opt_string_view(name), toks_view(tokens@), stop),
        Line::Read { name, tokens, ops, error } => LineView::Read(
            opt_string_view(name),
            toks_view(tokens@),
            ops_view(ops@),
            opt_syntax_view(error),
        ),
    }
}

/// How a line reads: blank when it is only white space; else, trimmed, its
/// bound name (if any) and expression, the expression's tokens, and either
/// the character that stopped them or the steps they read as.
pub open spec fn line_spec(line: Seq<char>) -> LineView {
    let l = trim(line);
    if l.len() == 0 {
        LineView::Blank
    } else {
        let (name, e) = split_assignment_spec(l);
        let (toks, stop) = tokens_from(e, 0);
        match stop {
            Some(c) => LineView::Stopped(name, toks, c),
            None => {
                let (ops, err) = program_spec(toks);
                LineView::Read(name, toks, ops, err)
            },
        }
    }
}

/// Reads one line of a calc block.
pub fn read_line(line: &str) -> (r: Line)
    ensures
        line_view(r) == line_spec(line@),
{
    let cs = chars_of(line);
    let l = trimmed(&cs, 0, cs.len());
    assert(cs@.subrange(0, cs.len() as int) =~= line@);
    if str_len(l.as_str()) == 0 {
        return Line::Blank;
    }
    let (name, e) = split_assignment(l.as_str());
    assert(opt_string_view(name) == split_assignment_spec(l@).0);
    let (tokens, stop) = tokenize(e.as_str());
    match stop {
        Some(c) => Line::Stopped { name, tokens, stop: c },
        None => {
            let (ops, error) = parse_tokens(tokens.as_slice());
            Line::Read { name, tokens, ops, error }
        },
    }
}


// ---------------------------------------------------------------------------
// What names stand for.

/// A function a calc line can call.
#[derive(Clone, Copy, Debug, PartialEq, Eq, Structural)]
pub enum Func {
    Sqrt,
    Ln,
    Log,
    Abs,
    Round,
    Floor,
    Ceil,
    Min,
    Max,
}

/// Why a call cannot be made.
#[derive(Clone, Copy, Debug, PartialEq, Eq, Structural)]
pub enum CallError {
    /// No function has that name.
    Unknown,
    /// A one-argument function got another count.
    TakesOne,
    /// `min` or `max` got no argument.
    NeedsArguments,
}

/// The function called `name`, if any.
pub open spec fn func_named(name: Seq<char>) -> Option<Func> {
    if name == "sqrt"@ {
        Some(Func::Sqrt)
    } else if name == "ln"@ {
        Some(Func::Ln)
    } else if name == "log"@ {
        Some(Func::Log)
    } else if name == "abs"@ {
        Some(Func::Abs)
    } else if name == "round"@ {
        Some(Func::Round)
    } else if name == "floor"@ {
        Some(Func::Floor)
    } else if name == "ceil"@ {
        Some(Func::Ceil)
    } else if name == "min"@ {
        Some(Func::Min)
    } else if name == "max"@ {
        Some(Func::Max)
    } else {
        None
    }
}

/// A call of `name` with `count` arguments: `min` and `max` take one or
/// more, every other function exactly one.
pub open spec fn resolve_call_spec(name: Seq<char>, count: nat) -> Result<Func, CallError> {
    match func_named(name) {
        None => Err(CallError::Unknown),
        Some(f) => if f == Func::Min || f == Func::Max {
            if count == 0 {
                Err(CallError::NeedsArguments)
            } else {
                Ok(f)
            }
        } else if count == 1 {
            Ok(f)
        } else {
            Err(CallError::TakesOne)
        },
    }
}

/// The function a call of `name` with `count` arguments runs, or why it
/// cannot run.
pub fn resolve_call(name: &str, count: usize) -> (r: Result<Func, CallError>)
    ensures
        r == resolve_call_spec(name@, count as nat),
{
    let f = if same_str(name, "sqrt") {
        Func::Sqrt
    } else if same_str(name, "ln") {
        Func::Ln
    } else if same_str(name, "log") {
        Func::Log
    } else if same_str(name, "abs") {
        Func::Abs
    } else if same_str(name, "round") {
        Func::Round
    } else if same_str(name, "floor") {
        Func::Floor
    } else if same_str(name, "ceil") {
        Func::Ceil
    } else if same_str(name, "min") {
        Func::Min
    } else if same_str(name, "max") {
        Func::Max
    } else {
        return Err(CallError::Unknown);
    };
    match f {
        Func::Min | Func::Max => if count == 0 {
            Err(CallError::NeedsArguments)
        } else {
            Ok(f)
        },
        _ => if count == 1 {
            Ok(f)
        } else {
            Err(CallError::TakesOne)
        },
    }
}

/// A name that stands for the earlier results of the block rather than a
/// variable.
#[derive(Clone, Copy, Debug, PartialEq, Eq, Structural)]
pub enum Aggregate {
    /// `sum` or `total`: all earlier results added up.
    Total,
    /// `avg`: their mean (none when there are no results yet).
    Average,
    /// `last`: the latest one (none when there are no results yet).
    Last,
}

/// The aggregate called `name`, if any; any other name is a variable.
pub open spec fn aggregate_named(name: Seq<char>) -> Option<Aggregate> {
    if name == "sum"@ || name == "total"@ {
        Some(Aggregate::Total)
    } else if name == "avg"@ {
        Some(Aggregate::Average)
    } else if name == "last"@ {
        Some(Aggregate::Last)
    } else {
        None
    }
}

/// Whether `name` stands for an aggregate of the earlier results, and which.
pub fn aggregate(name: &str) -> (r: Option<Aggregate>)
    ensures
        r == aggregate_named(name@),
{
    if same_str(name, "sum") || same_str(name, "total") {
        Some(Aggregate::Total)
    } else if same_str(name, "avg") {
        Some(Aggregate::Average)
    } else if same_str(name, "last") {
        Some(Aggregate::Last)
    } else {
        None
    }
}

} // verus!
