use gpui_notes::block_render::{lower, BlockNode};
use gpui_notes::calc::{
    aggregate, parse_tokens, read_line, resolve_call, split_assignment, tokenize, Aggregate, CallError,
    Func, Line, Op, SyntaxError, Tok,
};
use gpui_notes::outline::{IdSource, Outline};

#[test]
fn assignment_splits_off_a_bare_name() {
    assert_eq!(
        split_assignment("total = 1 + 2"),
        (Some("total".to_string()), " 1 + 2".to_string())
    );
    assert_eq!(split_assignment("_x1=3"), (Some("_x1".to_string()), "3".to_string()));
}

#[test]
fn a_non_identifier_left_side_is_no_assignment() {
    assert_eq!(split_assignment("1 + 2 = 3"), (None, "1 + 2 = 3".to_string()));
    assert_eq!(split_assignment("= 3"), (None, "= 3".to_string()));
    assert_eq!(split_assignment("1 + 2"), (None, "1 + 2".to_string()));
}

#[test]
fn tokens_of_an_expression() {
    let (toks, stop) = tokenize("2 * (x + 1.5)");
    assert_eq!(stop, None);
    assert_eq!(
        toks,
        vec![
            Tok::Num("2".into()),
            Tok::Sym('*'),
            Tok::Sym('('),
            Tok::Ident("x".into()),
            Tok::Sym('+'),
            Tok::Num("1.5".into()),
            Tok::Sym(')'),
        ]
    );
}

#[test]
fn percent_sign_or_remainder() {
    assert_eq!(tokenize("250 + 10%").0.last(), Some(&Tok::Percent));
    assert_eq!(tokenize("10% of 250").0[1], Tok::Percent);
    assert_eq!(tokenize("10 % 3").0[1], Tok::Sym('%'));
    assert_eq!(tokenize("10 %of").0[1], Tok::Percent);
    assert_eq!(tokenize("10 %often").0[1], Tok::Sym('%'));
}

#[test]
fn scanning_stops_at_an_unexpected_character() {
    let (toks, stop) = tokenize("1 $ 2");
    assert_eq!(toks, vec![Tok::Num("1".into())]);
    assert_eq!(stop, Some('$'));
}

fn steps(src: &str) -> (Vec<Op>, Option<SyntaxError>) {
    let (toks, stop) = tokenize(src);
    assert_eq!(stop, None);
    parse_tokens(&toks)
}

fn num(s: &str) -> Op {
    Op::Num(s.to_string())
}

#[test]
fn precedence_and_associativity_shape_the_steps() {
    assert_eq!(steps("2 + 3 * 4"), (vec![num("2"), num("3"), num("4"), Op::Mul, Op::Add], None));
    assert_eq!(steps("10 - 2 - 3"), (vec![num("10"), num("2"), Op::Sub, num("3"), Op::Sub], None));
    assert_eq!(steps("2 ^ 3 ^ 2"), (vec![num("2"), num("3"), num("2"), Op::Pow, Op::Pow], None));
    assert_eq!(steps("-2 ^ 2"), (vec![num("2"), num("2"), Op::Pow, Op::Neg], None));
    assert_eq!(steps("- -5"), (vec![num("5"), Op::Neg, Op::Neg], None));
    assert_eq!(steps("+5"), (vec![num("5")], None));
    assert_eq!(steps("(2 + 3) * 4"), (vec![num("2"), num("3"), Op::Add, num("4"), Op::Mul], None));
}

#[test]
fn percentages_and_of() {
    assert_eq!(steps("10% of 250"), (vec![num("10"), Op::Percent, num("250"), Op::Mul], None));
    assert_eq!(steps("250 + 10%"), (vec![num("250"), num("10"), Op::Percent, Op::Add], None));
    assert_eq!(steps("10 % 3"), (vec![num("10"), num("3"), Op::Rem], None));
}

#[test]
fn names_and_calls() {
    assert_eq!(
        steps("sqrt(9) * max(2, 1)"),
        (
            vec![
                num("9"),
                Op::Call("sqrt".to_string(), 1),
                num("2"),
                num("1"),
                Op::Call("max".to_string(), 2),
                Op::Mul
            ],
            None
        )
    );
    assert_eq!(steps("f()"), (vec![Op::Call("f".to_string(), 0)], None));
    assert_eq!(steps("groceries + tip"), (vec![Op::Var("groceries".to_string()), Op::Var("tip".to_string()), Op::Add], None));
}

#[test]
fn syntax_errors_stop_the_reading() {
    assert_eq!(steps("(1 + 2"), (vec![num("1"), num("2"), Op::Add], Some(SyntaxError::Unbalanced)));
    assert_eq!(steps("1 +"), (vec![num("1")], Some(SyntaxError::UnexpectedEnd)));
    assert_eq!(steps("1 2"), (vec![num("1")], Some(SyntaxError::Unexpected(Tok::Num("2".to_string())))));
    assert_eq!(steps("min(1 2)"), (vec![num("1")], Some(SyntaxError::Unbalanced)));
    assert_eq!(steps("1 / 0 +"), (vec![num("1"), num("0"), Op::Div], Some(SyntaxError::UnexpectedEnd)));
    assert_eq!(steps("* 2"), (vec![], Some(SyntaxError::Unexpected(Tok::Sym('*')))));
    assert_eq!(steps(""), (vec![], Some(SyntaxError::UnexpectedEnd)));
}

#[test]
fn lines_read_blank_bound_or_stopped() {
    assert_eq!(read_line("   "), Line::Blank);
    assert_eq!(
        read_line(" x = 1 + 5 "),
        Line::Read {
            name: Some("x".to_string()),
            tokens: vec![Tok::Num("1".to_string()), Tok::Sym('+'), Tok::Num("5".to_string())],
            ops: vec![num("1"), num("5"), Op::Add],
            error: None,
        }
    );
    assert_eq!(
        read_line("1 + 2 = 3"),
        Line::Stopped {
            name: None,
            tokens: vec![Tok::Num("1".to_string()), Tok::Sym('+'), Tok::Num("2".to_string())],
            stop: '=',
        }
    );
    assert_eq!(
        read_line("1 $ 2"),
        Line::Stopped { name: None, tokens: vec![Tok::Num("1".to_string())], stop: '$' }
    );
}

/// The chain from markdown on disk to the calc reader: outline block text,
/// then a `calc`-tagged code block, then its lines.
#[test]
fn a_calc_fence_stored_in_an_outline_reaches_the_evaluator() {
    let mut id_source = IdSource::new();
    let outline = Outline::parse(
        "- Trip\n  - ```calc\n    flights = 420\n    hotel = 3 * 180\n    total\n    ```\n",
        &mut id_source,
    );
    assert_eq!(outline.roots().len(), 1);
    let blocks = lower(&outline.roots()[0].children[0].text, &[]);
    let [BlockNode::CodeBlock { lang, text }] = &blocks[..] else {
        panic!("expected one code block, got {blocks:?}");
    };
    assert_eq!(lang.as_ref().map(AsRef::as_ref), Some("calc"));
    assert_eq!(text, "flights = 420\nhotel = 3 * 180\ntotal\n");

    let names: Vec<Option<String>> = text
        .lines()
        .map(|l| match read_line(l) {
            Line::Read { name, error: None, .. } => name,
            other => panic!("unexpected line {other:?}"),
        })
        .collect();
    assert_eq!(names, vec![Some("flights".to_string()), Some("hotel".to_string()), None]);
}

#[test]
fn calls_resolve_by_name_and_argument_count() {
    assert_eq!(resolve_call("sqrt", 1), Ok(Func::Sqrt));
    assert_eq!(resolve_call("sqrt", 2), Err(CallError::TakesOne));
    assert_eq!(resolve_call("max", 3), Ok(Func::Max));
    assert_eq!(resolve_call("min", 0), Err(CallError::NeedsArguments));
    assert_eq!(resolve_call("frob", 1), Err(CallError::Unknown));
}

#[test]
fn aggregate_names_are_told_from_variables() {
    assert_eq!(aggregate("sum"), Some(Aggregate::Total));
    assert_eq!(aggregate("total"), Some(Aggregate::Total));
    assert_eq!(aggregate("avg"), Some(Aggregate::Average));
    assert_eq!(aggregate("last"), Some(Aggregate::Last));
    assert_eq!(aggregate("flights"), None);
}
