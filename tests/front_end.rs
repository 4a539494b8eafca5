use rust_bs::{tokens_from_matches, BSAst, BSToken, BuildParser, ParseError, ParseErrorKind, MAX_NESTING};

fn w(s: &str) -> BSToken {
    BSToken::Word(s.to_string())
}

fn op(s: &str) -> BSToken {
    BSToken::Operator(s.to_string())
}

fn num(s: &str) -> BSToken {
    BSToken::Numeric(s.to_string())
}

fn n(s: &str) -> Box<BSAst> {
    Box::new(BSAst::Num(s.to_string()))
}

fn id(s: &str) -> BSAst {
    BSAst::Ident(s.to_string())
}

fn parse_src(src: &str) -> Result<BSAst, ParseError> {
    let toks = BuildParser::lex(src).unwrap();
    BuildParser::parse(&toks)
}

fn valid_src(src: &str) -> bool {
    BuildParser::validate(&parse_src(src).unwrap())
}

/// The single statement of a one-line script.
fn stmt(src: &str) -> BSAst {
    match parse_src(src).unwrap() {
        BSAst::Prog(mut v) => {
            assert_eq!(v.len(), 1);
            v.remove(0)
        }
        other => panic!("not a program: {:?}", other),
    }
}

#[test]
fn determinism_same_source_same_result() {
    let src = "set a = [1, 2]\nbatch\ngen *a, \"x\" + 2.5\nend\n";
    assert_eq!(BuildParser::lex(src).unwrap(), BuildParser::lex(src).unwrap());
    assert_eq!(parse_src(src), parse_src(src));
}

#[test]
fn precedence_multiplication_binds_tighter() {
    assert_eq!(
        stmt("2 + 3 * 4"),
        BSAst::ExprAdd(n("2"), Box::new(BSAst::ExprMul(n("3"), n("4"), false)), false)
    );
}

#[test]
fn left_associative_subtraction() {
    assert_eq!(
        stmt("2 - 3 - 4"),
        BSAst::ExprAdd(Box::new(BSAst::ExprAdd(n("2"), n("3"), true)), n("4"), true)
    );
}

#[test]
fn left_associative_division() {
    assert_eq!(
        stmt("8 / 4 * 2"),
        BSAst::ExprMul(Box::new(BSAst::ExprMul(n("8"), n("4"), true)), n("2"), false)
    );
}

#[test]
fn parentheses_group_first() {
    assert_eq!(
        stmt("(1 + 2) * 3"),
        BSAst::ExprMul(Box::new(BSAst::ExprAdd(n("1"), n("2"), false)), n("3"), false)
    );
}

#[test]
fn crlf_lexes_like_lf() {
    assert_eq!(
        BuildParser::lex("set x = 1\r\n").unwrap(),
        BuildParser::lex("set x = 1\n").unwrap()
    );
    assert_eq!(
        BuildParser::lex("gen \"a b\"\r\ngen y\r\n").unwrap(),
        BuildParser::lex("gen \"a b\"\ngen y\n").unwrap()
    );
}

#[test]
fn comment_is_stripped() {
    let with = BuildParser::lex("set x = 1 # comment").unwrap();
    assert_eq!(with, BuildParser::lex("set x = 1").unwrap());
    assert_eq!(with, vec![w("set"), w("x"), op("="), num("1"), BSToken::Break]);
}

#[test]
fn comment_only_line_is_empty_statement() {
    let toks = BuildParser::lex("# just a note\n").unwrap();
    assert_eq!(toks, vec![BSToken::Break]);
    assert_eq!(BuildParser::parse(&toks), Ok(BSAst::Prog(vec![BSAst::Empty])));
}

#[test]
fn lex_kinds_by_first_character() {
    let toks = BuildParser::lex("gen 3.25, \"s t\", abc, *[x]").unwrap();
    assert_eq!(
        toks,
        vec![
            w("gen"),
            num("3.25"),
            op(","),
            BSToken::String("\"s t\"".to_string()),
            op(","),
            w("abc"),
            op(","),
            op("*"),
            op("["),
            w("x"),
            op("]"),
            BSToken::Break,
        ]
    );
}

#[test]
fn lex_one_break_per_line() {
    assert_eq!(BuildParser::lex("").unwrap(), vec![]);
    assert_eq!(BuildParser::lex("a").unwrap(), vec![w("a"), BSToken::Break]);
    assert_eq!(
        BuildParser::lex("a\n\nb\n").unwrap(),
        vec![w("a"), BSToken::Break, BSToken::Break, w("b"), BSToken::Break]
    );
}

#[test]
fn matches_lose_trailing_carriage_return() {
    let ms = vec!["x\r".to_string(), "#c".to_string(), "7\r".to_string(), "".to_string(), "=".to_string()];
    assert_eq!(tokens_from_matches(&ms), vec![w("x"), num("7"), op("=")]);
}

#[test]
fn declare_before_use() {
    assert!(!valid_src("gen y\nset y = 1\n"));
    assert!(valid_src("set y = 1\ngen y\n"));
}

#[test]
fn self_reference_after_declaration() {
    assert!(valid_src("set x = 1\nset x = x + 1\n"));
    // The name is declared before its value is checked.
    assert!(valid_src("set x = x + 1\ngen x\n"));
    assert!(!valid_src("set x = y\nset y = 1\n"));
}

#[test]
fn set_inside_batch_is_invalid() {
    assert!(!valid_src("batch\nset x = 1\nend\n"));
}

#[test]
fn nested_batch_is_rejected() {
    assert_eq!(
        parse_src("batch\nbatch\nend\nend\n"),
        Err(ParseError { kind: ParseErrorKind::NestedBatch, line: 1 })
    );
    let tree = BSAst::Prog(vec![BSAst::Batch(vec![BSAst::Batch(vec![])])]);
    assert!(!BuildParser::validate(&tree));
}

#[test]
fn batch_keeps_its_lines() {
    assert_eq!(
        parse_src("set a = 1\nbatch\ngen a\n\ngen 2\nend\ngen a\n"),
        Ok(BSAst::Prog(vec![
            BSAst::SetVar(Box::new(id("a")), n("1")),
            BSAst::Batch(vec![
                BSAst::Generate(vec![id("a")]),
                BSAst::Empty,
                BSAst::Generate(vec![BSAst::Num("2".to_string())]),
            ]),
            BSAst::Generate(vec![id("a")]),
        ]))
    );
    assert!(valid_src("set a = 1\nbatch\ngen a\n\ngen 2\nend\ngen a\n"));
}

#[test]
fn unpack_rule() {
    assert!(valid_src("set a = [1,2,3]\ngen *a\n"));
    assert!(!valid_src("gen *\"str\"\n"));
    assert!(valid_src("gen *[1]\n"));
    assert!(!valid_src("gen *(1 + 2)\n"));
}

#[test]
fn array_and_unpack_shapes() {
    assert_eq!(
        stmt("set a = [1,2,3]"),
        BSAst::SetVar(
            Box::new(id("a")),
            Box::new(BSAst::Arr(vec![
                BSAst::Num("1".to_string()),
                BSAst::Num("2".to_string()),
                BSAst::Num("3".to_string()),
            ]))
        )
    );
    assert_eq!(stmt("gen *a, b"), BSAst::Generate(vec![BSAst::Unpack(Box::new(id("a"))), id("b")]));
    assert_eq!(stmt("gen"), BSAst::Generate(vec![BSAst::Empty]));
}

#[test]
fn reserved_word_as_term_is_empty() {
    assert_eq!(stmt("end"), BSAst::Empty);
    assert_eq!(stmt("gen set"), BSAst::Generate(vec![BSAst::Empty]));
}

#[test]
fn end_to_end_scenario() {
    let src = "set x = 1\nset y = x + 2\ngen y\n";
    let toks = BuildParser::lex(src).unwrap();
    assert_eq!(
        toks,
        vec![
            w("set"),
            w("x"),
            op("="),
            num("1"),
            BSToken::Break,
            w("set"),
            w("y"),
            op("="),
            w("x"),
            op("+"),
            num("2"),
            BSToken::Break,
            w("gen"),
            w("y"),
            BSToken::Break,
        ]
    );
    let tree = BuildParser::parse(&toks).unwrap();
    assert_eq!(
        tree,
        BSAst::Prog(vec![
            BSAst::SetVar(Box::new(id("x")), n("1")),
            BSAst::SetVar(
                Box::new(id("y")),
                Box::new(BSAst::ExprAdd(Box::new(id("x")), n("2"), false))
            ),
            BSAst::Generate(vec![id("y")]),
        ])
    );
    assert!(BuildParser::validate(&tree));
}

#[test]
fn error_unclosed_batch() {
    assert_eq!(
        parse_src("gen a\nbatch\ngen b\n"),
        Err(ParseError { kind: ParseErrorKind::UnclosedBatch, line: 1 })
    );
}

#[test]
fn error_set_missing_name() {
    assert_eq!(parse_src("set"), Err(ParseError { kind: ParseErrorKind::SetMissingName, line: 0 }));
    assert_eq!(
        parse_src("\nset 1 = 2"),
        Err(ParseError { kind: ParseErrorKind::SetMissingName, line: 1 })
    );
}

#[test]
fn error_set_missing_equals() {
    assert_eq!(parse_src("set x 1"), Err(ParseError { kind: ParseErrorKind::SetMissingEquals, line: 0 }));
    assert_eq!(parse_src("set x"), Err(ParseError { kind: ParseErrorKind::SetMissingEquals, line: 0 }));
}

#[test]
fn error_unclosed_paren() {
    assert_eq!(
        parse_src("gen a\n(1 + 2"),
        Err(ParseError { kind: ParseErrorKind::UnclosedParen, line: 1 })
    );
}

#[test]
fn batch_as_set_value_takes_lines() {
    assert_eq!(
        parse_src("set b = batch\ngen 1\nend"),
        Ok(BSAst::Prog(vec![BSAst::SetVar(
            Box::new(id("b")),
            Box::new(BSAst::Batch(vec![BSAst::Generate(vec![BSAst::Num("1".to_string())])]))
        )]))
    );
}

#[test]
fn nesting_up_to_the_limit_parses() {
    let src = format!("{}1{}", "(".repeat(MAX_NESTING), ")".repeat(MAX_NESTING));
    assert_eq!(stmt(&src), BSAst::Num("1".to_string()));
    let arr = format!("gen {}x", "[".repeat(MAX_NESTING));
    assert!(parse_src(&arr).is_ok());
}

#[test]
fn nesting_beyond_the_limit_is_rejected() {
    let src = format!("gen a\n{}1{}", "(".repeat(MAX_NESTING + 1), ")".repeat(MAX_NESTING + 1));
    assert_eq!(parse_src(&src), Err(ParseError { kind: ParseErrorKind::TooDeep, line: 1 }));
    let arr = format!("{}x", "[".repeat(MAX_NESTING + 1));
    assert_eq!(parse_src(&arr), Err(ParseError { kind: ParseErrorKind::TooDeep, line: 0 }));
}
