use rust_bs::{BSAst, BuildParser, Diagnostic, Rule};

fn diags(src: &str) -> Vec<Diagnostic> {
    let toks = BuildParser::lex(src).unwrap();
    BuildParser::diagnostics(&BuildParser::parse(&toks).unwrap())
}

fn d(rule: Rule, statement: usize) -> Diagnostic {
    Diagnostic { rule, statement }
}

#[test]
fn valid_script_has_no_diagnostics() {
    assert_eq!(diags("set a = [1,2]\nset b = a\ngen *a, b + 1\n"), vec![]);
}

#[test]
fn undeclared_name_reported() {
    assert_eq!(diags("gen y\nset y = 1\n"), vec![d(Rule::UndeclaredName, 0)]);
}

#[test]
fn declaration_in_batch_reported() {
    assert_eq!(diags("batch\nset x = 1\nend\n"), vec![d(Rule::DeclarationInBatch, 0)]);
}

#[test]
fn nested_batch_reported() {
    let tree = BSAst::Prog(vec![BSAst::Empty, BSAst::Batch(vec![BSAst::Batch(vec![])])]);
    assert_eq!(BuildParser::diagnostics(&tree), vec![d(Rule::NestedBatch, 1)]);
}

#[test]
fn bad_unpack_reported() {
    assert_eq!(diags("gen *\"str\"\n"), vec![d(Rule::BadUnpack, 0)]);
}

#[test]
fn bad_target_reported() {
    let tree = BSAst::Prog(vec![BSAst::SetVar(
        Box::new(BSAst::Num("1".to_string())),
        Box::new(BSAst::Num("2".to_string())),
    )]);
    assert_eq!(BuildParser::diagnostics(&tree), vec![d(Rule::BadTarget, 0)]);
    assert!(!BuildParser::validate(&tree));
}

#[test]
fn all_violations_reported_at_once() {
    assert_eq!(
        diags("gen a\ngen b, *1\n"),
        vec![d(Rule::UndeclaredName, 0), d(Rule::UndeclaredName, 1), d(Rule::BadUnpack, 1)]
    );
}
