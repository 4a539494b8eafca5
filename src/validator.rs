use vstd::prelude::*;

use crate::ast::{ast_views, lemma_ast_views_index, BSAst, Node};
use crate::BuildParser;

verus! {

/// The names declared so far, as a set.
pub open spec fn names(v: Seq<String>) -> Set<Seq<char>> {
    Set::new(|x: Seq<char>| exists|i: int| 0 <= i < v.len() && v[i]@ == x)
}

/// Validation of `n` with the batch flag and the declared names: the names
/// declared once `n` has been visited, or `None` when a rule fails.
pub open spec fn check(n: Node, in_batch: bool, decl: Set<Seq<char>>) -> Option<Set<Seq<char>>>
    decreases n, 0int,
{
    match n {
        Node::Prog(cs) => check_from(cs, 0, in_batch, decl),
        Node::Batch(cs) => if in_batch {
            None
        } else {
            check_from(cs, 0, true, decl)
        },
        Node::Arr(cs) => check_from(cs, 0, in_batch, decl),
        Node::Generate(cs) => check_from(cs, 0, in_batch, decl),
        Node::SetVar(x, v) => if in_batch {
            None
        } else {
            match *x {
                Node::Ident(name) => check(*v, in_batch, decl.insert(name)),
                _ => None,
            }
        },
        Node::Unpack(x) => match *x {
            Node::Arr(_) => check(*x, in_batch, decl),
            Node::Ident(_) => check(*x, in_batch, decl),
            _ => None,
        },
        Node::ExprAdd(a, b, _) => match check(*a, in_batch, decl) {
            Some(d) => check(*b, in_batch, d),
            None => None,
        },
        Node::ExprMul(a, b, _) => match check(*a, in_batch, decl) {
            Some(d) => check(*b, in_batch, d),
            None => None,
        },
        Node::Ident(s) => if decl.contains(s) {
            Some(decl)
        } else {
            None
        },
        Node::Num(_) => Some(decl),
        Node::Str(_) => Some(decl),
        Node::Empty => Some(decl),
    }
}

/// Validation of the nodes of `cs` from index `i` on, left to right.
pub open spec fn check_from(cs: Seq<Node>, i: int, in_batch: bool, decl: Set<Seq<char>>) -> Option<
    Set<Seq<char>>,
>
    decreases cs, cs.len() - i,
{
    if i < 0 || i >= cs.len() {
        Some(decl)
    } else {
        match check(cs[i], in_batch, decl) {
            Some(d) => check_from(cs, i + 1, in_batch, d),
            None => None,
        }
    }
}

/// Whether a tree keeps every rule: declarations before use, none inside a
/// batch, no batch inside another, and spreads only of arrays and names.
pub open spec fn is_valid(n: Node) -> bool {
    check(n, false, Set::empty()) is Some
}

proof fn lemma_names_push(v: Seq<String>, s: String)
    ensures
        names(v.push(s)) == names(v).insert(s@),
{
    assert forall|x: Seq<char>| names(v.push(s)).contains(x) <==> names(v).insert(s@).contains(x) by {
        if names(v).contains(x) {
            let i = choose|i: int| 0 <= i < v.len() && v[i]@ == x;
            assert(v.push(s)[i] == v[i]);
        }
        if x == s@ {
            assert(v.push(s)[v.len() as int] == s);
        }
        if names(v.push(s)).contains(x) {
            let i = choose|i: int| 0 <= i < v.len() + 1 && v.push(s)[i]@ == x;
            if i < v.len() {
                assert(v[i] == v.push(s)[i]);
            }
        }
    }
    assert(names(v.push(s)) =~= names(v).insert(s@));
}

/// Whether `s` is among the declared names.
fn is_declared(declared: &Vec<String>, s: &String) -> (r: bool)
    ensures
        r == names(declared@).contains(s@),
{
    let mut i: usize = 0;
    while i < declared.len()
        invariant
            i <= declared@.len(),
            forall|j: int| 0 <= j < i ==> declared@[j]@ != s@,
        decreases declared@.len() - i,
    {
        if declared[i] == *s {
            assert(names(declared@).contains(s@));
            return true;
        }
        i = i + 1;
    }
    false
}

/// Validates `tree`, recording the names it declares; stops at the first
/// broken rule.
fn validate_part(tree: &BSAst, in_batch: bool, declared: &mut Vec<String>) -> (r: bool)
    ensures
        r == check(tree@, in_batch, names(old(declared)@)) is Some,
        r ==> check(tree@, in_batch, names(old(declared)@)) == Some(names(final(declared)@)),
    decreases tree, 0int,
{
    match tree {
        BSAst::Prog(v) => validate_children(v, in_batch, declared),
        BSAst::Batch(v) => {
            if in_batch {
                false
            } else {
                validate_children(v, true, declared)
            }
        },
        BSAst::Arr(v) => validate_children(v, in_batch, declared),
        BSAst::Generate(v) => validate_children(v, in_batch, declared),
        BSAst::SetVar(x, val) => {
            if in_batch {
                return false;
            }
            match &**x {
                BSAst::Ident(name) => {
                    assert(x@ == Node::Ident(name@));
                    let copy = name.clone();
                    proof {
                        lemma_names_push(declared@, copy);
                    }
                    declared.push(copy);
                    validate_part(val, in_batch, declared)
                },
                _ => {
                    assert(!(x@ is Ident));
                    false
                },
            }
        },
        BSAst::Unpack(x) => {
            match &**x {
                BSAst::Arr(_) => validate_part(x, in_batch, declared),
                BSAst::Ident(_) => validate_part(x, in_batch, declared),
                _ => {
                    assert(!(x@ is Ident) && !(x@ is Arr));
                    false
                },
            }
        },
        BSAst::ExprAdd(a, b, _) => validate_part(a, in_batch, declared) && validate_part(
            b,
            in_batch,
            declared,
        ),
        BSAst::ExprMul(a, b, _) => validate_part(a, in_batch, declared) && validate_part(
            b,
            in_batch,
            declared,
        ),
        BSAst::Ident(s) => is_declared(declared, s),
        BSAst::Num(_) => true,
        BSAst::Str(_) => true,
        BSAst::Empty => true,
    }
}

/// Validates the nodes of `v` in order.
fn validate_children(v: &Vec<BSAst>, in_batch: bool, declared: &mut Vec<String>) -> (r: bool)
    ensures
        r == check_from(ast_views(v@), 0, in_batch, names(old(declared)@)) is Some,
        r ==> check_from(ast_views(v@), 0, in_batch, names(old(declared)@)) == Some(
            names(final(declared)@),
        ),
    decreases v, 1int,
{
    let ghost cs = ast_views(v@);
    proof {
        lemma_ast_views_index(v@);
    }
    let mut i: usize = 0;
    while i < v.len()
        invariant
            i <= v@.len(),
            cs == ast_views(v@),
            cs.len() == v@.len(),
            forall|j: int| 0 <= j < v@.len() ==> #[trigger] cs[j] == v@[j]@,
            check_from(cs, 0, in_batch, names(old(declared)@)) == check_from(
                cs,
                i as int,
                in_batch,
                names(declared@),
            ),
        decreases v@.len() - i,
    {
        if !validate_part(&v[i], in_batch, declared) {
            return false;
        }
        i = i + 1;
    }
    true
}

/// A rule that a syntax tree can break.
#[derive(Debug, Clone, Copy, PartialEq, Eq, Structural)]
pub enum Rule {
    /// A name used before any declaration of it.
    UndeclaredName,
    /// A declaration inside a batch.
    DeclarationInBatch,
    /// A batch inside another batch.
    NestedBatch,
    /// A spread of something other than an array or a name.
    BadUnpack,
    /// A declaration whose target is not a name.
    BadTarget,
}

/// A broken rule and the index of the top-level statement that breaks it.
#[derive(Debug, Clone, Copy, PartialEq, Eq, Structural)]
pub struct Diagnostic {
    pub rule: Rule,
    pub statement: usize,
}

/// The rules broken while visiting `n`, in visiting order, and the names
/// declared afterwards. A declaration records its name even where it breaks a
/// rule, and a visit goes on below a broken rule.
pub open spec fn findings(n: Node, in_batch: bool, decl: Set<Seq<char>>) -> (Seq<Rule>, Set<Seq<char>>)
    decreases n, 0int,
{
    match n {
        Node::Prog(cs) => findings_from(cs, 0, in_batch, decl),
        Node::Batch(cs) => {
            let (rs, d) = findings_from(cs, 0, true, decl);
            if in_batch {
                (seq![Rule::NestedBatch] + rs, d)
            } else {
                (rs, d)
            }
        },
        Node::Arr(cs) => findings_from(cs, 0, in_batch, decl),
        Node::Generate(cs) => findings_from(cs, 0, in_batch, decl),
        Node::SetVar(x, v) => match *x {
            Node::Ident(name) => {
                let (rs, d) = findings(*v, in_batch, decl.insert(name));
                if in_batch {
                    (seq![Rule::DeclarationInBatch] + rs, d)
                } else {
                    (rs, d)
                }
            },
            _ => {
                let (rs, d) = findings(*v, in_batch, decl);
                (seq![Rule::BadTarget] + rs, d)
            },
        },
        Node::Unpack(x) => match *x {
            Node::Arr(_) => findings(*x, in_batch, decl),
            Node::Ident(_) => findings(*x, in_batch, decl),
            _ => {
                let (rs, d) = findings(*x, in_batch, decl);
                (seq![Rule::BadUnpack] + rs, d)
            },
        },
        Node::ExprAdd(a, b, _) => {
            let (ra, da) = findings(*a, in_batch, decl);
            let (rb, db) = findings(*b, in_batch, da);
            (ra + rb, db)
        },
        Node::ExprMul(a, b, _) => {
            let (ra, da) = findings(*a, in_batch, decl);
            let (rb, db) = findings(*b, in_batch, da);
            (ra + rb, db)
        },
        Node::Ident(s) => if decl.contains(s) {
            (Seq::empty(), decl)
        } else {
            (seq![Rule::UndeclaredName], decl)
        },
        Node::Num(_) => (Seq::empty(), decl),
        Node::Str(_) => (Seq::empty(), decl),
        Node::Empty => (Seq::empty(), decl),
    }
}

/// The findings of the nodes of `cs` from index `i` on, left to right.
pub open spec fn findings_from(cs: Seq<Node>, i: int, in_batch: bool, decl: Set<Seq<char>>) -> (
    Seq<Rule>,
    Set<Seq<char>>,
)
    decreases cs, cs.len() - i,
{
    if i < 0 || i >= cs.len() {
        (Seq::empty(), decl)
    } else {
        let (r1, d1) = findings(cs[i], in_batch, decl);
        let (r2, d2) = findings_from(cs, i + 1, in_batch, d1);
        (r1 + r2, d2)
    }
}

/// The rules `rs`, all charged to top-level statement `k`.
pub open spec fn tagged(rs: Seq<Rule>, k: usize) -> Seq<Diagnostic> {
    rs.map_values(|r: Rule| Diagnostic { rule: r, statement: k })
}

/// The findings of top-level statements `i` on, each charged to its index.
pub open spec fn statement_findings(cs: Seq<Node>, i: int, decl: Set<Seq<char>>) -> Seq<Diagnostic>
    decreases cs.len() - i,
{
    if i < 0 || i >= cs.len() {
        Seq::empty()
    } else {
        let (r1, d1) = findings(cs[i], false, decl);
        tagged(r1, i as usize) + statement_findings(cs, i + 1, d1)
    }
}

/// Every rule broken in a tree, in visiting order, with its statement; a
/// root that is not a program counts as statement zero.
pub open spec fn diagnostics_model(n: Node) -> Seq<Diagnostic> {
    match n {
        Node::Prog(cs) => statement_findings(cs, 0, Set::empty()),
        _ => tagged(findings(n, false, Set::empty()).0, 0),
    }
}

/// A visit finds no broken rule exactly where validation succeeds, and then
/// both end with the same declared names.
pub proof fn lemma_findings_agree(n: Node, in_batch: bool, decl: Set<Seq<char>>)
    ensures
        findings(n, in_batch, decl).0.len() == 0 <==> check(n, in_batch, decl) is Some,
        check(n, in_batch, decl) is Some ==> check(n, in_batch, decl) == Some(
            findings(n, in_batch, decl).1,
        ),
    decreases n, 0int,
{
    match n {
        Node::Prog(cs) => lemma_findings_from_agree(cs, 0, in_batch, decl),
        Node::Batch(cs) => lemma_findings_from_agree(cs, 0, true, decl),
        Node::Arr(cs) => lemma_findings_from_agree(cs, 0, in_batch, decl),
        Node::Generate(cs) => lemma_findings_from_agree(cs, 0, in_batch, decl),
        Node::SetVar(x, v) => match *x {
            Node::Ident(name) => lemma_findings_agree(*v, in_batch, decl.insert(name)),
            _ => {},
        },
        Node::Unpack(x) => lemma_findings_agree(*x, in_batch, decl),
        Node::ExprAdd(a, b, _) => {
            lemma_findings_agree(*a, in_batch, decl);
            lemma_findings_agree(*b, in_batch, findings(*a, in_batch, decl).1);
        },
        Node::ExprMul(a, b, _) => {
            lemma_findings_agree(*a, in_batch, decl);
            lemma_findings_agree(*b, in_batch, findings(*a, in_batch, decl).1);
        },
        _ => {},
    }
}

pub proof fn lemma_findings_from_agree(cs: Seq<Node>, i: int, in_batch: bool, decl: Set<Seq<char>>)
    ensures
        findings_from(cs, i, in_batch, decl).0.len() == 0 <==> check_from(cs, i, in_batch, decl) is Some,
        check_from(cs, i, in_batch, decl) is Some ==> check_from(cs, i, in_batch, decl) == Some(
            findings_from(cs, i, in_batch, decl).1,
        ),
    decreases cs, cs.len() - i,
{
    if 0 <= i < cs.len() {
        lemma_findings_agree(cs[i], in_batch, decl);
        lemma_findings_from_agree(cs, i + 1, in_batch, findings(cs[i], in_batch, decl).1);
    }
}

pub proof fn lemma_statement_findings_agree(cs: Seq<Node>, i: int, decl: Set<Seq<char>>)
    ensures
        statement_findings(cs, i, decl).len() == 0 <==> check_from(cs, i, false, decl) is Some,
    decreases cs.len() - i,
{
    if 0 <= i < cs.len() {
        lemma_findings_agree(cs[i], false, decl);
        lemma_statement_findings_agree(cs, i + 1, findings(cs[i], false, decl).1);
    }
}

/// The diagnostics of a tree are empty exactly when it is valid: collecting
/// every broken rule keeps the verdict of validation.
pub proof fn lemma_diagnostics_iff_invalid(n: Node)
    ensures
        diagnostics_model(n).len() == 0 <==> is_valid(n),
{
    match n {
        Node::Prog(cs) => lemma_statement_findings_agree(cs, 0, Set::empty()),
        _ => lemma_findings_agree(n, false, Set::empty()),
    }
}

proof fn lemma_tagged_concat(a: Seq<Rule>, b: Seq<Rule>, k: usize)
    ensures
        tagged(a + b, k) == tagged(a, k) + tagged(b, k),
{
    assert(tagged(a + b, k) =~= tagged(a, k) + tagged(b, k));
}

/// Records that statement `k` breaks `rule`.
fn report(out: &mut Vec<Diagnostic>, rule: Rule, k: usize)
    ensures
        final(out)@ == old(out)@ + tagged(seq![rule], k),
{
    out.push(Diagnostic { rule, statement: k });
    assert(tagged(seq![rule], k) =~= seq![Diagnostic { rule, statement: k }]);
}

/// Records every rule that `tree` breaks, charged to statement `k`.
fn find_node(
    tree: &BSAst,
    in_batch: bool,
    declared: &mut Vec<String>,
    k: usize,
    out: &mut Vec<Diagnostic>,
)
    ensures
        final(out)@ == old(out)@ + tagged(findings(tree@, in_batch, names(old(declared)@)).0, k),
        names(final(declared)@) == findings(tree@, in_batch, names(old(declared)@)).1,
    decreases tree, 0int,
{
    let ghost o0 = out@;
    let ghost d0 = names(declared@);
    match tree {
        BSAst::Prog(v) => find_all(v, in_batch, declared, k, out),
        BSAst::Batch(v) => {
            if in_batch {
                report(out, Rule::NestedBatch, k);
            }
            find_all(v, true, declared, k, out);
            proof {
                let rs = findings_from(ast_views(v@), 0, true, d0).0;
                lemma_tagged_concat(seq![Rule::NestedBatch], rs, k);
                if in_batch {
                    assert(out@ =~= o0 + tagged(seq![Rule::NestedBatch] + rs, k));
                }
            }
        },
        BSAst::Arr(v) => find_all(v, in_batch, declared, k, out),
        BSAst::Generate(v) => find_all(v, in_batch, declared, k, out),
        BSAst::SetVar(x, val) => {
            match &**x {
                BSAst::Ident(name) => {
                    assert(x@ == Node::Ident(name@));
                    if in_batch {
                        report(out, Rule::DeclarationInBatch, k);
                    }
                    let copy = name.clone();
                    proof {
                        lemma_names_push(declared@, copy);
                    }
                    declared.push(copy);
                    find_node(val, in_batch, declared, k, out);
                    proof {
                        let rs = findings(val@, in_batch, d0.insert(name@)).0;
                        lemma_tagged_concat(seq![Rule::DeclarationInBatch], rs, k);
                        if in_batch {
                            assert(out@ =~= o0 + tagged(seq![Rule::DeclarationInBatch] + rs, k));
                        }
                    }
                },
                _ => {
                    assert(!(x@ is Ident));
                    report(out, Rule::BadTarget, k);
                    find_node(val, in_batch, declared, k, out);
                    proof {
                        let rs = findings(val@, in_batch, d0).0;
                        lemma_tagged_concat(seq![Rule::BadTarget], rs, k);
                        assert(out@ =~= o0 + tagged(seq![Rule::BadTarget] + rs, k));
                    }
                },
            }
        },
        BSAst::Unpack(x) => {
            match &**x {
                BSAst::Arr(_) => find_node(x, in_batch, declared, k, out),
                BSAst::Ident(_) => find_node(x, in_batch, declared, k, out),
                _ => {
                    assert(!(x@ is Ident) && !(x@ is Arr));
                    report(out, Rule::BadUnpack, k);
                    find_node(x, in_batch, declared, k, out);
                    proof {
                        let rs = findings(x@, in_batch, d0).0;
                        lemma_tagged_concat(seq![Rule::BadUnpack], rs, k);
                        assert(out@ =~= o0 + tagged(seq![Rule::BadUnpack] + rs, k));
                    }
                },
            }
        },
        BSAst::ExprAdd(a, b, _) => {
            find_node(a, in_batch, declared, k, out);
            find_node(b, in_batch, declared, k, out);
            proof {
                let (ra, da) = findings(a@, in_batch, d0);
                let rb = findings(b@, in_batch, da).0;
                lemma_tagged_concat(ra, rb, k);
                assert(out@ =~= o0 + tagged(ra + rb, k));
            }
        },
        BSAst::ExprMul(a, b, _) => {
            find_node(a, in_batch, declared, k, out);
            find_node(b, in_batch, declared, k, out);
            proof {
                let (ra, da) = findings(a@, in_batch, d0);
                let rb = findings(b@, in_batch, da).0;
                lemma_tagged_concat(ra, rb, k);
                assert(out@ =~= o0 + tagged(ra + rb, k));
            }
        },
        BSAst::Ident(s) => {
            if !is_declared(declared, s) {
                report(out, Rule::UndeclaredName, k);
            } else {
                assert(out@ =~= o0 + tagged(Seq::empty(), k));
            }
        },
        _ => {
            assert(out@ =~= o0 + tagged(Seq::empty(), k));
        },
    }
}

/// Records every rule that the nodes of `v` break, in order.
fn find_all(v: &Vec<BSAst>, in_batch: bool, declared: &mut Vec<String>, k: usize, out: &mut Vec<Diagnostic>)
    ensures
        final(out)@ == old(out)@ + tagged(
            findings_from(ast_views(v@), 0, in_batch, names(old(declared)@)).0,
            k,
        ),
        names(final(declared)@) == findings_from(ast_views(v@), 0, in_batch, names(old(declared)@)).1,
    decreases v, 1int,
{
    let ghost cs = ast_views(v@);
    let ghost o0 = out@;
    let ghost d0 = names(declared@);
    let ghost mut done: Seq<Rule> = Seq::empty();
    proof {
        lemma_ast_views_index(v@);
        assert(done + findings_from(cs, 0, in_batch, d0).0 =~= findings_from(cs, 0, in_batch, d0).0);
        assert(o0 + tagged(done, k) =~= o0);
    }
    let mut i: usize = 0;
    while i < v.len()
        invariant
            i <= v@.len(),
            cs == ast_views(v@),
            cs.len() == v@.len(),
            forall|j: int| 0 <= j < v@.len() ==> #[trigger] cs[j] == v@[j]@,
            findings_from(cs, 0, in_batch, d0).0 == done + findings_from(
                cs,
                i as int,
                in_batch,
                names(declared@),
            ).0,
            findings_from(cs, 0, in_batch, d0).1 == findings_from(
                cs,
                i as int,
                in_batch,
                names(declared@),
            ).1,
            out@ == o0 + tagged(done, k),
        decreases v@.len() - i,
    {
        let ghost di = names(declared@);
        find_node(&v[i], in_batch, declared, k, out);
        proof {
            let (r1, d1) = findings(cs[i as int], in_batch, di);
            let r2 = findings_from(cs, i + 1, in_batch, d1).0;
            assert(done + (r1 + r2) =~= (done + r1) + r2);
            lemma_tagged_concat(done, r1, k);
            assert(out@ =~= o0 + tagged(done + r1, k));
            done = done + r1;
        }
        i = i + 1;
    }
    proof {
        assert(done + Seq::<Rule>::empty() =~= done);
    }
}

impl BuildParser {
    /// Whether a syntax tree keeps the scoping and nesting rules.
    pub fn validate(tree: &BSAst) -> (r: bool)
        ensures
            r == is_valid(tree@),
    {
        let mut declared: Vec<String> = Vec::new();
        assert(names(declared@) =~= Set::empty());
        validate_part(tree, false, &mut declared)
    }

    /// Every rule that a syntax tree breaks, in visiting order, each with the
    /// index of its top-level statement. The list is empty exactly when
    /// `validate` accepts the tree.
    pub fn diagnostics(tree: &BSAst) -> (r: Vec<Diagnostic>)
        ensures
            r@ == diagnostics_model(tree@),
            r@.len() == 0 <==> is_valid(tree@),
    {
        proof {
            lemma_diagnostics_iff_invalid(tree@);
        }
        let mut declared: Vec<String> = Vec::new();
        let mut out: Vec<Diagnostic> = Vec::new();
        assert(names(declared@) =~= Set::empty());
        match tree {
            BSAst::Prog(v) => {
                let ghost cs = ast_views(v@);
                proof {
                    lemma_ast_views_index(v@);
                }
                let mut i: usize = 0;
                assert(out@ + statement_findings(cs, 0, Set::empty()) =~= statement_findings(
                    cs,
                    0,
                    Set::empty(),
                ));
                while i < v.len()
                    invariant
                        i <= v@.len(),
                        cs == ast_views(v@),
                        cs.len() == v@.len(),
                        forall|j: int| 0 <= j < v@.len() ==> #[trigger] cs[j] == v@[j]@,
                        statement_findings(cs, 0, Set::empty()) == out@ + statement_findings(
                            cs,
                            i as int,
                            names(declared@),
                        ),
                    decreases v@.len() - i,
                {
                    let ghost di = names(declared@);
                    let ghost oi = out@;
                    find_node(&v[i], false, &mut declared, i, &mut out);
                    proof {
                        let (r1, d1) = findings(cs[i as int], false, di);
                        let rest = statement_findings(cs, i + 1, d1);
                        assert(oi + (tagged(r1, i) + rest) =~= (oi + tagged(r1, i)) + rest);
                    }
                    i = i + 1;
                }
                assert(out@ + Seq::<Diagnostic>::empty() =~= out@);
                out
            },
            _ => {
                find_node(tree, false, &mut declared, 0, &mut out);
                assert(out@ =~= Seq::<Diagnostic>::empty() + tagged(
                    findings(tree@, false, Set::empty()).0,
                    0,
                ));
                out
            },
        }
    }
}

} // verus!
