use vstd::prelude::*;

verus! {

/// A node of the syntax tree; each node owns its children.
#[derive(Debug, PartialEq, Eq)]
pub enum BSAst {
    /// The root: one child per statement.
    Prog(Vec<BSAst>),
    Ident(String),
    /// A block of statements run together once generated.
    Batch(Vec<BSAst>),
    Num(String),
    Str(String),
    Arr(Vec<BSAst>),
    /// A declaration: target identifier and value.
    SetVar(Box<BSAst>, Box<BSAst>),
    /// The argument list of a command.
    Generate(Vec<BSAst>),
    /// A spread argument.
    Unpack(Box<BSAst>),
    /// The empty statement or term.
    Empty,
    /// Left operand, right operand, and whether it is a subtraction.
    ExprAdd(Box<BSAst>, Box<BSAst>, bool),
    /// Left operand, right operand, and whether it is a division.
    ExprMul(Box<BSAst>, Box<BSAst>, bool),
}

/// The mathematical value of a syntax tree.
pub enum Node {
    Prog(Seq<Node>),
    Ident(Seq<char>),
    Batch(Seq<Node>),
    Num(Seq<char>),
    Str(Seq<char>),
    Arr(Seq<Node>),
    SetVar(Box<Node>, Box<Node>),
    Generate(Seq<Node>),
    Unpack(Box<Node>),
    Empty,
    ExprAdd(Box<Node>, Box<Node>, bool),
    ExprMul(Box<Node>, Box<Node>, bool),
}

pub open spec fn ast_view(a: BSAst) -> Node
    decreases a,
{
    match a {
        BSAst::Prog(v) => Node::Prog(ast_views(v@)),
        BSAst::Ident(s) => Node::Ident(s@),
        BSAst::Batch(v) => Node::Batch(ast_views(v@)),
        BSAst::Num(s) => Node::Num(s@),
        BSAst::Str(s) => Node::Str(s@),
        BSAst::Arr(v) => Node::Arr(ast_views(v@)),
        BSAst::SetVar(x, y) => Node::SetVar(Box::new(ast_view(*x)), Box::new(ast_view(*y))),
        BSAst::Generate(v) => Node::Generate(ast_views(v@)),
        BSAst::Unpack(x) => Node::Unpack(Box::new(ast_view(*x))),
        BSAst::Empty => Node::Empty,
        BSAst::ExprAdd(x, y, b) => Node::ExprAdd(Box::new(ast_view(*x)), Box::new(ast_view(*y)), b),
        BSAst::ExprMul(x, y, b) => Node::ExprMul(Box::new(ast_view(*x)), Box::new(ast_view(*y)), b),
    }
}

pub open spec fn ast_views(s: Seq<BSAst>) -> Seq<Node>
    decreases s,
{
    if s.len() == 0 {
        Seq::empty()
    } else {
        ast_views(s.subrange(0, s.len() - 1)).push(ast_view(s[s.len() - 1]))
    }
}

impl View for BSAst {
    type V = Node;

    open spec fn view(&self) -> Node {
        ast_view(*self)
    }
}

pub proof fn lemma_ast_views_push(s: Seq<BSAst>, a: BSAst)
    ensures
        ast_views(s.push(a)) == ast_views(s).push(a@),
{
    assert(s.push(a).subrange(0, s.len() as int) =~= s);
}

pub proof fn lemma_ast_views_index(s: Seq<BSAst>)
    ensures
        ast_views(s).len() == s.len(),
        forall|i: int| 0 <= i < s.len() ==> #[trigger] ast_views(s)[i] == s[i]@,
    decreases s.len(),
{
    if s.len() > 0 {
        lemma_ast_views_index(s.subrange(0, s.len() - 1));
    }
}

} // verus!
