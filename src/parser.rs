use vstd::prelude::*;

use crate::ast::{ast_views, lemma_ast_views_push, BSAst, Node};
use crate::lexer::lex_model;
use crate::token::{toks_view, BSToken, Tok};
use crate::BuildParser;

verus! {

/// What went wrong in a script that cannot be parsed.
#[derive(Debug, Clone, Copy, PartialEq, Eq, Structural)]
pub enum ParseErrorKind {
    /// A `batch` line with no `end` line after it.
    UnclosedBatch,
    /// A `batch` line inside an open batch.
    NestedBatch,
    /// A `set` not followed by a name.
    SetMissingName,
    /// A `set` name not followed by `=`.
    SetMissingEquals,
    /// A `(` with no matching `)`.
    UnclosedParen,
    /// Brackets nested deeper than `MAX_NESTING`.
    TooDeep,
}

/// How deeply parentheses and array brackets may nest; the parser's depth of
/// recursion grows with it.
pub const MAX_NESTING: usize = 200;

/// A parse failure and the index (from zero) of the line where it was found.
#[derive(Debug, Clone, Copy, PartialEq, Eq, Structural)]
pub struct ParseError {
    pub kind: ParseErrorKind,
    pub line: usize,
}

/// The words that never stand for a variable.
pub open spec fn is_reserved(w: Seq<char>) -> bool {
    w == "gen"@ || w == "set"@ || w == "batch"@ || w == "end"@
}

/// The result of an expression parser: a node and the number of tokens it used.
pub type ExprResult = Result<(Node, nat), ParseErrorKind>;

/// `Term := "(" AddExpr ")" | NUMBER | STRING | IDENT`; anything else is the
/// empty node and uses no token.
pub open spec fn parse_term(t: Seq<Tok>, depth: nat) -> ExprResult
    decreases t.len(), 0nat, 0int,
{
    if t.len() == 0 {
        Ok((Node::Empty, 0))
    } else if t[0] == Tok::Operator("("@) {
        if depth >= MAX_NESTING {
            Err(ParseErrorKind::TooDeep)
        } else {
            match parse_add(t.subrange(1, t.len() as int), depth + 1) {
                Err(e) => Err(e),
                Ok((n, k)) => {
                    if 1 + k < t.len() && t[1 + k as int] == Tok::Operator(")"@) {
                        Ok((n, k + 2))
                    } else {
                        Err(ParseErrorKind::UnclosedParen)
                    }
                },
            }
        }
    } else {
        match t[0] {
            Tok::Numeric(s) => Ok((Node::Num(s), 1)),
            Tok::Str(s) => Ok((Node::Str(s), 1)),
            Tok::Word(s) => if is_reserved(s) {
                Ok((Node::Empty, 0))
            } else {
                Ok((Node::Ident(s), 1))
            },
            _ => Ok((Node::Empty, 0)),
        }
    }
}

/// `MulExpr := Term (("*" | "/") Term)*`, folded to the left.
pub open spec fn parse_mul(t: Seq<Tok>, depth: nat) -> ExprResult
    decreases t.len(), 2nat, 0int,
{
    match parse_term(t, depth) {
        Err(e) => Err(e),
        Ok((n, k)) => mul_tail(t, n, k, depth),
    }
}

/// The rest of a product whose operands before `pos` fold to `acc`.
pub open spec fn mul_tail(t: Seq<Tok>, acc: Node, pos: nat, depth: nat) -> ExprResult
    decreases t.len(), 1nat, t.len() - pos,
{
    if pos < t.len() && (t[pos as int] == Tok::Operator("*"@) || t[pos as int] == Tok::Operator(
        "/"@,
    )) {
        match parse_term(t.subrange(pos + 1 as int, t.len() as int), depth) {
            Err(e) => Err(e),
            // The bound keeps the measure of termination non-negative.
            Ok((r, k)) => if pos + 1 + k <= t.len() {
                mul_tail(
                    t,
                    Node::ExprMul(Box::new(acc), Box::new(r), t[pos as int] == Tok::Operator("/"@)),
                    pos + 1 + k,
                    depth,
                )
            } else {
                Ok((acc, pos))
            },
        }
    } else {
        Ok((acc, pos))
    }
}

/// `AddExpr := MulExpr (("+" | "-") MulExpr)*`, folded to the left.
pub open spec fn parse_add(t: Seq<Tok>, depth: nat) -> ExprResult
    decreases t.len(), 4nat, 0int,
{
    match parse_mul(t, depth) {
        Err(e) => Err(e),
        Ok((n, k)) => add_tail(t, n, k, depth),
    }
}

/// The rest of a sum whose operands before `pos` fold to `acc`.
pub open spec fn add_tail(t: Seq<Tok>, acc: Node, pos: nat, depth: nat) -> ExprResult
    decreases t.len(), 3nat, t.len() - pos,
{
    if pos < t.len() && (t[pos as int] == Tok::Operator("+"@) || t[pos as int] == Tok::Operator(
        "-"@,
    )) {
        match parse_mul(t.subrange(pos + 1 as int, t.len() as int), depth) {
            Err(e) => Err(e),
            // The bound keeps the measure of termination non-negative.
            Ok((r, k)) => if pos + 1 + k <= t.len() {
                add_tail(
                    t,
                    Node::ExprAdd(Box::new(acc), Box::new(r), t[pos as int] == Tok::Operator("-"@)),
                    pos + 1 + k,
                    depth,
                )
            } else {
                Ok((acc, pos))
            },
        }
    } else {
        Ok((acc, pos))
    }
}

/// The index of the first comma at or after `from`, or the length of `t`.
pub open spec fn next_comma(t: Seq<Tok>, from: int) -> int
    decreases t.len() - from,
{
    if from >= t.len() {
        t.len() as int
    } else if t[from] == Tok::Operator(","@) {
        from
    } else {
        next_comma(t, from + 1)
    }
}

pub proof fn lemma_next_comma(t: Seq<Tok>, from: int)
    requires
        0 <= from <= t.len(),
    ensures
        from <= next_comma(t, from) <= t.len(),
    decreases t.len() - from,
{
    if from < t.len() && t[from] != Tok::Operator(","@) {
        lemma_next_comma(t, from + 1);
    }
}

/// A successful list result with `d` put in front.
pub open spec fn prepend<E>(d: Seq<Node>, r: Result<Seq<Node>, E>) -> Result<Seq<Node>, E> {
    match r {
        Ok(ns) => Ok(d + ns),
        Err(e) => Err(e),
    }
}

/// An element of an array or an argument of `gen`: an array literal when it
/// starts with `[`, else a sum. Tokens after it are ignored.
pub open spec fn parse_elem(t: Seq<Tok>, depth: nat) -> Result<Node, ParseErrorKind>
    decreases t.len(), 1nat, 0int,
{
    if t.len() > 0 && t[0] == Tok::Operator("["@) {
        if depth >= MAX_NESTING {
            Err(ParseErrorKind::TooDeep)
        } else {
            match arr_items(t.subrange(1, t.len() as int), 0, depth + 1) {
                Ok(ns) => Ok(Node::Arr(ns)),
                Err(e) => Err(e),
            }
        }
    } else {
        match parse_add(t, depth) {
            Ok((n, _)) => Ok(n),
            Err(e) => Err(e),
        }
    }
}

/// The elements of an array literal from `from` on, one per comma-separated
/// piece; a closing `]` is left unread.
pub open spec fn arr_items(t: Seq<Tok>, from: int, depth: nat) -> Result<
    Seq<Node>,
    ParseErrorKind,
>
    decreases t.len() + 1, 0nat, t.len() - from,
    when 0 <= from <= t.len()
{
    let j = next_comma(t, from);
    proof {
        lemma_next_comma(t, from);
    }
    match parse_elem(t.subrange(from, j), depth) {
        Err(e) => Err(e),
        Ok(n) => if j < t.len() {
            prepend(seq![n], arr_items(t, j + 1, depth))
        } else {
            Ok(seq![n])
        },
    }
}

/// An argument of `gen`: `*` and an element, or an element.
pub open spec fn parse_arg(t: Seq<Tok>) -> Result<Node, ParseErrorKind> {
    if t.len() > 0 && t[0] == Tok::Operator("*"@) {
        match parse_elem(t.subrange(1, t.len() as int), 0) {
            Ok(n) => Ok(Node::Unpack(Box::new(n))),
            Err(e) => Err(e),
        }
    } else {
        parse_elem(t, 0)
    }
}

/// The arguments of `gen` from `from` on, one per comma-separated piece.
pub open spec fn gen_args(t: Seq<Tok>, from: int) -> Result<Seq<Node>, ParseErrorKind>
    decreases t.len() - from,
    when 0 <= from <= t.len()
{
    let j = next_comma(t, from);
    proof {
        lemma_next_comma(t, from);
    }
    match parse_arg(t.subrange(from, j)) {
        Err(e) => Err(e),
        Ok(n) => if j < t.len() {
            prepend(seq![n], gen_args(t, j + 1))
        } else {
            Ok(seq![n])
        },
    }
}

/// A line that holds the single word `w`.
pub open spec fn is_line_of(l: Seq<Tok>, w: Seq<char>) -> bool {
    l.len() == 1 && l[0] == Tok::Word(w)
}

/// A line whose first token is the word `batch`.
pub open spec fn starts_batch(l: Seq<Tok>) -> bool {
    l.len() > 0 && l[0] == Tok::Word("batch"@)
}

/// The index of the first line from `i` on that closes or nests a batch, or
/// the number of lines.
pub open spec fn batch_end(rest: Seq<Seq<Tok>>, i: int) -> int
    decreases rest.len() - i,
{
    if i >= rest.len() {
        rest.len() as int
    } else if is_line_of(rest[i], "end"@) || starts_batch(rest[i]) {
        i
    } else {
        batch_end(rest, i + 1)
    }
}

pub proof fn lemma_batch_end(rest: Seq<Seq<Tok>>, i: int)
    requires
        0 <= i <= rest.len(),
    ensures
        i <= batch_end(rest, i) <= rest.len(),
    decreases rest.len() - i,
{
    if i < rest.len() && !(is_line_of(rest[i], "end"@) || starts_batch(rest[i])) {
        lemma_batch_end(rest, i + 1);
    }
}

/// One statement: the tokens of line `at` and the lines after it. On success,
/// the node and how many of the following lines it took.
pub open spec fn statement(line: Seq<Tok>, at: nat, rest: Seq<Seq<Tok>>) -> Result<(Node, nat), ParseError>
    decreases rest.len() + 1, 0nat, line.len(),
{
    if line.len() == 0 {
        Ok((Node::Empty, 0))
    } else if line[0] == Tok::Word("batch"@) {
        let k = batch_end(rest, 0);
        proof {
            lemma_batch_end(rest, 0);
        }
        if k >= rest.len() {
            Err(ParseError { kind: ParseErrorKind::UnclosedBatch, line: at as usize })
        } else if starts_batch(rest[k]) {
            Err(ParseError { kind: ParseErrorKind::NestedBatch, line: (at + 1 + k) as usize })
        } else {
            match statements(rest.subrange(0, k), at + 1) {
                Ok(ns) => Ok((Node::Batch(ns), (k + 1) as nat)),
                Err(e) => Err(e),
            }
        }
    } else if line[0] == Tok::Word("set"@) {
        if line.len() < 2 || !(line[1] is Word) {
            Err(ParseError { kind: ParseErrorKind::SetMissingName, line: at as usize })
        } else if line.len() < 3 || line[2] != Tok::Operator("="@) {
            Err(ParseError { kind: ParseErrorKind::SetMissingEquals, line: at as usize })
        } else {
            match statement(line.subrange(3, line.len() as int), at, rest) {
                Ok((v, c)) => Ok(
                    (Node::SetVar(Box::new(Node::Ident(line[1]->Word_0)), Box::new(v)), c),
                ),
                Err(e) => Err(e),
            }
        }
    } else if line[0] == Tok::Word("gen"@) {
        match gen_args(line.subrange(1, line.len() as int), 0) {
            Ok(ns) => Ok((Node::Generate(ns), 0)),
            Err(k) => Err(ParseError { kind: k, line: at as usize }),
        }
    } else {
        match parse_elem(line, 0) {
            Ok(n) => Ok((n, 0)),
            Err(k) => Err(ParseError { kind: k, line: at as usize }),
        }
    }
}

/// The statements of `lines`, the first of which is line `at`.
pub open spec fn statements(lines: Seq<Seq<Tok>>, at: nat) -> Result<Seq<Node>, ParseError>
    decreases lines.len(), 1nat, 0int,
{
    if lines.len() == 0 {
        Ok(Seq::empty())
    } else {
        match statement(lines[0], at, lines.subrange(1, lines.len() as int)) {
            Err(e) => Err(e),
            // The bound keeps the measure of termination non-negative.
            Ok((n, c)) => if 1 + c <= lines.len() {
                prepend(seq![n], statements(lines.subrange(1 + c as int, lines.len() as int), at + 1 + c))
            } else {
                Ok(seq![n])
            },
        }
    }
}

/// The lines of a token sequence: the pieces between `Break` tokens.
pub open spec fn split_lines(t: Seq<Tok>) -> Seq<Seq<Tok>>
    decreases t.len(),
{
    if t.len() == 0 {
        seq![Seq::empty()]
    } else {
        let p = split_lines(t.subrange(0, t.len() - 1));
        if t[t.len() - 1] == Tok::Break {
            p.push(Seq::empty())
        } else {
            p.update(p.len() - 1, p[p.len() - 1].push(t[t.len() - 1]))
        }
    }
}

/// The lines of a token sequence, each ended by a `Break`; tokens after the
/// last `Break` form one more line.
pub open spec fn token_lines(t: Seq<Tok>) -> Seq<Seq<Tok>> {
    let p = split_lines(t);
    if p[p.len() - 1].len() == 0 {
        p.subrange(0, p.len() - 1)
    } else {
        p
    }
}

pub proof fn lemma_split_lines_len(t: Seq<Tok>)
    ensures
        split_lines(t).len() >= 1,
    decreases t.len(),
{
    if t.len() > 0 {
        lemma_split_lines_len(t.subrange(0, t.len() - 1));
    }
}

/// The syntax tree of a token sequence, or the first error in it.
pub open spec fn parse_model(t: Seq<Tok>) -> Result<Node, ParseError> {
    match statements(token_lines(t), 0) {
        Ok(ns) => Ok(Node::Prog(ns)),
        Err(e) => Err(e),
    }
}

/// Whether an executable expression result agrees with its model, where the
/// model counts tokens from `lo`.
pub open spec fn expr_agrees(r: Result<(BSAst, usize), ParseErrorKind>, m: ExprResult, lo: int) -> bool {
    match (r, m) {
        (Ok((a, p)), Ok((n, k))) => a@ == n && p == lo + k,
        (Err(e), Err(f)) => e == f,
        _ => false,
    }
}

/// The tokens from `lo` up to `hi`, as values.
pub open spec fn span(toks: Seq<BSToken>, lo: int, hi: int) -> Seq<Tok> {
    toks_view(toks).subrange(lo, hi)
}

/// Whether `s` is one of the reserved words.
fn is_reserved_word(s: &String) -> (r: bool)
    ensures
        r == is_reserved(s@),
{
    let w = s.as_str();
    crate::token::str_eq(w, "gen") || crate::token::str_eq(w, "set") || crate::token::str_eq(w, "batch")
        || crate::token::str_eq(w, "end")
}

/// Parses a term from token `lo`, reading no further than `hi`; on success,
/// the node and the position after it.
fn parse_term_expr(toks: &Vec<BSToken>, lo: usize, hi: usize, depth: usize) -> (r: Result<(BSAst, usize), ParseErrorKind>)
    requires
        lo <= hi <= toks@.len(),
        depth <= MAX_NESTING,
    ensures
        expr_agrees(r, parse_term(span(toks@, lo as int, hi as int), depth as nat), lo as int),
        r matches Ok((_, p)) ==> lo <= p <= hi,
    decreases hi - lo, 0nat, 0int,
{
    let ghost t = span(toks@, lo as int, hi as int);
    if lo == hi {
        return Ok((BSAst::Empty, lo));
    }
    assert(t[0] == toks@[lo as int]@);
    let tok = &toks[lo];
    if tok.is_operator("(") {
        if depth >= MAX_NESTING {
            return Err(ParseErrorKind::TooDeep);
        }
        assert(t.subrange(1, t.len() as int) =~= span(toks@, lo + 1, hi as int));
        match parse_add_expr(toks, lo + 1, hi, depth + 1) {
            Err(e) => Err(e),
            Ok((n, p)) => {
                if p < hi && toks[p].is_operator(")") {
                    assert(t[p - lo] == toks@[p as int]@);
                    Ok((n, p + 1))
                } else {
                    proof {
                        if p < hi {
                            assert(t[p - lo] == toks@[p as int]@);
                        }
                    }
                    Err(ParseErrorKind::UnclosedParen)
                }
            },
        }
    } else {
        match tok {
            BSToken::Numeric(s) => Ok((BSAst::Num(s.clone()), lo + 1)),
            BSToken::String(s) => Ok((BSAst::Str(s.clone()), lo + 1)),
            BSToken::Word(s) => {
                if is_reserved_word(s) {
                    Ok((BSAst::Empty, lo))
                } else {
                    Ok((BSAst::Ident(s.clone()), lo + 1))
                }
            },
            _ => Ok((BSAst::Empty, lo)),
        }
    }
}

/// Parses a product from token `lo`, reading no further than `hi`.
fn parse_mul_expr(toks: &Vec<BSToken>, lo: usize, hi: usize, depth: usize) -> (r: Result<(BSAst, usize), ParseErrorKind>)
    requires
        lo <= hi <= toks@.len(),
        depth <= MAX_NESTING,
    ensures
        expr_agrees(r, parse_mul(span(toks@, lo as int, hi as int), depth as nat), lo as int),
        r matches Ok((_, p)) ==> lo <= p <= hi,
    decreases hi - lo, 2nat, 0int,
{
    let ghost t = span(toks@, lo as int, hi as int);
    let (mut acc, mut pos) = match parse_term_expr(toks, lo, hi, depth) {
        Err(e) => return Err(e),
        Ok(x) => x,
    };
    loop
        invariant
            lo <= pos <= hi <= toks@.len(),
            t == span(toks@, lo as int, hi as int),
            depth <= MAX_NESTING,
            parse_mul(t, depth as nat) == mul_tail(t, acc@, (pos - lo) as nat, depth as nat),
        decreases hi - pos,
    {
        let ghost k = (pos - lo) as nat;
        if pos < hi && (toks[pos].is_operator("*") || toks[pos].is_operator("/")) {
            assert(t[k as int] == toks@[pos as int]@);
            let div = toks[pos].is_operator("/");
            assert(t.subrange(k + 1 as int, t.len() as int) =~= span(toks@, pos + 1, hi as int));
            match parse_term_expr(toks, pos + 1, hi, depth) {
                Err(e) => return Err(e),
                Ok((r, p)) => {
                    acc = BSAst::ExprMul(Box::new(acc), Box::new(r), div);
                    pos = p;
                },
            }
        } else {
            proof {
                if pos < hi {
                    assert(t[k as int] == toks@[pos as int]@);
                }
            }
            return Ok((acc, pos));
        }
    }
}

/// Parses a sum from token `lo`, reading no further than `hi`.
fn parse_add_expr(toks: &Vec<BSToken>, lo: usize, hi: usize, depth: usize) -> (r: Result<(BSAst, usize), ParseErrorKind>)
    requires
        lo <= hi <= toks@.len(),
        depth <= MAX_NESTING,
    ensures
        expr_agrees(r, parse_add(span(toks@, lo as int, hi as int), depth as nat), lo as int),
        r matches Ok((_, p)) ==> lo <= p <= hi,
    decreases hi - lo, 4nat, 0int,
{
    let ghost t = span(toks@, lo as int, hi as int);
    let (mut acc, mut pos) = match parse_mul_expr(toks, lo, hi, depth) {
        Err(e) => return Err(e),
        Ok(x) => x,
    };
    loop
        invariant
            lo <= pos <= hi <= toks@.len(),
            t == span(toks@, lo as int, hi as int),
            depth <= MAX_NESTING,
            parse_add(t, depth as nat) == add_tail(t, acc@, (pos - lo) as nat, depth as nat),
        decreases hi - pos,
    {
        let ghost k = (pos - lo) as nat;
        if pos < hi && (toks[pos].is_operator("+") || toks[pos].is_operator("-")) {
            assert(t[k as int] == toks@[pos as int]@);
            let sub = toks[pos].is_operator("-");
            assert(t.subrange(k + 1 as int, t.len() as int) =~= span(toks@, pos + 1, hi as int));
            match parse_mul_expr(toks, pos + 1, hi, depth) {
                Err(e) => return Err(e),
                Ok((r, p)) => {
                    acc = BSAst::ExprAdd(Box::new(acc), Box::new(r), sub);
                    pos = p;
                },
            }
        } else {
            proof {
                if pos < hi {
                    assert(t[k as int] == toks@[pos as int]@);
                }
            }
            return Ok((acc, pos));
        }
    }
}

pub proof fn lemma_prepend_step<E>(d: Seq<Node>, n: Node, r: Result<Seq<Node>, E>)
    ensures
        prepend(d, prepend(seq![n], r)) == prepend(d.push(n), r),
{
    if let Ok(ns) = r {
        assert(d + (seq![n] + ns) =~= d.push(n) + ns);
    }
}

pub proof fn lemma_prepend_empty<E>(r: Result<Seq<Node>, E>)
    ensures
        prepend(Seq::empty(), r) == r,
{
    if let Ok(ns) = r {
        assert(Seq::<Node>::empty() + ns =~= ns);
    }
}

/// Whether an executable node result agrees with its model.
pub open spec fn node_agrees<E>(r: Result<BSAst, E>, m: Result<Node, E>) -> bool {
    match (r, m) {
        (Ok(a), Ok(n)) => a@ == n,
        (Err(e), Err(f)) => e == f,
        _ => false,
    }
}

/// Whether an executable list result agrees with its model.
pub open spec fn nodes_agree<E>(r: Result<Vec<BSAst>, E>, m: Result<Seq<Node>, E>) -> bool {
    match (r, m) {
        (Ok(v), Ok(ns)) => ast_views(v@) == ns,
        (Err(e), Err(f)) => e == f,
        _ => false,
    }
}

/// The position of the first comma from `from` on, or `hi`.
fn next_comma_at(line: &Vec<BSToken>, lo: usize, from: usize, hi: usize) -> (j: usize)
    requires
        lo <= from <= hi <= line@.len(),
    ensures
        j - lo == next_comma(span(line@, lo as int, hi as int), from - lo),
        from <= j <= hi,
{
    let ghost t = span(line@, lo as int, hi as int);
    let mut j = from;
    loop
        invariant
            lo <= from <= j <= hi <= line@.len(),
            t == span(line@, lo as int, hi as int),
            t.len() == hi - lo,
            next_comma(t, from - lo) == next_comma(t, j - lo),
        decreases hi - j,
    {
        if j == hi {
            return j;
        }
        assert(t[j - lo] == line@[j as int]@);
        if line[j].is_operator(",") {
            return j;
        }
        j = j + 1;
    }
}

/// Parses an array element or `gen` argument held by tokens `lo` to `hi`.
fn elem_at(line: &Vec<BSToken>, lo: usize, hi: usize, depth: usize) -> (r: Result<BSAst, ParseErrorKind>)
    requires
        lo <= hi <= line@.len(),
        depth <= MAX_NESTING,
    ensures
        node_agrees(r, parse_elem(span(line@, lo as int, hi as int), depth as nat)),
    decreases hi - lo, 1nat,
{
    let ghost t = span(line@, lo as int, hi as int);
    if lo < hi && line[lo].is_operator("[") {
        assert(t[0] == line@[lo as int]@);
        if depth >= MAX_NESTING {
            return Err(ParseErrorKind::TooDeep);
        }
        assert(t.subrange(1, t.len() as int) =~= span(line@, lo + 1, hi as int));
        match items_at(line, lo + 1, hi, depth + 1) {
            Ok(v) => Ok(BSAst::Arr(v)),
            Err(e) => Err(e),
        }
    } else {
        proof {
            if lo < hi {
                assert(t[0] == line@[lo as int]@);
            }
        }
        match parse_add_expr(line, lo, hi, depth) {
            Ok((n, _)) => Ok(n),
            Err(e) => Err(e),
        }
    }
}

/// Parses the comma-separated elements of an array literal.
fn items_at(line: &Vec<BSToken>, lo: usize, hi: usize, depth: usize) -> (r: Result<
    Vec<BSAst>,
    ParseErrorKind,
>)
    requires
        lo <= hi <= line@.len(),
        depth <= MAX_NESTING,
    ensures
        nodes_agree(r, arr_items(span(line@, lo as int, hi as int), 0, depth as nat)),
    decreases hi - lo + 1, 0nat,
{
    let ghost t = span(line@, lo as int, hi as int);
    let mut out: Vec<BSAst> = Vec::new();
    let mut from = lo;
    proof {
        lemma_prepend_empty(arr_items(t, 0, depth as nat));
    }
    loop
        invariant
            lo <= from <= hi <= line@.len(),
            t == span(line@, lo as int, hi as int),
            t.len() == hi - lo,
            depth <= MAX_NESTING,
            prepend(ast_views(out@), arr_items(t, from - lo, depth as nat)) == arr_items(
                t,
                0,
                depth as nat,
            ),
        decreases hi - from,
    {
        let j = next_comma_at(line, lo, from, hi);
        assert(t.subrange(from - lo, j - lo) =~= span(line@, from as int, j as int));
        match elem_at(line, from, j, depth) {
            Err(e) => return Err(e),
            Ok(n) => {
                let ghost before = ast_views(out@);
                proof {
                    lemma_ast_views_push(out@, n);
                }
                out.push(n);
                if j < hi {
                    proof {
                        lemma_prepend_step(before, n@, arr_items(t, j - lo + 1, depth as nat));
                    }
                    from = j + 1;
                } else {
                    assert(before + seq![n@] =~= before.push(n@));
                    return Ok(out);
                }
            },
        }
    }
}

/// Parses one argument of `gen`, spread or not.
fn arg_at(line: &Vec<BSToken>, lo: usize, hi: usize) -> (r: Result<BSAst, ParseErrorKind>)
    requires
        lo <= hi <= line@.len(),
    ensures
        node_agrees(r, parse_arg(span(line@, lo as int, hi as int))),
{
    let ghost t = span(line@, lo as int, hi as int);
    if lo < hi && line[lo].is_operator("*") {
        assert(t[0] == line@[lo as int]@);
        assert(t.subrange(1, t.len() as int) =~= span(line@, lo + 1, hi as int));
        match elem_at(line, lo + 1, hi, 0) {
            Ok(n) => Ok(BSAst::Unpack(Box::new(n))),
            Err(e) => Err(e),
        }
    } else {
        proof {
            if lo < hi {
                assert(t[0] == line@[lo as int]@);
            }
        }
        elem_at(line, lo, hi, 0)
    }
}

/// Parses the comma-separated arguments of `gen`.
fn gen_args_at(line: &Vec<BSToken>, lo: usize, hi: usize) -> (r: Result<Vec<BSAst>, ParseErrorKind>)
    requires
        lo <= hi <= line@.len(),
    ensures
        nodes_agree(r, gen_args(span(line@, lo as int, hi as int), 0)),
{
    let ghost t = span(line@, lo as int, hi as int);
    let mut out: Vec<BSAst> = Vec::new();
    let mut from = lo;
    proof {
        lemma_prepend_empty(gen_args(t, 0));
    }
    loop
        invariant
            lo <= from <= hi <= line@.len(),
            t == span(line@, lo as int, hi as int),
            t.len() == hi - lo,
            prepend(ast_views(out@), gen_args(t, from - lo)) == gen_args(t, 0),
        decreases hi - from,
    {
        let j = next_comma_at(line, lo, from, hi);
        assert(t.subrange(from - lo, j - lo) =~= span(line@, from as int, j as int));
        match arg_at(line, from, j) {
            Err(e) => return Err(e),
            Ok(n) => {
                let ghost before = ast_views(out@);
                proof {
                    lemma_ast_views_push(out@, n);
                }
                out.push(n);
                if j < hi {
                    proof {
                        lemma_prepend_step(before, n@, gen_args(t, j - lo + 1));
                    }
                    from = j + 1;
                } else {
                    assert(before + seq![n@] =~= before.push(n@));
                    return Ok(out);
                }
            },
        }
    }
}

/// The values of a sequence of lines of tokens.
pub open spec fn lines_view(v: Seq<Vec<BSToken>>) -> Seq<Seq<Tok>> {
    v.map_values(|l: Vec<BSToken>| toks_view(l@))
}

/// Whether an executable statement result agrees with its model.
pub open spec fn stmt_agrees(r: Result<(BSAst, usize), ParseError>, m: Result<(Node, nat), ParseError>) -> bool {
    match (r, m) {
        (Ok((a, c)), Ok((n, k))) => a@ == n && c == k,
        (Err(e), Err(f)) => e == f,
        _ => false,
    }
}

/// Parses the statement held by tokens `lo` to `hi` of line `at`; a batch
/// takes lines after it, up to line `re`. On success, the node and the number
/// of lines taken.
fn parse_part(lines: &Vec<Vec<BSToken>>, at: usize, lo: usize, hi: usize, re: usize) -> (r: Result<
    (BSAst, usize),
    ParseError,
>)
    requires
        at < re <= lines@.len(),
        lo <= hi <= lines@[at as int]@.len(),
    ensures
        stmt_agrees(
            r,
            statement(
                span(lines@[at as int]@, lo as int, hi as int),
                at as nat,
                lines_view(lines@).subrange(at + 1, re as int),
            ),
        ),
        r matches Ok((_, c)) ==> c < re - at,
    decreases re - at, 0nat, hi - lo,
{
    let line = &lines[at];
    let ghost t = span(line@, lo as int, hi as int);
    let ghost lv = lines_view(lines@);
    let ghost rest = lv.subrange(at + 1, re as int);
    if lo == hi {
        return Ok((BSAst::Empty, 0));
    }
    assert(t[0] == line@[lo as int]@);
    if line[lo].is_word("batch") {
        let mut k = at + 1;
        loop
            invariant
                at + 1 <= k <= re <= lines@.len(),
                lv == lines_view(lines@),
                rest == lv.subrange(at + 1, re as int),
                batch_end(rest, 0) == batch_end(rest, k - at - 1),
            ensures
                at + 1 <= k <= re,
                batch_end(rest, 0) == k - at - 1,
            decreases re - k,
        {
            if k == re {
                break;
            }
            let l = &lines[k];
            assert(rest[k - at - 1] == toks_view(l@));
            if l.len() > 0 {
                assert(rest[k - at - 1][0] == l@[0]@);
            }
            if (l.len() == 1 && l[0].is_word("end")) || (l.len() > 0 && l[0].is_word("batch")) {
                break;
            }
            k = k + 1;
        }
        proof {
            lemma_batch_end(rest, 0);
        }
        if k == re {
            return Err(ParseError { kind: ParseErrorKind::UnclosedBatch, line: at });
        }
        assert(rest[k - at - 1] == toks_view(lines@[k as int]@));
        if lines[k].len() > 0 && lines[k][0].is_word("batch") {
            assert(rest[k - at - 1][0] == lines@[k as int]@[0]@);
            return Err(ParseError { kind: ParseErrorKind::NestedBatch, line: k });
        }
        proof {
            if lines@[k as int]@.len() > 0 {
                assert(rest[k - at - 1][0] == lines@[k as int]@[0]@);
            }
        }
        assert(rest.subrange(0, k - at - 1) =~= lv.subrange(at + 1, k as int));
        match parse_lines(lines, at + 1, k) {
            Ok(v) => Ok((BSAst::Batch(v), k - at)),
            Err(e) => Err(e),
        }
    } else if line[lo].is_word("set") {
        if hi - lo < 2 {
            return Err(ParseError { kind: ParseErrorKind::SetMissingName, line: at });
        }
        assert(t[1] == line@[lo + 1]@);
        let name = match &line[lo + 1] {
            BSToken::Word(w) => w,
            _ => {
                return Err(ParseError { kind: ParseErrorKind::SetMissingName, line: at });
            },
        };
        if hi - lo < 3 {
            return Err(ParseError { kind: ParseErrorKind::SetMissingEquals, line: at });
        }
        assert(t[2] == line@[lo + 2]@);
        if !line[lo + 2].is_operator("=") {
            return Err(ParseError { kind: ParseErrorKind::SetMissingEquals, line: at });
        }
        assert(t.subrange(3, t.len() as int) =~= span(line@, lo + 3, hi as int));
        let target = BSAst::Ident(name.clone());
        assert(target@ == Node::Ident(name@));
        match parse_part(lines, at, lo + 3, hi, re) {
            Ok((v, c)) => Ok((BSAst::SetVar(Box::new(target), Box::new(v)), c)),
            Err(e) => Err(e),
        }
    } else if line[lo].is_word("gen") {
        assert(t.subrange(1, t.len() as int) =~= span(line@, lo + 1, hi as int));
        match gen_args_at(line, lo + 1, hi) {
            Ok(v) => Ok((BSAst::Generate(v), 0)),
            Err(k) => Err(ParseError { kind: k, line: at }),
        }
    } else {
        match elem_at(line, lo, hi, 0) {
            Ok(n) => Ok((n, 0)),
            Err(k) => Err(ParseError { kind: k, line: at }),
        }
    }
}

/// Parses lines `rs` to `re` as a list of statements.
fn parse_lines(lines: &Vec<Vec<BSToken>>, rs: usize, re: usize) -> (r: Result<Vec<BSAst>, ParseError>)
    requires
        rs <= re <= lines@.len(),
    ensures
        nodes_agree(r, statements(lines_view(lines@).subrange(rs as int, re as int), rs as nat)),
    decreases re - rs, 1nat, 0usize,
{
    let ghost lv = lines_view(lines@);
    let mut out: Vec<BSAst> = Vec::new();
    let mut i = rs;
    proof {
        lemma_prepend_empty(statements(lv.subrange(rs as int, re as int), rs as nat));
    }
    loop
        invariant
            rs <= i <= re <= lines@.len(),
            lv == lines_view(lines@),
            prepend(ast_views(out@), statements(lv.subrange(i as int, re as int), i as nat))
                == statements(lv.subrange(rs as int, re as int), rs as nat),
        decreases re - i,
    {
        let ghost ls = lv.subrange(i as int, re as int);
        if i == re {
            assert(ast_views(out@) + Seq::<Node>::empty() =~= ast_views(out@));
            return Ok(out);
        }
        assert(span(lines@[i as int]@, 0, lines@[i as int]@.len() as int) =~= ls[0]);
        assert(ls.subrange(1, ls.len() as int) =~= lv.subrange(i + 1, re as int));
        match parse_part(lines, i, 0, lines[i].len(), re) {
            Err(e) => return Err(e),
            Ok((n, c)) => {
                assert(ls.subrange(1 + c, ls.len() as int) =~= lv.subrange(i + 1 + c, re as int));
                let ghost before = ast_views(out@);
                proof {
                    lemma_ast_views_push(out@, n);
                    lemma_prepend_step(
                        before,
                        n@,
                        statements(lv.subrange(i + 1 + c, re as int), (i + 1 + c) as nat),
                    );
                }
                out.push(n);
                i = i + 1 + c;
            },
        }
    }
}

/// Splits a token sequence into its lines, dropping the `Break` tokens.
fn split_token_lines(toks: &Vec<BSToken>) -> (r: Vec<Vec<BSToken>>)
    ensures
        lines_view(r@) == split_lines(toks_view(toks@)),
{
    let ghost tv = toks_view(toks@);
    let mut lines: Vec<Vec<BSToken>> = Vec::new();
    let mut cur: Vec<BSToken> = Vec::new();
    let mut i: usize = 0;
    assert(toks_view(cur@) =~= Seq::<Tok>::empty());
    assert(lines_view(lines@).push(toks_view(cur@)) =~= seq![Seq::<Tok>::empty()]);
    while i < toks.len()
        invariant
            i <= toks@.len(),
            tv == toks_view(toks@),
            split_lines(tv.subrange(0, i as int)) == lines_view(lines@).push(toks_view(cur@)),
        decreases toks@.len() - i,
    {
        assert(tv.subrange(0, i + 1).subrange(0, i as int) =~= tv.subrange(0, i as int));
        assert(tv.subrange(0, i + 1)[i as int] == toks@[i as int]@);
        let ghost before_lines = lines@;
        let ghost before_cur = cur@;
        match &toks[i] {
            BSToken::Break => {
                lines.push(cur);
                cur = Vec::new();
                assert(lines_view(lines@) =~= lines_view(before_lines).push(toks_view(before_cur)));
                assert(toks_view(cur@) =~= Seq::<Tok>::empty());
                assert(lines_view(lines@).push(toks_view(cur@)) =~= lines_view(before_lines).push(
                    toks_view(before_cur),
                ).push(Seq::empty()));
            },
            _ => {
                cur.push(toks[i].copy());
                assert(toks_view(cur@) =~= toks_view(before_cur).push(toks@[i as int]@));
                assert(lines_view(lines@).push(toks_view(cur@)) =~= lines_view(lines@).push(
                    toks_view(before_cur),
                ).update(lines@.len() as int, toks_view(before_cur).push(toks@[i as int]@)));
            },
        }
        i = i + 1;
    }
    let ghost before_lines = lines@;
    lines.push(cur);
    assert(tv.subrange(0, toks@.len() as int) =~= tv);
    assert(lines_view(lines@) =~= lines_view(before_lines).push(toks_view(cur@)));
    lines
}

impl BuildParser {
    /// Builds the syntax tree of a token sequence: one statement per line
    /// (a `Break` ends a line), a `batch` line taking the lines up to its
    /// `end` line. Fails on the first malformed statement, with its kind and
    /// line.
    pub fn parse(input: &Vec<BSToken>) -> (r: Result<BSAst, ParseError>)
        ensures
            node_agrees(r, parse_model(toks_view(input@))),
    {
        let mut lines = split_token_lines(input);
        proof {
            lemma_split_lines_len(toks_view(input@));
        }
        let ghost all = lines@;
        if lines[lines.len() - 1].len() == 0 {
            lines.pop();
            assert(lines_view(lines@) =~= lines_view(all).subrange(0, all.len() - 1));
        }
        let n = lines.len();
        assert(lines_view(lines@).subrange(0, n as int) =~= lines_view(lines@));
        match parse_lines(&lines, 0, n) {
            Ok(v) => Ok(BSAst::Prog(v)),
            Err(e) => Err(e),
        }
    }
}

/// The same source text always gives the same tokens and the same tree.
pub proof fn lemma_deterministic(a: Seq<char>, b: Seq<char>)
    requires
        a == b,
    ensures
        lex_model(a) == lex_model(b),
        parse_model(lex_model(a)) == parse_model(lex_model(b)),
{
}

} // verus!
