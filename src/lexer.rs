use vstd::prelude::*;

use crate::token::{toks_view, BSToken, Tok};
use crate::BuildParser;

verus! {

/// The token pattern, tried left to right at each position of a line: a
/// decimal number, a double-quoted string, a comment, a single operator
/// character, or a run of non-space characters between word boundaries.
pub const TOKEN_PATTERN: &'static str = "(\\d+\\.\\d+)|(\\\".*?\\\")|(#.*)|[\\+\\-\\*\\/\\=\\(\\)\\[\\]\\,]|(\\b\\S+?\\b)";

/// Why a script could not be split into tokens.
#[derive(Debug, Clone, Copy, PartialEq, Eq, Structural)]
pub enum LexError {
    /// The regular-expression engine refused the token pattern.
    PatternRejected,
}

/// Whether the regular-expression engine accepts `pattern`.
pub uninterp spec fn regex_compiles(pattern: Seq<char>) -> bool;

/// The texts of the successive non-overlapping matches of `pattern` in `text`.
pub uninterp spec fn regex_matches(pattern: Seq<char>, text: Seq<char>) -> Seq<Seq<char>>;

/// The characters of each string.
pub open spec fn strings_view(v: Seq<String>) -> Seq<Seq<char>> {
    v.map_values(|s: String| s@)
}

/// Relies on `regex::Regex::new` (which fails on a pattern it refuses) and on
/// `regex::Regex::find_iter` with `regex::Match::as_str`, which give the
/// successive non-overlapping matches in `text`.
#[verifier::external_body]
pub(crate) fn find_matches(pattern: &str, text: &str) -> (r: Option<Vec<String>>)
    ensures
        r is Some <==> regex_compiles(pattern@),
        r matches Some(v) ==> strings_view(v@) == regex_matches(pattern@, text@),
{
    match regex::Regex::new(pattern) {
        Ok(re) => Some(re.find_iter(text).map(|m| m.as_str().to_string()).collect()),
        Err(_) => None,
    }
}

/// `s` without one trailing carriage return.
pub open spec fn strip_cr(s: Seq<char>) -> Seq<char> {
    if s.len() > 0 && s[s.len() - 1] == '\r' {
        s.subrange(0, s.len() - 1)
    } else {
        s
    }
}

pub open spec fn is_operator_char(c: char) -> bool {
    c == '+' || c == '-' || c == '*' || c == '/' || c == '=' || c == '(' || c == ')' || c == '['
        || c == ']' || c == ','
}

/// The token of a matched text, by its first character; comments and empty
/// texts give none.
pub open spec fn classify(s: Seq<char>) -> Option<Tok> {
    if s.len() == 0 {
        None
    } else if is_operator_char(s[0]) {
        Some(Tok::Operator(s))
    } else if '0' <= s[0] && s[0] <= '9' {
        Some(Tok::Numeric(s))
    } else if s[0] == '"' {
        Some(Tok::Str(s))
    } else if s[0] == '#' {
        None
    } else {
        Some(Tok::Word(s))
    }
}

/// The tokens of the matched texts of one line, in order.
pub open spec fn tokens_of_matches(ms: Seq<Seq<char>>) -> Seq<Tok>
    decreases ms.len(),
{
    if ms.len() == 0 {
        Seq::empty()
    } else {
        let p = tokens_of_matches(ms.subrange(0, ms.len() - 1));
        match classify(strip_cr(ms[ms.len() - 1])) {
            Some(t) => p.push(t),
            None => p,
        }
    }
}

/// The pieces of `s` between newline characters.
pub open spec fn lines_of(s: Seq<char>) -> Seq<Seq<char>>
    decreases s.len(),
{
    if s.len() == 0 {
        seq![Seq::empty()]
    } else {
        let p = lines_of(s.subrange(0, s.len() - 1));
        if s[s.len() - 1] == '\n' {
            p.push(Seq::empty())
        } else {
            p.update(p.len() - 1, p[p.len() - 1].push(s[s.len() - 1]))
        }
    }
}

pub proof fn lemma_lines_of_len(s: Seq<char>)
    ensures
        lines_of(s).len() >= 1,
    decreases s.len(),
{
    if s.len() > 0 {
        lemma_lines_of_len(s.subrange(0, s.len() - 1));
    }
}

/// The tokens of one line, closed by a `Break`.
pub open spec fn line_tokens(line: Seq<char>) -> Seq<Tok> {
    tokens_of_matches(regex_matches(TOKEN_PATTERN@, line)).push(Tok::Break)
}

/// The tokens of successive lines.
pub open spec fn lex_lines(ls: Seq<Seq<char>>) -> Seq<Tok>
    decreases ls.len(),
{
    if ls.len() == 0 {
        Seq::empty()
    } else {
        lex_lines(ls.subrange(0, ls.len() - 1)) + line_tokens(ls[ls.len() - 1])
    }
}

/// The physical lines of `s`: a final newline ends the last line rather than
/// starting an empty one.
pub open spec fn physical_lines(s: Seq<char>) -> Seq<Seq<char>> {
    let p = lines_of(s);
    if p[p.len() - 1].len() == 0 {
        p.subrange(0, p.len() - 1)
    } else {
        p
    }
}

/// The token sequence of a script.
pub open spec fn lex_model(s: Seq<char>) -> Seq<Tok> {
    lex_lines(physical_lines(s))
}

fn is_operator_char_exec(c: char) -> (r: bool)
    ensures
        r == is_operator_char(c),
{
    c == '+' || c == '-' || c == '*' || c == '/' || c == '=' || c == '(' || c == ')' || c == '['
        || c == ']' || c == ','
}

/// Appends the token of the matched text `m`, if it gives one.
fn push_match(m: &String, out: &mut Vec<BSToken>)
    ensures
        toks_view(final(out)@) == match classify(strip_cr(m@)) {
            Some(t) => toks_view(old(out)@).push(t),
            None => toks_view(old(out)@),
        },
{
    let s = m.as_str();
    let n = s.unicode_len();
    let text: String = if n > 0 && s.get_char(n - 1) == '\r' {
        s.substring_char(0, n - 1).to_owned()
    } else {
        s.to_owned()
    };
    assert(text@ == strip_cr(m@));
    let k = text.as_str().unicode_len();
    if k == 0 {
        return;
    }
    let c = text.as_str().get_char(0);
    let ghost before = out@;
    if is_operator_char_exec(c) {
        out.push(BSToken::Operator(text));
    } else if '0' <= c && c <= '9' {
        out.push(BSToken::Numeric(text));
    } else if c == '"' {
        out.push(BSToken::String(text));
    } else if c == '#' {
        return;
    } else {
        out.push(BSToken::Word(text));
    }
    assert(toks_view(out@) =~= toks_view(before).push(out@[out@.len() - 1]@));
}

/// Appends the tokens of the matched texts of one line, in order.
fn push_matches(ms: &Vec<String>, out: &mut Vec<BSToken>)
    ensures
        toks_view(final(out)@) == toks_view(old(out)@) + tokens_of_matches(strings_view(ms@)),
{
    let ghost sv = strings_view(ms@);
    let ghost start = toks_view(out@);
    let mut i: usize = 0;
    assert(start + tokens_of_matches(sv.subrange(0, 0)) =~= start);
    while i < ms.len()
        invariant
            i <= ms@.len(),
            sv == strings_view(ms@),
            toks_view(out@) == start + tokens_of_matches(sv.subrange(0, i as int)),
        decreases ms@.len() - i,
    {
        assert(sv.subrange(0, i + 1).subrange(0, i as int) =~= sv.subrange(0, i as int));
        assert(sv.subrange(0, i + 1)[i as int] == ms@[i as int]@);
        push_match(&ms[i], out);
        assert(toks_view(out@) =~= start + tokens_of_matches(sv.subrange(0, i + 1)));
        i = i + 1;
    }
    assert(sv.subrange(0, ms@.len() as int) =~= sv);
}

/// The tokens given by the matched texts of one line: each text loses one
/// trailing carriage return, then its first character decides its kind;
/// comments and empty texts give none.
pub fn tokens_from_matches(ms: &Vec<String>) -> (r: Vec<BSToken>)
    ensures
        toks_view(r@) == tokens_of_matches(strings_view(ms@)),
{
    let mut out: Vec<BSToken> = Vec::new();
    push_matches(ms, &mut out);
    assert(toks_view(out@) =~= tokens_of_matches(strings_view(ms@)));
    out
}

/// Splits `s` at each newline character.
pub(crate) fn split_text_lines(s: &str) -> (r: Vec<String>)
    ensures
        strings_view(r@) == lines_of(s@),
{
    let n = s.unicode_len();
    let mut lines: Vec<String> = Vec::new();
    let mut start: usize = 0;
    let mut i: usize = 0;
    assert(s@.subrange(0, 0) =~= Seq::<char>::empty());
    assert(strings_view(lines@) =~= Seq::<Seq<char>>::empty());
    assert(strings_view(lines@).push(s@.subrange(0, 0)) =~= seq![Seq::<char>::empty()]);
    while i < n
        invariant
            n == s@.len(),
            start <= i <= n,
            lines_of(s@.subrange(0, i as int)) == strings_view(lines@).push(
                s@.subrange(start as int, i as int),
            ),
        decreases n - i,
    {
        assert(s@.subrange(0, i + 1).subrange(0, i as int) =~= s@.subrange(0, i as int));
        let c = s.get_char(i);
        assert(s@.subrange(0, i + 1)[i as int] == c);
        let ghost before = lines@;
        if c == '\n' {
            let line = s.substring_char(start, i).to_owned();
            lines.push(line);
            assert(strings_view(lines@) =~= strings_view(before).push(
                s@.subrange(start as int, i as int),
            ));
            start = i + 1;
            assert(s@.subrange(start as int, i + 1) =~= Seq::<char>::empty());
        } else {
            assert(s@.subrange(start as int, i + 1) =~= s@.subrange(start as int, i as int).push(c));
        }
        i = i + 1;
        assert(strings_view(lines@).push(s@.subrange(start as int, i as int)) =~= lines_of(
            s@.subrange(0, i as int),
        ));
    }
    let last = s.substring_char(start, n).to_owned();
    let ghost before = lines@;
    lines.push(last);
    assert(s@.subrange(0, n as int) =~= s@);
    assert(strings_view(lines@) =~= strings_view(before).push(s@.subrange(start as int, n as int)));
    lines
}

/// A matched text that ends in a carriage return gives the same token as the
/// text without it: line endings `\r\n` and `\n` give the same tokens for the
/// same matches.
pub proof fn lemma_trailing_cr_ignored(ms: Seq<Seq<char>>, crs: Seq<Seq<char>>)
    requires
        ms.len() == crs.len(),
        forall|i: int|
            0 <= i < ms.len() ==> #[trigger] crs[i] == ms[i] || (crs[i] == ms[i].push('\r') && !(
            ms[i].len() > 0 && ms[i][ms[i].len() - 1] == '\r')),
    ensures
        tokens_of_matches(ms) == tokens_of_matches(crs),
    decreases ms.len(),
{
    if ms.len() > 0 {
        let n = ms.len() - 1;
        lemma_trailing_cr_ignored(ms.subrange(0, n), crs.subrange(0, n));
        if crs[n] != ms[n] {
            assert(strip_cr(crs[n]) =~= ms[n]);
        }
    }
}

/// A comment match gives no token: a line with a trailing comment gives the
/// tokens of the line without it.
pub proof fn lemma_comment_ignored(ms: Seq<Seq<char>>, comment: Seq<char>)
    requires
        comment.len() > 0,
        comment[0] == '#',
    ensures
        tokens_of_matches(ms.push(comment)) == tokens_of_matches(ms),
{
    assert(ms.push(comment).subrange(0, ms.len() as int) =~= ms);
    if comment.len() > 1 {
        assert(strip_cr(comment)[0] == '#');
    }
}

impl BuildParser {
    /// Splits a script into tokens, line by line, each line closed by a
    /// `Break`. Fails only when the regular-expression engine refuses the
    /// token pattern.
    pub fn lex(input: &str) -> (r: Result<Vec<BSToken>, LexError>)
        ensures
            r is Ok <==> (regex_compiles(TOKEN_PATTERN@) || physical_lines(input@).len() == 0),
            r matches Ok(v) ==> toks_view(v@) == lex_model(input@),
    {
        let mut lines = split_text_lines(input);
        proof {
            lemma_lines_of_len(input@);
        }
        let ghost all = lines@;
        if lines[lines.len() - 1].as_str().unicode_len() == 0 {
            lines.pop();
            assert(strings_view(lines@) =~= strings_view(all).subrange(0, all.len() - 1));
        }
        let ghost lv = strings_view(lines@);
        let mut out: Vec<BSToken> = Vec::new();
        let mut i: usize = 0;
        assert(toks_view(out@) =~= lex_lines(lv.subrange(0, 0)));
        while i < lines.len()
            invariant
                i <= lines@.len(),
                lv == strings_view(lines@),
                lv == physical_lines(input@),
                i > 0 ==> regex_compiles(TOKEN_PATTERN@),
                toks_view(out@) == lex_lines(lv.subrange(0, i as int)),
            decreases lines@.len() - i,
        {
            match find_matches(TOKEN_PATTERN, lines[i].as_str()) {
                None => return Err(LexError::PatternRejected),
                Some(ms) => {
                    assert(lv.subrange(0, i + 1).subrange(0, i as int) =~= lv.subrange(0, i as int));
                    assert(lv.subrange(0, i + 1)[i as int] == lines@[i as int]@);
                    let ghost before = toks_view(out@);
                    push_matches(&ms, &mut out);
                    let ghost mid = out@;
                    out.push(BSToken::Break);
                    assert(toks_view(out@) =~= toks_view(mid).push(Tok::Break));
                    assert(toks_view(out@) =~= lex_lines(lv.subrange(0, i + 1)));
                },
            }
            i = i + 1;
        }
        assert(lv.subrange(0, lines@.len() as int) =~= lv);
        Ok(out)
    }
}

} // verus!
