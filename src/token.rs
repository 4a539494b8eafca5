use vstd::prelude::*;

verus! {

/// A lexical token of a script.
#[derive(Debug, Clone, PartialEq, Eq)]
pub enum BSToken {
    /// A single punctuation character.
    Operator(String),
    /// A double-quoted literal, quotes included.
    String(String),
    /// A token whose text starts with a digit.
    Numeric(String),
    /// Any other run of text: keywords and identifiers.
    Word(String),
    /// The end of a physical line.
    Break,
}

/// The mathematical value of a token.
pub enum Tok {
    Operator(Seq<char>),
    Str(Seq<char>),
    Numeric(Seq<char>),
    Word(Seq<char>),
    Break,
}

impl View for BSToken {
    type V = Tok;

    open spec fn view(&self) -> Tok {
        match self {
            BSToken::Operator(s) => Tok::Operator(s@),
            BSToken::String(s) => Tok::Str(s@),
            BSToken::Numeric(s) => Tok::Numeric(s@),
            BSToken::Word(s) => Tok::Word(s@),
            BSToken::Break => Tok::Break,
        }
    }
}

/// The values of a sequence of tokens.
pub open spec fn toks_view(v: Seq<BSToken>) -> Seq<Tok> {
    v.map_values(|t: BSToken| t@)
}

/// Whether `a` and `b` hold the same characters.
pub fn str_eq(a: &str, b: &str) -> (r: bool)
    ensures
        r == (a@ == b@),
{
    let n = a.unicode_len();
    if n != b.unicode_len() {
        return false;
    }
    let mut i: usize = 0;
    while i < n
        invariant
            n == a@.len(),
            n == b@.len(),
            i <= n,
            a@.subrange(0, i as int) == b@.subrange(0, i as int),
        decreases n - i,
    {
        if a.get_char(i) != b.get_char(i) {
            return false;
        }
        assert(a@.subrange(0, i + 1) == a@.subrange(0, i as int).push(a@[i as int]));
        assert(b@.subrange(0, i + 1) == b@.subrange(0, i as int).push(b@[i as int]));
        i = i + 1;
    }
    assert(a@ == a@.subrange(0, n as int));
    assert(b@ == b@.subrange(0, n as int));
    true
}

impl BSToken {
    /// Whether this token is the word `w`.
    pub fn is_word(&self, w: &str) -> (r: bool)
        ensures
            r == (self@ == Tok::Word(w@)),
    {
        match self {
            BSToken::Word(s) => str_eq(s.as_str(), w),
            _ => false,
        }
    }

    /// Whether this token is the operator `o`.
    pub fn is_operator(&self, o: &str) -> (r: bool)
        ensures
            r == (self@ == Tok::Operator(o@)),
    {
        match self {
            BSToken::Operator(s) => str_eq(s.as_str(), o),
            _ => false,
        }
    }

    /// A copy of this token.
    pub fn copy(&self) -> (r: BSToken)
        ensures
            r@ == self@,
    {
        match self {
            BSToken::Operator(s) => BSToken::Operator(s.clone()),
            BSToken::String(s) => BSToken::String(s.clone()),
            BSToken::Numeric(s) => BSToken::Numeric(s.clone()),
            BSToken::Word(s) => BSToken::Word(s.clone()),
            BSToken::Break => BSToken::Break,
        }
    }
}

} // verus!
