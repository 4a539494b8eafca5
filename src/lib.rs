//! Front end of a small build-script language: a lexer, a recursive-descent
//! parser producing an abstract syntax tree, and a validator for its scoping
//! and nesting rules.

pub mod ast;
pub mod lexer;
pub mod parser;
pub mod serializer;
pub mod token;
pub mod validator;

pub use ast::{BSAst, Node};
pub use lexer::{tokens_from_matches, LexError, TOKEN_PATTERN};
pub use parser::{ParseError, ParseErrorKind, MAX_NESTING};
pub use serializer::{BuildSerializer, CommandLine, COMMAND_PATTERN};
pub use token::{BSToken, Tok};
pub use validator::{Diagnostic, Rule};

use vstd::prelude::*;

verus! {

/// Entry point of the front end: lexing, parsing and validation of scripts.
#[derive(Debug)]
pub struct BuildParser;

} // verus!
