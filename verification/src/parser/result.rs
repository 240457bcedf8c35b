use vstd::prelude::*;
use super::tokenizer::{Tok, TokenKind};

verus! {

/// What was wrong with the input at the place of a `ParseError`.
#[derive(Debug, PartialEq, Eq)]
pub enum ParseErrorKind {
    /// A character that begins no token, or that cannot follow `-`.
    InvalidChar(char),
    /// A token that the grammar does not allow where it stands.
    UnexpectedToken(TokenKind),
}

/// The mathematical form of a `ParseErrorKind`.
pub enum Flaw {
    InvalidChar(char),
    UnexpectedToken(Tok),
}

impl View for ParseErrorKind {
    type V = Flaw;

    open spec fn view(&self) -> Flaw {
        match self {
            ParseErrorKind::InvalidChar(c) => Flaw::InvalidChar(*c),
            ParseErrorKind::UnexpectedToken(kind) => Flaw::UnexpectedToken(kind@),
        }
    }
}

/// A lexical or syntactic error: the byte offset of the token at which it
/// was found, and its kind.
#[derive(Debug, PartialEq, Eq)]
pub struct ParseError {
    pub loc: usize,
    pub kind: ParseErrorKind,
}

impl View for ParseError {
    type V = (int, Flaw);

    open spec fn view(&self) -> (int, Flaw) {
        (self.loc as int, self.kind@)
    }
}

impl ParseError {
    /// The error of the kind `kind` at the byte offset `loc`.
    pub fn new(loc: usize, kind: ParseErrorKind) -> (error: Self)
        ensures
            error.loc == loc,
            error.kind == kind,
    {
        ParseError { loc, kind }
    }
}

} // verus!
