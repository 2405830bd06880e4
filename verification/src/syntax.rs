//! Tokens of the System F surface syntax.
use vstd::prelude::*;

verus! {

/// The kinds of token the lexer produces.
#[derive(Clone, Debug, PartialEq, PartialOrd)]
pub enum TokenKind {
    Uppercase(String),
    Lowercase(String),
    Nat(u32),
    TyNat,
    TyBool,
    TyArrow,
    TyUnit,
    Unit,
    True,
    False,
    Lambda,
    Forall,
    Exists,
    As,
    Pack,
    Unpack,
    Succ,
    Pred,
    If,
    Then,
    Else,
    Let,
    In,
    IsZero,
    Semicolon,
    Colon,
    Comma,
    Proj,
    LParen,
    RParen,
    LBrace,
    RBrace,
    LSquare,
    RSquare,
    Equals,
    Bar,
    Wildcard,
    Gt,
    Case,
    Of,
    Fix,
    Fold,
    Unfold,
    Rec,
    Invalid(char),
    Dummy,
    Eof,
}

/// A region of the source text, as byte offsets.
#[derive(Clone, Copy, Debug, PartialEq, PartialOrd)]
pub struct Span {
    pub start: u32,
    pub end: u32,
}

impl Span {
    /// The empty span at the start of the source.
    pub fn zero() -> (s: Span)
        ensures
            s.start == 0,
            s.end == 0,
    {
        Span { start: 0, end: 0 }
    }
}

/// A token and where it was found.
#[derive(Clone, Debug, PartialEq, PartialOrd)]
pub struct Token {
    pub kind: TokenKind,
    pub span: Span,
}

impl Token {
    /// A placeholder token of kind `Dummy` with the zero span.
    pub fn dummy() -> (t: Token)
        ensures
            t.kind == TokenKind::Dummy,
            t.span == (Span { start: 0, end: 0 }),
    {
        Token { kind: TokenKind::Dummy, span: Span::zero() }
    }

    pub fn new(kind: TokenKind, span: Span) -> (t: Token)
        ensures
            t.kind == kind,
            t.span == span,
    {
        Token { kind, span }
    }
}

} // verus!
