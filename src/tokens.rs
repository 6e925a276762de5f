use vstd::prelude::*;

verus! {

/// Where a token or an error lies in the source: a half-open range of
/// character offsets, or the position past the last character.
#[derive(Debug, Clone, Copy, PartialEq, Eq, Structural)]
pub enum Span {
    Range { start: usize, end: usize },
    EndOfInput,
}

/// The kind of a token, with the decoded content of a literal.
#[derive(Debug, Clone, PartialEq, Eq)]
pub enum TokenKind {
    LBrace,
    RBrace,
    LBracket,
    RBracket,
    Comma,
    Semicolon,
    String(String),
    Num(i32),
    Bool(bool),
    Null,
}

/// A token kind as a mathematical value.
pub enum KindV {
    LBrace,
    RBrace,
    LBracket,
    RBracket,
    Comma,
    Semicolon,
    Str(Seq<char>),
    Num(i32),
    Bool(bool),
    Null,
}

impl View for TokenKind {
    type V = KindV;

    open spec fn view(&self) -> KindV {
        match self {
            TokenKind::LBrace => KindV::LBrace,
            TokenKind::RBrace => KindV::RBrace,
            TokenKind::LBracket => KindV::LBracket,
            TokenKind::RBracket => KindV::RBracket,
            TokenKind::Comma => KindV::Comma,
            TokenKind::Semicolon => KindV::Semicolon,
            TokenKind::String(s) => KindV::Str(s@),
            TokenKind::Num(n) => KindV::Num(*n),
            TokenKind::Bool(b) => KindV::Bool(*b),
            TokenKind::Null => KindV::Null,
        }
    }
}

/// A token with the span of source text it was read from.
#[derive(Debug, Clone, PartialEq)]
pub struct Token {
    pub kind: TokenKind,
    pub span: Span,
}

/// A token as a mathematical value.
pub struct TokenV {
    pub kind: KindV,
    pub span: Span,
}

impl View for Token {
    type V = TokenV;

    open spec fn view(&self) -> TokenV {
        TokenV { kind: self.kind@, span: self.span }
    }
}

} // verus!
