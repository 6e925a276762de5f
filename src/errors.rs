use vstd::prelude::*;
use crate::tokens::{KindV, Span, TokenKind};

verus! {

/// A syntax error: what went wrong and where.
#[derive(Debug, PartialEq)]
pub struct SyntaxErr {
    pub span: Span,
    pub reason: SyntaxErrReason,
}

/// Why the input was rejected.
#[derive(Debug, PartialEq)]
pub enum SyntaxErrReason {
    /// An alphabetic run that is not `true`, `false` or `null`.
    UnknownKeyword(String),
    /// A character that starts no token.
    UnexpectedChar(char),
    /// Something else was expected here; the text says what.
    Expected(String),
    /// A token that does not fit the grammar here.
    UnexpectedToken(TokenKind),
    /// The tokens ran out.
    UnexpectedEof,
    /// An integer literal that does not fit in 32 bits.
    NumberOverflow,
}

/// A failure reason as a mathematical value.
pub enum ReasonV {
    UnknownKeyword(Seq<char>),
    UnexpectedChar(char),
    Expected(Seq<char>),
    UnexpectedToken(KindV),
    UnexpectedEof,
    NumberOverflow,
}

/// A syntax error as a mathematical value.
pub struct ErrV {
    pub span: Span,
    pub reason: ReasonV,
}

impl View for SyntaxErrReason {
    type V = ReasonV;

    open spec fn view(&self) -> ReasonV {
        match self {
            SyntaxErrReason::UnknownKeyword(s) => ReasonV::UnknownKeyword(s@),
            SyntaxErrReason::UnexpectedChar(c) => ReasonV::UnexpectedChar(*c),
            SyntaxErrReason::Expected(s) => ReasonV::Expected(s@),
            SyntaxErrReason::UnexpectedToken(k) => ReasonV::UnexpectedToken(k@),
            SyntaxErrReason::UnexpectedEof => ReasonV::UnexpectedEof,
            SyntaxErrReason::NumberOverflow => ReasonV::NumberOverflow,
        }
    }
}

impl View for SyntaxErr {
    type V = ErrV;

    open spec fn view(&self) -> ErrV {
        ErrV { span: self.span, reason: self.reason@ }
    }
}

} // verus!
