//! Positioned tokens produced by the lexer.
use self::kind::TokenKind;
use self::span::Span;
use crate::model::TokenModel;
use vstd::prelude::*;

pub mod kind;
pub mod span;

verus! {

/// A classified unit of input together with the exact extent it covers.
#[derive(PartialEq, Eq, Debug, Copy, Clone, Structural)]
pub struct Token {
    pub kind: TokenKind,
    span: Span,
}

impl View for Token {
    type V = TokenModel;

    closed spec fn view(&self) -> TokenModel {
        TokenModel { kind: self.kind@, span: self.span@ }
    }
}

impl DeepView for Token {
    type V = TokenModel;

    open spec fn deep_view(&self) -> TokenModel {
        self.view()
    }
}

impl Token {
    pub fn new(kind: TokenKind, span: Span) -> (t: Self)
        ensures
            t@ == (TokenModel { kind: kind@, span: span@ }),
    {
        Self { kind, span }
    }

    pub fn kind(&self) -> (r: &TokenKind)
        ensures
            r@ == self@.kind,
    {
        &self.kind
    }

    pub fn span(&self) -> (r: Span)
        ensures
            r@ == self@.span,
    {
        self.span
    }
}

} // verus!
