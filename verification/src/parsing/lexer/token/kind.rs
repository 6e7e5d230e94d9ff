//! Token classification.
use super::span::Span;
use crate::model::KindModel;
use vstd::prelude::*;

verus! {

/// The kind of a token: one of the five URI delimiters, an identifier run
/// (carrying its span), or a character the lexer rejected.
#[derive(PartialEq, Eq, Debug, Copy, Clone, Structural)]
pub enum TokenKind {
    Colon,
    ForwardSlash,
    QuestionMark,
    PoundSign,
    At,
    Ident(Span),
    Other(char),
}

impl View for TokenKind {
    type V = KindModel;

    open spec fn view(&self) -> KindModel {
        match *self {
            TokenKind::Colon => KindModel::Colon,
            TokenKind::ForwardSlash => KindModel::ForwardSlash,
            TokenKind::QuestionMark => KindModel::QuestionMark,
            TokenKind::PoundSign => KindModel::PoundSign,
            TokenKind::At => KindModel::At,
            TokenKind::Ident(sp) => KindModel::Ident(sp@),
            TokenKind::Other(c) => KindModel::Other(c),
        }
    }
}

impl DeepView for TokenKind {
    type V = KindModel;

    open spec fn deep_view(&self) -> KindModel {
        self.view()
    }
}

} // verus!
