//! The errors a parse can return.
use crate::model::ErrorModel;
use crate::parsing::lexer::token::kind::TokenKind;
use vstd::prelude::*;

verus! {

/// A token (or rejected character) of the wrong kind, with its position.
#[derive(Debug, Clone)]
pub struct Unexpected(TokenKind, usize);

impl View for Unexpected {
    type V = ErrorModel;

    closed spec fn view(&self) -> ErrorModel {
        ErrorModel::UnexpectedToken(self.0@, self.1 as int)
    }
}

impl Unexpected {
    pub fn new(kind: TokenKind, start: usize) -> (u: Self)
        ensures
            u@ == ErrorModel::UnexpectedToken(kind@, start as int),
    {
        Self(kind, start)
    }

    /// The kind of the offending token.
    pub fn kind(&self) -> (r: &TokenKind)
        ensures
            self@ matches ErrorModel::UnexpectedToken(k, _) && k == r@,
    {
        &self.0
    }

    /// Where the offending token starts.
    pub fn position(&self) -> (r: usize)
        ensures
            self@ matches ErrorModel::UnexpectedToken(_, p) && p == r,
    {
        self.1
    }
}

/// Why a parse failed.
#[derive(Debug, Clone)]
pub enum Error {
    InvalidSchemeCharacters,
    InvalidHostCharacters,
    InvalidPort,
    MissingHost,
    SchemeWithoutAuthority,
    UnexpectedToken(Unexpected),
}

impl View for Error {
    type V = ErrorModel;

    open spec fn view(&self) -> ErrorModel {
        match *self {
            Error::InvalidSchemeCharacters => ErrorModel::InvalidSchemeCharacters,
            Error::InvalidHostCharacters => ErrorModel::InvalidHostCharacters,
            Error::InvalidPort => ErrorModel::InvalidPort,
            Error::MissingHost => ErrorModel::MissingHost,
            Error::SchemeWithoutAuthority => ErrorModel::SchemeWithoutAuthority,
            Error::UnexpectedToken(u) => u@,
        }
    }
}

} // verus!
