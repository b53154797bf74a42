//! Lexical tokens.
use vstd::prelude::*;

verus! {

/// A lexical token.
#[derive(Debug, PartialEq, Clone)]
pub enum Token {
    Keyword(String),
    Ident(String),
    /// A numeric literal, held as it was written.
    Number(String),
    StringLiteral(String),
    Type(String),
    Symbol(char),
    Unknown(char),
}

/// The mathematical value of a [`Token`]: the same variants over sequences of
/// characters.
pub enum TokenView {
    Keyword(Seq<char>),
    Ident(Seq<char>),
    Number(Seq<char>),
    StringLiteral(Seq<char>),
    Type(Seq<char>),
    Symbol(char),
    Unknown(char),
}

impl View for Token {
    type V = TokenView;

    open spec fn view(&self) -> TokenView {
        match self {
            Token::Keyword(s) => TokenView::Keyword(s@),
            Token::Ident(s) => TokenView::Ident(s@),
            Token::Number(s) => TokenView::Number(s@),
            Token::StringLiteral(s) => TokenView::StringLiteral(s@),
            Token::Type(s) => TokenView::Type(s@),
            Token::Symbol(c) => TokenView::Symbol(*c),
            Token::Unknown(c) => TokenView::Unknown(*c),
        }
    }
}

} // verus!
