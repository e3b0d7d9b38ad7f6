//! Tokens: the lexical units of S-expression source text.

use crate::numeral::{decimal_text, integer_text};
use vstd::prelude::*;
use vstd::string::StringExecFns;

verus! {

/// One lexical unit.
///
/// A `Float` holds the spelling of its literal, which satisfies
/// [`crate::numeral::is_float_literal`]; turning the spelling into a binary
/// floating-point value is left to the caller.
#[derive(PartialEq, Debug)]
pub enum Token {
    /// A whole-number literal.
    Integer(i64),
    /// A decimal literal, as it was written.
    Float(String),
    /// An identifier or operator: any word that is nothing else.
    Symbol(String),
    /// A double-quoted literal, without its quotes.
    String(String),
    /// Opens a list.
    LParen,
    /// Closes a list.
    RParen,
    /// The word that introduces an anonymous function.
    Lambda,
}

/// What a token is, with its text as a sequence of characters.
pub ghost enum TokenView {
    Integer(i64),
    Float(Seq<char>),
    Symbol(Seq<char>),
    String(Seq<char>),
    LParen,
    RParen,
    Lambda,
}

impl View for Token {
    type V = TokenView;

    open spec fn view(&self) -> TokenView {
        match self {
            Token::Integer(n) => TokenView::Integer(*n),
            Token::Float(s) => TokenView::Float(s@),
            Token::Symbol(s) => TokenView::Symbol(s@),
            Token::String(s) => TokenView::String(s@),
            Token::LParen => TokenView::LParen,
            Token::RParen => TokenView::RParen,
            Token::Lambda => TokenView::Lambda,
        }
    }
}

/// The views of a run of tokens, in order.
pub open spec fn token_views(tokens: Seq<Token>) -> Seq<TokenView> {
    tokens.map_values(|t: Token| t@)
}

/// How a token is shown: numbers in decimal, words and string contents as
/// they are, and the three fixed tokens by their spelling.
pub open spec fn token_text(t: TokenView) -> Seq<char> {
    match t {
        TokenView::Integer(n) => decimal_text(n as int),
        TokenView::Float(s) => s,
        TokenView::Symbol(s) => s,
        TokenView::String(s) => s,
        TokenView::LParen => "("@,
        TokenView::RParen => ")"@,
        TokenView::Lambda => "lambda"@,
    }
}

impl Clone for Token {
    /// A token of its own with the same view.
    fn clone(&self) -> (copy: Token)
        ensures
            copy@ == self@,
    {
        match self {
            Token::Integer(n) => Token::Integer(*n),
            Token::Float(s) => Token::Float(s.clone()),
            Token::Symbol(s) => Token::Symbol(s.clone()),
            Token::String(s) => Token::String(s.clone()),
            Token::LParen => Token::LParen,
            Token::RParen => Token::RParen,
            Token::Lambda => Token::Lambda,
        }
    }
}

impl Token {
    /// The token as text.
    pub fn to_text(&self) -> (s: String)
        ensures
            s@ == token_text(self@),
    {
        match self {
            Token::Integer(n) => integer_text(*n),
            Token::Float(s) => s.clone(),
            Token::Symbol(s) => s.clone(),
            Token::String(s) => s.clone(),
            Token::LParen => String::from_str("("),
            Token::RParen => String::from_str(")"),
            Token::Lambda => String::from_str("lambda"),
        }
    }
}

} // verus!
