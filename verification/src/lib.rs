//! A reader for S-expression source text: a lexer that turns characters into
//! tokens and a parser that turns tokens into a tree of typed nodes.

pub mod lexer;
pub mod malformed;
pub mod numeral;
pub mod object;
pub mod parser;
pub mod render;
pub mod text;
pub mod token;
pub mod write;

pub use lexer::tokenize;
pub use object::Object;
pub use parser::{parse, parse_tokens, ParseError};
pub use token::Token;
