//! Scanning and expression parsing for the Lox language.

pub mod lexical;
pub mod parsing;
pub mod scanning;
mod text;

pub use parsing::{parse_expression, tree_text, AstNode};
pub use scanning::{scan_tokens, token_line, ScanError, Scanner, Token, TokenType};
