//! The language: its syntax tree, parser, printer, environments and
//! interpreter.

use vstd::prelude::*;
use vstd::string::*;
use crate::text::{decimal, decimal_text};
use crate::token_type::{Token, TokenType, TokenView};

pub mod ast;

verus! {

/// The line that reports an error of the parser at `token`: the line of
/// the source, the token's text (or that the source ends there), and what
/// is wrong.
pub open spec fn parse_error_text(token: TokenView, message: Seq<char>) -> Seq<char> {
    if token.token_type == TokenType::EOF {
        "ParseError: [line "@ + decimal_text(token.line as nat) + "] at end "@ + message
    } else {
        "ParseError: [line "@ + decimal_text(token.line as nat) + "] at '"@ + token.lexeme + "' "@
            + message
    }
}

/// The report of an error of the parser at `token`.
pub fn error(token: &Token, message: &str) -> (r: String)
    ensures
        r@ == parse_error_text(token@, message@),
{
    let mut s = String::from_str("ParseError: [line ");
    s.append(decimal(token.line).as_str());
    if token.token_type == TokenType::EOF {
        s.append("] at end ");
        s.append(message);
    } else {
        s.append("] at '");
        s.append(token.lexeme.as_str());
        s.append("' ");
        s.append(message);
    }
    s
}

} // verus!
