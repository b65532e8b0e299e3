//! The two ways a parse can fail.

use vstd::prelude::*;

use crate::location::Spanned;
use crate::token::Token;

verus! {

/// A structured syntax error. `UnexpectedToken` carries the offending token
/// and its span; `UnexpectedEOF` says the token stream ended where at least
/// one more token was required.
#[derive(Debug)]
pub enum SyntaxError {
    UnexpectedToken(Spanned<Token>),
    UnexpectedEOF,
}

} // verus!
