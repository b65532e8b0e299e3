//! The closed set of lexical categories the tokenizer can emit.

use vstd::prelude::*;

verus! {

/// The mathematical image of a `Token`: string payloads become character
/// sequences, the integer payload becomes an unbounded natural.
pub ghost enum TokM {
    Let,
    In,
    Id(Seq<char>),
    Int(nat),
    Str(Seq<char>),
    LPar,
    RPar,
    Equal,
    Plus,
    Star,
    Slash,
    Minus,
    Error,
}

/// A lexical token. `Id`, `Int` and `Str` carry payloads; the rest are unit
/// variants. `Error` stands for a single unrecognized character.
#[derive(Debug)]
pub enum Token {
    Let,
    In,
    Id(String),
    Int(usize),
    Str(String),
    LPar,
    RPar,
    Equal,
    Plus,
    Star,
    Slash,
    Minus,
    Error,
}

impl View for Token {
    type V = TokM;

    open spec fn view(&self) -> TokM {
        match self {
            Token::Let => TokM::Let,
            Token::In => TokM::In,
            Token::Id(s) => TokM::Id(s@),
            Token::Int(n) => TokM::Int(*n as nat),
            Token::Str(s) => TokM::Str(s@),
            Token::LPar => TokM::LPar,
            Token::RPar => TokM::RPar,
            Token::Equal => TokM::Equal,
            Token::Plus => TokM::Plus,
            Token::Star => TokM::Star,
            Token::Slash => TokM::Slash,
            Token::Minus => TokM::Minus,
            Token::Error => TokM::Error,
        }
    }
}

impl Clone for Token {
    /// Structural copy: the clone has the same view as the original.
    fn clone(&self) -> (r: Token)
        ensures
            r@ == self@,
    {
        match self {
            Token::Let => Token::Let,
            Token::In => Token::In,
            Token::Id(s) => Token::Id(s.clone()),
            Token::Int(n) => Token::Int(*n),
            Token::Str(s) => Token::Str(s.clone()),
            Token::LPar => Token::LPar,
            Token::RPar => Token::RPar,
            Token::Equal => Token::Equal,
            Token::Plus => Token::Plus,
            Token::Star => Token::Star,
            Token::Slash => Token::Slash,
            Token::Minus => Token::Minus,
            Token::Error => Token::Error,
        }
    }
}

impl PartialEq for Token {
    /// Structural equality: payload-free variants compare by variant alone,
    /// `Id`/`Int`/`Str` also compare their payloads.
    fn eq(&self, other: &Token) -> (r: bool) {
        match (self, other) {
            (Token::Let, Token::Let) => true,
            (Token::In, Token::In) => true,
            (Token::Id(a), Token::Id(b)) => *a == *b,
            (Token::Int(a), Token::Int(b)) => *a == *b,
            (Token::Str(a), Token::Str(b)) => *a == *b,
            (Token::LPar, Token::LPar) => true,
            (Token::RPar, Token::RPar) => true,
            (Token::Equal, Token::Equal) => true,
            (Token::Plus, Token::Plus) => true,
            (Token::Star, Token::Star) => true,
            (Token::Slash, Token::Slash) => true,
            (Token::Minus, Token::Minus) => true,
            (Token::Error, Token::Error) => true,
            _ => false,
        }
    }
}

impl vstd::std_specs::cmp::PartialEqSpecImpl for Token {
    open spec fn obeys_eq_spec() -> bool {
        true
    }

    open spec fn eq_spec(&self, other: &Token) -> bool {
        self@ == other@
    }
}

impl Eq for Token {}

} // verus!
