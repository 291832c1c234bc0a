//! Lexical tokens as the formatter consumes them, and its diagnostics.
use vstd::prelude::*;

verus! {

/// A lexical token. Numbers arrive already lexed: an integer as its value,
/// a float as the text of its shortest round-trip form.
#[derive(Debug)]
pub enum Token {
    Comment(String),
    String(String),
    Symbol(String),
    Int(i64),
    Float(String),
    Annotation(String),
    Quote,
    LeftParen,
    RightParen,
    LeftBracket,
    RightBracket,
    LeftBrace,
    RightBrace,
}

/// A span of source positions; carried along, never rendered.
#[derive(Debug, Clone, Copy, PartialEq, Eq)]
pub struct Range {
    pub start: usize,
    pub end: usize,
}

/// A token together with the source span it was read from.
#[derive(Debug)]
pub struct Ranged(pub Token, pub Range);

/// A diagnostic collected while formatting.
#[derive(Debug)]
pub enum Error {
    /// A closing delimiter where an expression was expected (recoverable).
    UnexpectedToken(Token),
    /// The tokens ran out inside an open list (aborts the pass).
    UnterminatedList,
}

/// The failure that aborts a formatting pass; the details are in the
/// collected diagnostics.
#[derive(Debug)]
pub struct NonRecoverableError {}

/// Token equality: same variant and same payload.
pub open spec fn same_token(a: Token, b: Token) -> bool {
    match (a, b) {
        (Token::Comment(x), Token::Comment(y)) => x@ == y@,
        (Token::String(x), Token::String(y)) => x@ == y@,
        (Token::Symbol(x), Token::Symbol(y)) => x@ == y@,
        (Token::Int(x), Token::Int(y)) => x == y,
        (Token::Float(x), Token::Float(y)) => x@ == y@,
        (Token::Annotation(x), Token::Annotation(y)) => x@ == y@,
        (Token::Quote, Token::Quote) => true,
        (Token::LeftParen, Token::LeftParen) => true,
        (Token::RightParen, Token::RightParen) => true,
        (Token::LeftBracket, Token::LeftBracket) => true,
        (Token::RightBracket, Token::RightBracket) => true,
        (Token::LeftBrace, Token::LeftBrace) => true,
        (Token::RightBrace, Token::RightBrace) => true,
        _ => false,
    }
}

/// An opening delimiter of one of the three bracket families.
pub open spec fn is_open(t: Token) -> bool {
    t is LeftParen || t is LeftBracket || t is LeftBrace
}

/// A closing delimiter of one of the three bracket families.
pub open spec fn is_close(t: Token) -> bool {
    t is RightParen || t is RightBracket || t is RightBrace
}

/// The closing delimiter that ends the list an opening delimiter starts.
pub open spec fn closer_of(t: Token) -> Token {
    match t {
        Token::LeftBracket => Token::RightBracket,
        Token::LeftBrace => Token::RightBrace,
        _ => Token::RightParen,
    }
}

impl Token {
    /// Whether `self` and `other` are the same token.
    pub fn same_as(&self, other: &Token) -> (r: bool)
        ensures
            r == same_token(*self, *other),
    {
        match (self, other) {
            (Token::Comment(x), Token::Comment(y)) => x.eq(y),
            (Token::String(x), Token::String(y)) => x.eq(y),
            (Token::Symbol(x), Token::Symbol(y)) => x.eq(y),
            (Token::Int(x), Token::Int(y)) => *x == *y,
            (Token::Float(x), Token::Float(y)) => x.eq(y),
            (Token::Annotation(x), Token::Annotation(y)) => x.eq(y),
            (Token::Quote, Token::Quote) => true,
            (Token::LeftParen, Token::LeftParen) => true,
            (Token::RightParen, Token::RightParen) => true,
            (Token::LeftBracket, Token::LeftBracket) => true,
            (Token::RightBracket, Token::RightBracket) => true,
            (Token::LeftBrace, Token::LeftBrace) => true,
            (Token::RightBrace, Token::RightBrace) => true,
            _ => false,
        }
    }
}

} // verus!
