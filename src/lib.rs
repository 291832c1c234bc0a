//! A pretty-printer for a small S-expression language: a structural
//! formatter over lexical tokens, and a compact renderer over expressions.

pub mod text;
pub mod token;
pub mod pretty;
pub mod compact;
