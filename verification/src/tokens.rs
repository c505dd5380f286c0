//! The token taxonomy produced by the lexer.

use vstd::prelude::*;

use crate::types::{JSONBoolean, JSONNumber, JSONString, SpecNumber};

verus! {

/// Whether a bracket token opens or closes its scope.
#[derive(Clone, Copy, Debug, PartialEq, Eq, Structural)]
pub enum ParenthesisType {
    Open,
    Close,
}

/// One classified unit of lexical input.  A token is immutable once
/// produced; equality is structural.
#[derive(Debug, Clone)]
pub enum Token {
    /// `[` or `]`.
    Bracket(ParenthesisType),
    /// `{` or `}`.
    CurlyBracket(ParenthesisType),
    /// The `,` separator.
    ElementDelimiter,
    /// The `:` separator.
    KeyDelimiter,
    /// The literal `null`.
    Null,
    /// The literal `true` or `false`.
    Boolean(JSONBoolean),
    /// A numeric literal.
    Number(JSONNumber),
    /// A string literal, with the exact characters between its `"`
    /// delimiters.
    String(JSONString),
}

/// The mathematical model of a token, with sequence-valued payloads.
pub enum SpecToken {
    Bracket(ParenthesisType),
    CurlyBracket(ParenthesisType),
    ElementDelimiter,
    KeyDelimiter,
    Null,
    Boolean(bool),
    Number(SpecNumber),
    String(Seq<char>),
}

impl View for Token {
    type V = SpecToken;

    open spec fn view(&self) -> SpecToken {
        match self {
            Token::Bracket(p) => SpecToken::Bracket(*p),
            Token::CurlyBracket(p) => SpecToken::CurlyBracket(*p),
            Token::ElementDelimiter => SpecToken::ElementDelimiter,
            Token::KeyDelimiter => SpecToken::KeyDelimiter,
            Token::Null => SpecToken::Null,
            Token::Boolean(b) => SpecToken::Boolean(*b),
            Token::Number(n) => SpecToken::Number(n@),
            Token::String(s) => SpecToken::String(s@),
        }
    }
}

/// Decides equality of two bracket kinds.
pub fn paren_eq(a: &ParenthesisType, b: &ParenthesisType) -> (r: bool)
    ensures
        r == (a == b),
{
    match (a, b) {
        (ParenthesisType::Open, ParenthesisType::Open) => true,
        (ParenthesisType::Close, ParenthesisType::Close) => true,
        _ => false,
    }
}

impl PartialEq for Token {
    /// Tokens are equal when they have the same variant and equal
    /// payloads.
    fn eq(&self, other: &Self) -> (r: bool) {
        match (self, other) {
            (Token::Bracket(a), Token::Bracket(b)) => paren_eq(a, b),
            (Token::CurlyBracket(a), Token::CurlyBracket(b)) => paren_eq(a, b),
            (Token::ElementDelimiter, Token::ElementDelimiter) => true,
            (Token::KeyDelimiter, Token::KeyDelimiter) => true,
            (Token::Null, Token::Null) => true,
            (Token::Boolean(a), Token::Boolean(b)) => a == b,
            (Token::Number(a), Token::Number(b)) => a == b,
            (Token::String(a), Token::String(b)) => *a == *b,
            _ => false,
        }
    }
}

impl vstd::std_specs::cmp::PartialEqSpecImpl for Token {
    open spec fn obeys_eq_spec() -> bool {
        true
    }

    open spec fn eq_spec(&self, other: &Self) -> bool {
        self@ == other@
    }
}

} // verus!
