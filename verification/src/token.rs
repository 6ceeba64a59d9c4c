//! Tokens: a piece of text, its kind and its precedence tag.

use vstd::prelude::*;

#[allow(non_snake_case)]
pub mod TokenPrio;

verus! {

/// The kinds of token.
#[derive(Clone, Copy, PartialEq, Eq, Debug, Structural)]
pub enum TokenType {
    Number,
    Addition,
    Subtract,
    Multiply,
    Division,
    Exponent,
    ParenOpen,
    ParenClose,
}

/// The precedence tag that belongs to a kind.
pub open spec fn priority_of(ttype: TokenType) -> i8 {
    match ttype {
        TokenType::Number => TokenPrio::NONE,
        TokenType::Addition => TokenPrio::ADD,
        TokenType::Subtract => TokenPrio::SUB,
        TokenType::Multiply => TokenPrio::MUL,
        TokenType::Division => TokenPrio::DIV,
        TokenType::Exponent => TokenPrio::EXP,
        TokenType::ParenOpen => TokenPrio::PAR,
        TokenType::ParenClose => TokenPrio::PAR,
    }
}

/// Whether a kind is one of the five binary operators.
pub open spec fn is_operator(ttype: TokenType) -> bool {
    ttype == TokenType::Addition || ttype == TokenType::Subtract || ttype == TokenType::Multiply
        || ttype == TokenType::Division || ttype == TokenType::Exponent
}

impl TokenType {
    /// The precedence tag of this kind.
    pub fn priority(self) -> (prio: i8)
        ensures
            prio == priority_of(self),
    {
        match self {
            TokenType::Number => TokenPrio::NONE,
            TokenType::Addition => TokenPrio::ADD,
            TokenType::Subtract => TokenPrio::SUB,
            TokenType::Multiply => TokenPrio::MUL,
            TokenType::Division => TokenPrio::DIV,
            TokenType::Exponent => TokenPrio::EXP,
            TokenType::ParenOpen => TokenPrio::PAR,
            TokenType::ParenClose => TokenPrio::PAR,
        }
    }

    /// Whether this kind is one of the five binary operators.
    pub fn is_binary(self) -> (b: bool)
        ensures
            b == is_operator(self),
    {
        match self {
            TokenType::Addition
            | TokenType::Subtract
            | TokenType::Multiply
            | TokenType::Division
            | TokenType::Exponent => true,
            _ => false,
        }
    }
}

/// One token of an expression.
#[derive(Clone, Debug, PartialEq, Eq)]
pub struct Token {
    /// The text it was read from: that of a number, or the one character of
    /// an operator or a bracket.
    pub value: String,
    /// Its kind.
    pub ttype: TokenType,
    /// Its precedence tag, which goes by the kind.
    pub prio: i8,
}

/// What a token is to the contracts: its characters, kind and tag.
pub struct Tok {
    pub value: Seq<char>,
    pub ttype: TokenType,
    pub prio: i8,
}

impl Tok {
    /// The tag is the one that belongs to the kind.
    pub open spec fn wf(self) -> bool {
        self.prio == priority_of(self.ttype)
    }

    /// A number token with the given text.
    pub open spec fn number(value: Seq<char>) -> Tok {
        Tok { value, ttype: TokenType::Number, prio: TokenPrio::NONE }
    }
}

impl View for Token {
    type V = Tok;

    open spec fn view(&self) -> Tok {
        Tok { value: self.value@, ttype: self.ttype, prio: self.prio }
    }
}

impl DeepView for Token {
    type V = Tok;

    open spec fn deep_view(&self) -> Tok {
        self@
    }
}

impl Token {
    /// A token of the given kind, tagged with that kind's precedence.
    pub fn new(value: String, ttype: TokenType) -> (token: Token)
        ensures
            token@ == (Tok { value: value@, ttype, prio: priority_of(ttype) }),
            token@.wf(),
    {
        Token { value, ttype, prio: ttype.priority() }
    }

    /// A copy with the same text, kind and tag.
    pub fn duplicate(&self) -> (token: Token)
        ensures
            token@ == self@,
    {
        Token { value: self.value.clone(), ttype: self.ttype, prio: self.prio }
    }
}

} // verus!
