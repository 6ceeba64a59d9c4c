//! Infix arithmetic expressions: spacing, tokens and tiered evaluation.

pub mod brackets;
pub mod calc;
pub mod format;
pub mod lexer;
pub mod number;
pub mod pipeline;
pub mod reference;
pub mod text;
pub mod token;
