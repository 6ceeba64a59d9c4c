//! From a line of raw text to its spaced form and its value.

use vstd::prelude::*;
use crate::calc::{calculate, calculated, computes, flattened, reduced, takes_numbers, text_of, Arith,
    CalcError};
use crate::format::{format_tokens, normalized, spaced, trim_end, trim_start, trimmed};
use crate::lexer::{classify, lex, lexed, pieces, tokens_of, unknown_of, Piece};
use crate::number::is_float_literal;
use crate::text::{is_space, without_spaces};
use crate::token::{Tok, TokenType};

verus! {

/// What a line of raw text comes to.
pub struct Evaluation {
    /// The spaced form of the line.
    pub formatted: String,
    /// The pieces of the spaced form that were left out because they are
    /// no number, no operator and no bracket.
    pub unknown: Vec<String>,
    /// The text of the value, or why there is none.
    pub value: Result<String, CalcError>,
}

/// The value of a line of raw text: that of the tokens of its spaced form.
pub open spec fn evaluated(raw: Seq<char>, f: Arith) -> Result<Seq<char>, CalcError> {
    calculated(lexed(normalized(raw)), f)
}

/// `out` is what the line `raw` comes to with the arithmetic `arith`.
pub open spec fn is_evaluation<F: Fn(TokenType, &str, &str) -> String>(
    raw: Seq<char>,
    arith: &F,
    out: Evaluation,
) -> bool {
    &&& out.formatted@ == normalized(raw)
    &&& out.unknown.deep_view() == unknown_of(pieces(normalized(raw)))
    &&& forall|f: Arith| #[trigger] computes(arith, f) ==> text_of(out.value) == evaluated(raw, f)
    &&& out.value matches Ok(value) ==> is_float_literal(value@)
}

/// Spaces a line of raw text, reads its tokens and evaluates them.
pub fn evaluate_line<F: Fn(TokenType, &str, &str) -> String>(raw: &String, arith: &F) -> (out:
    Evaluation)
    requires
        takes_numbers(arith),
    ensures
        is_evaluation(raw@, arith, out),
{
    let formatted = format_tokens(raw);
    let read = lex(&formatted);
    let value = calculate(read.tokens, arith);
    Evaluation { formatted, unknown: read.unknown, value }
}

/// The same line with the same arithmetic comes to the same: whatever two
/// evaluations return, their spaced forms, the pieces they left out and
/// their values are equal.
pub proof fn lemma_evaluation_is_determined<F: Fn(TokenType, &str, &str) -> String>(
    raw: Seq<char>,
    arith: &F,
    f: Arith,
    first: Evaluation,
    second: Evaluation,
)
    requires
        computes(arith, f),
        is_evaluation(raw, arith, first),
        is_evaluation(raw, arith, second),
    ensures
        first.formatted@ == second.formatted@,
        first.unknown.deep_view() == second.unknown.deep_view(),
        text_of(first.value) == text_of(second.value),
{
}

proof fn lemma_all_spaces_removed(raw: Seq<char>)
    requires
        forall|i: int| 0 <= i < raw.len() ==> is_space(#[trigger] raw[i]),
    ensures
        without_spaces(raw) == Seq::<char>::empty(),
    decreases raw.len(),
{
    reveal(Seq::filter);
    if raw.len() > 0 {
        assert(is_space(raw[raw.len() - 1]));
        lemma_all_spaces_removed(raw.drop_last());
    }
}

/// A line that is empty or holds nothing but white space has an empty
/// spaced form and no tokens, and its evaluation ends with the error that
/// there is no value.
pub proof fn lemma_blank_line(raw: Seq<char>, f: Arith)
    requires
        forall|i: int| 0 <= i < raw.len() ==> is_space(#[trigger] raw[i]),
    ensures
        normalized(raw) == Seq::<char>::empty(),
        lexed(normalized(raw)) == Seq::<Tok>::empty(),
        evaluated(raw, f) == Err::<Seq<char>, CalcError>(CalcError::NoValue),
{
    let none = Seq::<char>::empty();
    lemma_all_spaces_removed(raw);
    assert(spaced(none) == none);
    assert(trimmed(none) == none);
    assert(pieces(none) == seq![none]);
    assert(!is_float_literal(none));
    assert(classify(none) == Piece::Stop);
    assert(seq![none].first() == none);
    assert(tokens_of(seq![none]) == Seq::<Tok>::empty());
    let no_tokens = Seq::<Tok>::empty();
    assert(flattened(no_tokens, 0, f) == Ok::<Seq<Tok>, CalcError>(no_tokens));
    assert(forall|tier: i8| reduced(no_tokens, tier, 0, f) == Ok::<Seq<Tok>, CalcError>(no_tokens));
}

} // verus!
