//! Evaluation of a token sequence: brackets first, then the operators tier by tier.
//!
//! The arithmetic itself is handed in: a function from an operator and the
//! texts of two numbers to the text of the result. Everything here holds for
//! whatever that function computes.

use vstd::prelude::*;
use crate::brackets::{closing, group_end, group_inside, is_bracket, lemma_closing_around,
    lemma_closing_from_bounds, lemma_closing_skips, lemma_closing_window};
use crate::number::{is_float_literal, is_number_text};
use crate::token::{is_operator, priority_of, Tok, Token, TokenPrio, TokenType};

verus! {

/// Why an evaluation gave no value.
#[derive(Clone, Copy, PartialEq, Eq, Debug, Structural)]
pub enum CalcError {
    /// There was no token to take a value from: the sequence, or the inside
    /// of a pair of brackets, was empty.
    NoValue,
    /// A text that had to stand for a number stands for none.
    NotANumber,
}

/// The arithmetic: from an operator and the texts of its left and right
/// operand to the text of the result.
pub type Arith = spec_fn(TokenType, Seq<char>, Seq<char>) -> Seq<char>;

/// `s` with the tokens at `begin..=end` replaced by one number token that
/// holds `value`.
pub open spec fn splice(s: Seq<Tok>, begin: int, end: int, value: Seq<char>) -> Seq<Tok> {
    s.subrange(0, begin).push(Tok::number(value)) + s.subrange(end + 1, s.len() as int)
}

/// One pass over the operators of one tier, from index `i` on, left to
/// right. An operator of the tier that has a token on either side is
/// replaced, with both neighbours, by the number that the arithmetic gives
/// for it, and the pass goes on at the token that followed the right-hand
/// neighbour. An operator at either end of the sequence is passed over. A
/// neighbour whose text is no number ends the pass with an error.
pub open spec fn reduced(s: Seq<Tok>, tier: i8, i: int, f: Arith) -> Result<Seq<Tok>, CalcError>
    decreases s.len() - i,
{
    if i < 0 || i >= s.len() {
        Ok(s)
    } else if is_operator(s[i].ttype) && priority_of(s[i].ttype) == tier && 0 < i < s.len() - 1 {
        if is_float_literal(s[i - 1].value) && is_float_literal(s[i + 1].value) {
            reduced(
                splice(s, i - 1, i + 1, f(s[i].ttype, s[i - 1].value, s[i + 1].value)),
                tier,
                i,
                f,
            )
        } else {
            Err(CalcError::NotANumber)
        }
    } else {
        reduced(s, tier, i + 1, f)
    }
}

/// The value that a reduced sequence stands for: the text of its first
/// token, which has to be a number.
pub open spec fn first_value(s: Seq<Tok>) -> Result<Seq<char>, CalcError> {
    if s.len() == 0 {
        Err(CalcError::NoValue)
    } else if !is_float_literal(s[0].value) {
        Err(CalcError::NotANumber)
    } else {
        Ok(s[0].value)
    }
}

/// One pass over the brackets, from index `i` on, left to right: each group
/// that opens at or after `i` is replaced by the number that its inside
/// evaluates to.
pub open spec fn flattened(s: Seq<Tok>, i: int, f: Arith) -> Result<Seq<Tok>, CalcError>
    decreases s.len(), 0int, s.len() - i,
{
    if i < 0 || i >= s.len() {
        Ok(s)
    } else if s[i].ttype == TokenType::ParenOpen {
        proof {
            lemma_closing_from_bounds(s, i + 1, 0);
        }
        match calculated(group_inside(s, i), f) {
            Ok(value) => flattened(splice(s, i, group_end(s, i), value), i + 1, f),
            Err(e) => Err(e),
        }
    } else {
        flattened(s, i + 1, f)
    }
}

/// The tokens that are left when the pass over the brackets and then the
/// passes over the powers, over the products and quotients and over the
/// sums and differences are done.
pub open spec fn settled(s: Seq<Tok>, f: Arith) -> Result<Seq<Tok>, CalcError>
    decreases s.len(), 1int, 0int,
{
    match flattened(s, 0, f) {
        Err(e) => Err(e),
        Ok(s4) => match reduced(s4, TokenPrio::EXP, 0, f) {
            Err(e) => Err(e),
            Ok(s3) => match reduced(s3, TokenPrio::MUL, 0, f) {
                Err(e) => Err(e),
                Ok(s2) => reduced(s2, TokenPrio::ADD, 0, f),
            },
        },
    }
}

/// The value of a token sequence: its brackets are resolved, then its
/// powers, then its products and quotients, then its sums and differences
/// are reduced, each tier from left to right; the first token that is left
/// holds the value.
pub open spec fn calculated(s: Seq<Tok>, f: Arith) -> Result<Seq<char>, CalcError>
    decreases s.len(), 2int, 0int,
{
    match settled(s, f) {
        Err(e) => Err(e),
        Ok(left) => first_value(left),
    }
}

/// `s` with the group that opens at `begin` replaced by the number that its
/// inside evaluates to. The group runs to the matching closing bracket, or
/// to the end of `s` where there is none.
pub open spec fn bracketed(s: Seq<Tok>, begin: int, f: Arith) -> Result<Seq<Tok>, CalcError> {
    if begin < 0 || begin >= s.len() {
        Ok(s)
    } else {
        match calculated(group_inside(s, begin), f) {
            Ok(value) => Ok(splice(s, begin, group_end(s, begin), value)),
            Err(e) => Err(e),
        }
    }
}

/// The tokens as the resolution of a group leaves them where it ends
/// without a value. Scanning on from `from`, each group that has a value is
/// replaced by it; the scan goes into the first group that has none, and
/// ends at the first closing bracket or at the end of the sequence.
pub open spec fn stalled(s: Seq<Tok>, from: int, f: Arith) -> Seq<Tok>
    decreases s.len() - from,
{
    if from < 0 || from >= s.len() || s[from].ttype == TokenType::ParenClose {
        s
    } else if s[from].ttype == TokenType::ParenOpen {
        proof {
            lemma_closing_from_bounds(s, from + 1, 0);
        }
        match calculated(group_inside(s, from), f) {
            Ok(value) => stalled(splice(s, from, group_end(s, from), value), from + 1, f),
            Err(e) => stalled(s, from + 1, f),
        }
    } else {
        stalled(s, from + 1, f)
    }
}

/// The arithmetic can be called on every operator and every two texts
/// that stand for numbers.
pub open spec fn takes_numbers<F: Fn(TokenType, &str, &str) -> String>(arith: &F) -> bool {
    forall|op: TokenType, a: &str, b: &str|
        is_operator(op) && is_float_literal(a@) && is_float_literal(b@) ==> #[trigger] call_requires(
            *arith,
            (op, a, b),
        )
}

/// Whatever the arithmetic returns is what `f` gives for the same operator
/// and texts.
pub open spec fn computes<F: Fn(TokenType, &str, &str) -> String>(arith: &F, f: Arith) -> bool {
    forall|op: TokenType, a: &str, b: &str, r: String| #[trigger]
        call_ensures(*arith, (op, a, b), r) ==> r@ == f(op, a@, b@)
}

/// The characters of a result.
pub open spec fn text_of(res: Result<String, CalcError>) -> Result<Seq<char>, CalcError> {
    match res {
        Ok(value) => Ok(value@),
        Err(e) => Err(e),
    }
}

/// Replaces the tokens at `begin..=end` by one number token that holds
/// `value`. Where `begin` is `end + 1` no token leaves and the number is put
/// in before the token at `begin`.
pub fn swap_expression(tokens: &mut Vec<Token>, begin: usize, end: usize, value: String)
    requires
        begin <= end + 1 <= old(tokens).len(),
    ensures
        final(tokens).deep_view() == splice(
            old(tokens).deep_view(),
            begin as int,
            end as int,
            value@,
        ),
        final(tokens).len() == old(tokens).len() + begin - end,
{
    let mut tail = tokens.split_off(end + 1);
    tokens.truncate(begin);
    tokens.push(Token { value, ttype: TokenType::Number, prio: TokenPrio::NONE });
    tokens.append(&mut tail);
    assert(tokens.deep_view() =~= splice(
        old(tokens).deep_view(),
        begin as int,
        end as int,
        value@,
    ));
}

fn copy_tokens(tokens: &Vec<Token>, from: usize, to: usize) -> (out: Vec<Token>)
    requires
        from <= to <= tokens.len(),
    ensures
        out.deep_view() == tokens.deep_view().subrange(from as int, to as int),
        out.len() == to - from,
{
    let mut out: Vec<Token> = Vec::new();
    let mut i: usize = from;
    while i < to
        invariant
            from <= i <= to <= tokens.len(),
            out.len() == i - from,
            forall|k: int| 0 <= k < out.len() ==> (#[trigger] out[k])@ == tokens[from + k]@,
        decreases to - i,
    {
        out.push(tokens[i].duplicate());
        i += 1;
    }
    proof {
        assert(out.deep_view() =~= tokens.deep_view().subrange(from as int, to as int));
    }
    out
}

/// Resolves the group that opens at `begin`: finds where it closes, having
/// first resolved each group that opens inside it, evaluates what stands
/// between the two brackets, and puts the number in place of the group. A
/// group that is never closed runs to the end of the sequence. Where
/// `begin` is no index of the sequence, nothing is done. On an error the
/// groups inside that were resolved before it stay resolved.
pub fn calculate_brackets<F: Fn(TokenType, &str, &str) -> String>(
    tokens: &mut Vec<Token>,
    begin: usize,
    arith: &F,
) -> (res: Result<(), CalcError>)
    requires
        takes_numbers(arith),
    ensures
        forall|f: Arith| #[trigger]
            computes(arith, f) ==> match res {
                Ok(()) => bracketed(old(tokens).deep_view(), begin as int, f) == Ok::<
                    Seq<Tok>,
                    CalcError,
                >(final(tokens).deep_view()),
                Err(e) => {
                    &&& bracketed(old(tokens).deep_view(), begin as int, f) == Err::<
                        Seq<Tok>,
                        CalcError,
                    >(e)
                    &&& final(tokens).deep_view() == stalled(
                        old(tokens).deep_view(),
                        begin + 1,
                        f,
                    )
                },
            },
        final(tokens).len() <= old(tokens).len(),
        forall|k: int|
            0 <= k < old(tokens).len() && (k < begin || (k == begin && res is Err)) ==> k < final(tokens).len() && #[trigger] final(tokens).deep_view()[k] == old(tokens).deep_view()[k],
        res is Ok && begin < old(tokens).len() ==> begin < final(tokens).len() && final(tokens).deep_view()[begin as int].ttype == TokenType::Number,
    decreases old(tokens).len() - begin, 0int,
{
    if begin >= tokens.len() {
        return Ok(());
    }
    let ghost orig = tokens.deep_view();
    let mut i: usize = begin + 1;
    while i < tokens.len() && tokens[i].ttype != TokenType::ParenClose
        invariant
            begin < i <= tokens.len() <= old(tokens).len(),
            orig == old(tokens).deep_view(),
            takes_numbers(arith),
            forall|k: int| 0 <= k <= begin ==> #[trigger] tokens.deep_view()[k] == orig[k],
            forall|k: int| begin < k < i ==> !is_bracket(#[trigger] tokens.deep_view()[k]),
            forall|f: Arith| #[trigger]
                computes(arith, f) ==> bracketed(orig, begin as int, f) == bracketed(
                    tokens.deep_view(),
                    begin as int,
                    f,
                ) && stalled(orig, begin + 1, f) == stalled(tokens.deep_view(), i as int, f),
        decreases tokens.len() - i,
    {
        if tokens[i].ttype == TokenType::ParenOpen {
            let ghost before = tokens.deep_view();
            match calculate_brackets(tokens, i, arith) {
                Err(e) => {
                    proof {
                        assert forall|f: Arith| #[trigger] computes(arith, f) implies bracketed(
                            orig,
                            begin as int,
                            f,
                        ) == Err::<Seq<Tok>, CalcError>(e) && tokens.deep_view() == stalled(
                            orig,
                            begin + 1,
                            f,
                        ) by {
                            lemma_nested_group(before, begin as int, i as int, f);
                        }
                    }
                    return Err(e);
                },
                Ok(()) => {
                    proof {
                        let now = tokens.deep_view();
                        assert forall|f: Arith| #[trigger] computes(arith, f) implies bracketed(
                            orig,
                            begin as int,
                            f,
                        ) == bracketed(now, begin as int, f) && stalled(orig, begin + 1, f)
                            == stalled(now, i + 1, f) by {
                            lemma_nested_group(before, begin as int, i as int, f);
                        }
                        assert forall|k: int| begin < k < i + 1 implies !is_bracket(
                            #[trigger] now[k],
                        ) by {
                            if k < i {
                                assert(now[k] == before[k]);
                            }
                        }
                    }
                },
            }
        }
        i += 1;
    }
    let ghost cur = tokens.deep_view();
    proof {
        lemma_closing_skips(cur, begin + 1, i as int, 0);
        assert(closing(cur, begin as int) == i);
    }
    let sub = copy_tokens(tokens, begin + 1, i);
    match calculate(sub, arith) {
        Err(e) => {
            proof {
                assert forall|f: Arith| #[trigger] computes(arith, f) implies bracketed(
                    orig,
                    begin as int,
                    f,
                ) == Err::<Seq<Tok>, CalcError>(e) && tokens.deep_view() == stalled(
                    orig,
                    begin + 1,
                    f,
                ) by {
                    assert(text_of(Err::<String, CalcError>(e)) == calculated(sub.deep_view(), f));
                }
            }
            Err(e)
        },
        Ok(value) => {
            let last = if i < tokens.len() {
                i
            } else {
                tokens.len() - 1
            };
            swap_expression(tokens, begin, last, value);
            proof {
                assert forall|f: Arith| #[trigger] computes(arith, f) implies bracketed(
                    orig,
                    begin as int,
                    f,
                ) == Ok::<Seq<Tok>, CalcError>(tokens.deep_view()) by {
                    assert(text_of(Ok::<String, CalcError>(value)) == calculated(
                        sub.deep_view(),
                        f,
                    ));
                }
            }
            Ok(())
        },
    }
}

/// One pass of one tier from index `i` on: over the brackets for the
/// highest tier, over the operators of the tier for the others.
spec fn pass(s: Seq<Tok>, tier: i8, i: int, f: Arith) -> Result<Seq<Tok>, CalcError> {
    if tier == TokenPrio::PAR {
        flattened(s, i, f)
    } else {
        reduced(s, tier, i, f)
    }
}

/// The value of `s` once the passes of the tiers above `tier` are done.
spec fn from_tier(s: Seq<Tok>, tier: int, f: Arith) -> Result<Seq<char>, CalcError>
    decreases tier,
{
    if tier <= 0 {
        first_value(s)
    } else {
        match pass(s, tier as i8, 0, f) {
            Err(e) => Err(e),
            Ok(t) => from_tier(t, tier - 1, f),
        }
    }
}

/// One pass of one tier over the whole sequence.
fn reduce_tier<F: Fn(TokenType, &str, &str) -> String>(
    tokens: &mut Vec<Token>,
    tier: i8,
    arith: &F,
) -> (res: Result<(), CalcError>)
    requires
        takes_numbers(arith),
        TokenPrio::NONE < tier <= TokenPrio::MAX,
    ensures
        forall|f: Arith| #[trigger]
            computes(arith, f) ==> match res {
                Ok(()) => pass(old(tokens).deep_view(), tier, 0, f) == Ok::<Seq<Tok>, CalcError>(
                    final(tokens).deep_view(),
                ),
                Err(e) => pass(old(tokens).deep_view(), tier, 0, f) == Err::<Seq<Tok>, CalcError>(
                    e,
                ),
            },
        final(tokens).len() <= old(tokens).len(),
    decreases old(tokens).len(), 1int,
{
    let ghost orig = tokens.deep_view();
    let mut i: usize = 0;
    while i < tokens.len()
        invariant
            i <= tokens.len() <= old(tokens).len(),
            orig == old(tokens).deep_view(),
            takes_numbers(arith),
            TokenPrio::NONE < tier <= TokenPrio::MAX,
            forall|f: Arith| #[trigger]
                computes(arith, f) ==> pass(orig, tier, 0, f) == pass(
                    tokens.deep_view(),
                    tier,
                    i as int,
                    f,
                ),
        decreases tokens.len() - i,
    {
        let ghost before = tokens.deep_view();
        let kind = tokens[i].ttype;
        assert(before[i as int].ttype == kind);
        if kind.priority() == tier && kind == TokenType::ParenOpen {
            match calculate_brackets(tokens, i, arith) {
                Err(e) => {
                    proof {
                        assert forall|f: Arith| #[trigger] computes(arith, f) implies pass(
                            orig,
                            tier,
                            0,
                            f,
                        ) == Err::<Seq<Tok>, CalcError>(e) by {
                            assert(bracketed(before, i as int, f) == Err::<Seq<Tok>, CalcError>(e));
                        }
                    }
                    return Err(e);
                },
                Ok(()) => {
                    proof {
                        assert forall|f: Arith| #[trigger] computes(arith, f) implies pass(
                            orig,
                            tier,
                            0,
                            f,
                        ) == pass(tokens.deep_view(), tier, i + 1, f) by {
                            assert(bracketed(before, i as int, f) == Ok::<Seq<Tok>, CalcError>(
                                tokens.deep_view(),
                            ));
                        }
                    }
                },
            }
            i += 1;
        } else if kind.priority() == tier && kind.is_binary() && 0 < i && i + 1 < tokens.len() {
            assert(before[i - 1].value == tokens[i - 1].value@);
            assert(before[i + 1].value == tokens[i + 1].value@);
            if !is_number_text(tokens[i - 1].value.as_str()) || !is_number_text(
                tokens[i + 1].value.as_str(),
            ) {
                return Err(CalcError::NotANumber);
            }
            let value = arith(kind, tokens[i - 1].value.as_str(), tokens[i + 1].value.as_str());
            swap_expression(tokens, i - 1, i + 1, value);
            proof {
                assert forall|f: Arith| #[trigger] computes(arith, f) implies pass(
                    orig,
                    tier,
                    0,
                    f,
                ) == pass(tokens.deep_view(), tier, i as int, f) by {
                    assert(value@ == f(kind, before[i - 1].value, before[i + 1].value));
                }
            }
        } else {
            i += 1;
        }
    }
    Ok(())
}

/// Evaluates a token sequence: resolves its brackets, then reduces its
/// operators tier by tier, each from left to right, and returns the text of
/// the first token that is left, which has to be a number. A token belongs
/// to the tier of its kind.
pub fn calculate<F: Fn(TokenType, &str, &str) -> String>(tokens: Vec<Token>, arith: &F) -> (res:
    Result<String, CalcError>)
    requires
        takes_numbers(arith),
    ensures
        forall|f: Arith| #[trigger]
            computes(arith, f) ==> text_of(res) == calculated(tokens.deep_view(), f),
        res matches Ok(value) ==> is_float_literal(value@),
    decreases tokens.len(), 2int,
{
    let ghost orig = tokens.deep_view();
    let mut left = tokens;
    let mut tier: i8 = TokenPrio::MAX;
    proof {
        assert forall|f: Arith| #[trigger] computes(arith, f) implies calculated(orig, f)
            == from_tier(orig, tier as int, f) by {
            lemma_calculated_by_tiers(orig, f);
        }
    }
    while tier > TokenPrio::NONE
        invariant
            TokenPrio::NONE <= tier <= TokenPrio::MAX,
            orig == tokens.deep_view(),
            left.len() <= tokens.len(),
            takes_numbers(arith),
            forall|f: Arith| #[trigger]
                computes(arith, f) ==> calculated(orig, f) == from_tier(
                    left.deep_view(),
                    tier as int,
                    f,
                ),
        decreases tier,
    {
        let ghost before = left.deep_view();
        match reduce_tier(&mut left, tier, arith) {
            Err(e) => {
                proof {
                    assert forall|f: Arith| #[trigger] computes(arith, f) implies calculated(
                        orig,
                        f,
                    ) == Err::<Seq<char>, CalcError>(e) by {
                        assert(pass(before, tier, 0, f) == Err::<Seq<Tok>, CalcError>(e));
                    }
                }
                return Err(e);
            },
            Ok(()) => {
                proof {
                    assert forall|f: Arith| #[trigger] computes(arith, f) implies calculated(
                        orig,
                        f,
                    ) == from_tier(left.deep_view(), tier - 1, f) by {
                        assert(pass(before, tier, 0, f) == Ok::<Seq<Tok>, CalcError>(
                            left.deep_view(),
                        ));
                    }
                }
            },
        }
        tier -= 1;
    }
    if left.len() == 0 {
        return Err(CalcError::NoValue);
    }
    assert(left.deep_view()[0].value == left[0].value@);
    if !is_number_text(left[0].value.as_str()) {
        return Err(CalcError::NotANumber);
    }
    Ok(left[0].value.clone())
}

/// A pass over the operators never makes the sequence longer.
pub proof fn lemma_reduced_len(s: Seq<Tok>, tier: i8, i: int, f: Arith)
    ensures
        reduced(s, tier, i, f) matches Ok(left) ==> left.len() <= s.len(),
    decreases s.len() - i,
{
    if i < 0 || i >= s.len() {
    } else if is_operator(s[i].ttype) && priority_of(s[i].ttype) == tier && 0 < i < s.len() - 1 {
        if is_float_literal(s[i - 1].value) && is_float_literal(s[i + 1].value) {
            let value = f(s[i].ttype, s[i - 1].value, s[i + 1].value);
            lemma_reduced_len(splice(s, i - 1, i + 1, value), tier, i, f);
        }
    } else {
        lemma_reduced_len(s, tier, i + 1, f);
    }
}

/// The pass over the brackets never makes the sequence longer.
pub proof fn lemma_flattened_len(s: Seq<Tok>, i: int, f: Arith)
    ensures
        flattened(s, i, f) matches Ok(left) ==> left.len() <= s.len(),
    decreases s.len() - i,
{
    if i < 0 || i >= s.len() {
    } else if s[i].ttype == TokenType::ParenOpen {
        lemma_closing_from_bounds(s, i + 1, 0);
        match calculated(group_inside(s, i), f) {
            Ok(value) => {
                lemma_flattened_len(splice(s, i, group_end(s, i), value), i + 1, f);
            },
            Err(e) => {},
        }
    } else {
        lemma_flattened_len(s, i + 1, f);
    }
}

/// The passes never make the sequence longer.
pub proof fn lemma_settled_len(s: Seq<Tok>, f: Arith)
    ensures
        settled(s, f) matches Ok(left) ==> left.len() <= s.len(),
{
    lemma_flattened_len(s, 0, f);
    if let Ok(s4) = flattened(s, 0, f) {
        lemma_reduced_len(s4, TokenPrio::EXP, 0, f);
        if let Ok(s3) = reduced(s4, TokenPrio::EXP, 0, f) {
            lemma_reduced_len(s3, TokenPrio::MUL, 0, f);
            if let Ok(s2) = reduced(s3, TokenPrio::MUL, 0, f) {
                lemma_reduced_len(s2, TokenPrio::ADD, 0, f);
            }
        }
    }
}

proof fn lemma_calculated_by_tiers(s: Seq<Tok>, f: Arith)
    ensures
        calculated(s, f) == from_tier(s, TokenPrio::MAX as int, f),
{
    reveal_with_fuel(from_tier, 5);
}

/// A pass over the brackets does nothing to tokens that open no group.
proof fn lemma_flattened_skips(s: Seq<Tok>, from: int, to: int, f: Arith)
    requires
        0 <= from <= to <= s.len(),
        forall|k: int| from <= k < to ==> (#[trigger] s[k]).ttype != TokenType::ParenOpen,
    ensures
        flattened(s, from, f) == flattened(s, to, f),
    decreases to - from,
{
    if from < to {
        assert(s[from].ttype != TokenType::ParenOpen);
        lemma_flattened_skips(s, from + 1, to, f);
    }
}

/// To resolve, in place, a group that opens inside another and before any
/// other bracket of it changes nothing about what the outer group
/// evaluates to; and where the inner group has no value, the outer has none.
proof fn lemma_nested_group(s: Seq<Tok>, begin: int, i: int, f: Arith)
    requires
        0 <= begin < i < s.len(),
        forall|k: int| begin < k < i ==> !is_bracket(#[trigger] s[k]),
        s[i].ttype == TokenType::ParenOpen,
    ensures
        match calculated(group_inside(s, i), f) {
            Err(e) => bracketed(s, begin, f) == Err::<Seq<Tok>, CalcError>(e),
            Ok(v) => bracketed(splice(s, i, group_end(s, i), v), begin, f) == bracketed(
                s,
                begin,
                f,
            ),
        },
{
    let len = s.len() as int;
    let ci = closing(s, i);
    let c = closing(s, begin);
    let ge = group_end(s, i);
    let inner = group_inside(s, begin);
    let p = i - begin - 1;
    lemma_closing_around(s, begin, i);
    assert(inner.len() == c - begin - 1);
    assert forall|k: int| 0 <= k < p implies (#[trigger] inner[k]).ttype
        != TokenType::ParenOpen by {
        assert(!is_bracket(s[begin + 1 + k]));
    }
    lemma_flattened_skips(inner, 0, p, f);
    assert(inner[p] == s[i]);
    lemma_closing_window(s, i + 1, inner, p + 1, c - (i + 1), 0);
    assert(group_inside(inner, p) =~= group_inside(s, i));
    let ge_inner = group_end(inner, p);
    assert(ge_inner == ge - begin - 1);
    match calculated(group_inside(s, i), f) {
        Err(e) => {
            assert(flattened(inner, p, f) == Err::<Seq<Tok>, CalcError>(e));
        },
        Ok(v) => {
            let s2 = splice(s, i, ge, v);
            assert(s2.len() == len - (ge - i));
            assert forall|k: int| begin < k < i + 1 implies !is_bracket(#[trigger] s2[k]) by {
                if k < i {
                    assert(s2[k] == s[k]);
                }
            }
            lemma_closing_skips(s2, begin + 1, i + 1, 0);
            assert forall|k: int| 0 <= k < len - ge - 1 implies (#[trigger] s2[i + 1 + k]).ttype
                == s[ge + 1 + k].ttype by {}
            lemma_closing_window(s, ge + 1, s2, i + 1, len - ge - 1, 0);
            let c2 = closing(s2, begin);
            assert(c2 == c - (ge - i));
            let inner2 = group_inside(s2, begin);
            assert(inner2 =~= splice(inner, p, ge_inner, v));
            assert(flattened(inner, p, f) == flattened(inner2, p + 1, f));
            assert forall|k: int| 0 <= k < p + 1 implies (#[trigger] inner2[k]).ttype
                != TokenType::ParenOpen by {
                if k < p {
                    assert(inner2[k] == s[begin + 1 + k]);
                    assert(!is_bracket(s[begin + 1 + k]));
                }
            }
            lemma_flattened_skips(inner2, 0, p + 1, f);
            assert(flattened(inner, 0, f) == flattened(inner2, 0, f));
            assert(calculated(inner, f) == calculated(inner2, f));
            match calculated(inner, f) {
                Err(e) => {},
                Ok(w) => {
                    assert(splice(s2, begin, group_end(s2, begin), w) =~= splice(
                        s,
                        begin,
                        group_end(s, begin),
                        w,
                    ));
                },
            }
        },
    }
}

} // verus!
