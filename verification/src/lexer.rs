//! Tokens from spaced text: one token for each piece between single spaces.

use vstd::prelude::*;
use crate::number::{is_float_literal, is_number, lemma_number_has_no_space};
use crate::text::{chars_of, string_of};
use crate::token::{priority_of, Tok, Token, TokenType};

verus! {

/// The kind that a single operator or bracket character stands for.
pub open spec fn symbol_kind(c: char) -> Option<TokenType> {
    if c == '+' {
        Some(TokenType::Addition)
    } else if c == '-' {
        Some(TokenType::Subtract)
    } else if c == '*' {
        Some(TokenType::Multiply)
    } else if c == '/' {
        Some(TokenType::Division)
    } else if c == '^' {
        Some(TokenType::Exponent)
    } else if c == '(' {
        Some(TokenType::ParenOpen)
    } else if c == ')' {
        Some(TokenType::ParenClose)
    } else {
        None
    }
}

/// The index of the first space of `s`, or its length where it has none.
pub open spec fn first_space(s: Seq<char>) -> int
    decreases s.len(),
{
    if s.len() == 0 || s.first() == ' ' {
        0
    } else {
        1 + first_space(s.drop_first())
    }
}

/// The pieces of `s` between its spaces. Each space parts two pieces, so
/// two spaces in a row, or one at either end, give an empty piece.
pub open spec fn pieces(s: Seq<char>) -> Seq<Seq<char>>
    decreases s.len(),
{
    let k = first_space(s);
    if 0 <= k < s.len() {
        seq![s.take(k)] + pieces(s.skip(k + 1))
    } else {
        seq![s]
    }
}

/// What one piece is.
pub enum Piece {
    /// It stands for a number, or for an operator or bracket: a token.
    Token(Tok),
    /// It is one character that is no operator and no bracket: left out.
    Unknown,
    /// It is anything else: here the reading ends.
    Stop,
}

pub open spec fn classify(piece: Seq<char>) -> Piece {
    if is_float_literal(piece) {
        Piece::Token(Tok::number(piece))
    } else if piece.len() != 1 {
        Piece::Stop
    } else {
        match symbol_kind(piece[0]) {
            Some(ttype) => Piece::Token(Tok { value: piece, ttype, prio: priority_of(ttype) }),
            None => Piece::Unknown,
        }
    }
}

/// The tokens of the pieces, in order, up to the piece at which the reading ends.
pub open spec fn tokens_of(ps: Seq<Seq<char>>) -> Seq<Tok>
    decreases ps.len(),
{
    if ps.len() == 0 {
        Seq::<Tok>::empty()
    } else {
        match classify(ps.first()) {
            Piece::Token(t) => seq![t] + tokens_of(ps.drop_first()),
            Piece::Unknown => tokens_of(ps.drop_first()),
            Piece::Stop => Seq::<Tok>::empty(),
        }
    }
}

/// The pieces that were left out, in order, up to the piece at which the reading ends.
pub open spec fn unknown_of(ps: Seq<Seq<char>>) -> Seq<Seq<char>>
    decreases ps.len(),
{
    if ps.len() == 0 {
        Seq::<Seq<char>>::empty()
    } else {
        match classify(ps.first()) {
            Piece::Token(t) => unknown_of(ps.drop_first()),
            Piece::Unknown => seq![ps.first()] + unknown_of(ps.drop_first()),
            Piece::Stop => Seq::<Seq<char>>::empty(),
        }
    }
}

/// The tokens of spaced text.
pub open spec fn lexed(s: Seq<char>) -> Seq<Tok> {
    tokens_of(pieces(s))
}

/// The kind of one character, if it is an operator or a bracket.
pub fn symbol(c: char) -> (kind: Option<TokenType>)
    ensures
        kind == symbol_kind(c),
{
    if c == '+' {
        Some(TokenType::Addition)
    } else if c == '-' {
        Some(TokenType::Subtract)
    } else if c == '*' {
        Some(TokenType::Multiply)
    } else if c == '/' {
        Some(TokenType::Division)
    } else if c == '^' {
        Some(TokenType::Exponent)
    } else if c == '(' {
        Some(TokenType::ParenOpen)
    } else if c == ')' {
        Some(TokenType::ParenClose)
    } else {
        None
    }
}

/// What reading spaced text gives: the tokens, and the pieces left out
/// because they are no number, no operator and no bracket.
pub struct Lexed {
    pub tokens: Vec<Token>,
    pub unknown: Vec<String>,
}

fn piece_end(chars: &Vec<char>, start: usize) -> (end: usize)
    requires
        start <= chars.len(),
    ensures
        start <= end <= chars.len(),
        end - start == first_space(chars@.skip(start as int)),
{
    let mut k: usize = start;
    while k < chars.len() && chars[k] != ' '
        invariant
            start <= k <= chars.len(),
            first_space(chars@.skip(start as int)) == (k - start) + first_space(
                chars@.skip(k as int),
            ),
        decreases chars.len() - k,
    {
        proof {
            assert(chars@.skip(k as int).drop_first() == chars@.skip(k + 1));
        }
        k += 1;
    }
    k
}

fn copy_range(chars: &Vec<char>, from: usize, to: usize) -> (out: Vec<char>)
    requires
        from <= to <= chars.len(),
    ensures
        out@ == chars@.subrange(from as int, to as int),
{
    let mut out: Vec<char> = Vec::new();
    let mut i: usize = from;
    while i < to
        invariant
            from <= i <= to <= chars.len(),
            out@ == chars@.subrange(from as int, i as int),
        decreases to - i,
    {
        out.push(chars[i]);
        i += 1;
    }
    out
}

/// Reads spaced text piece by piece. A piece that stands for a number
/// becomes a number token; a single operator or bracket character becomes
/// its token; any other single character is left out and listed; at any
/// other piece the reading ends.
pub fn lex(input: &String) -> (out: Lexed)
    ensures
        out.tokens.deep_view() == lexed(input@),
        out.unknown.deep_view() == unknown_of(pieces(input@)),
        forall|i: int| 0 <= i < out.tokens.len() ==> (#[trigger] out.tokens[i])@.wf(),
{
    let chars = chars_of(input.as_str());
    let mut tokens: Vec<Token> = Vec::new();
    let mut unknown: Vec<String> = Vec::new();
    let mut start: usize = 0;
    let mut done = false;
    proof {
        assert(chars@.skip(0) == chars@);
    }
    while !done
        invariant
            start <= chars.len(),
            chars@ == input@,
            forall|i: int| 0 <= i < tokens.len() ==> (#[trigger] tokens[i])@.wf(),
            !done ==> lexed(input@) == tokens.deep_view() + tokens_of(
                pieces(chars@.skip(start as int)),
            ),
            !done ==> unknown_of(pieces(input@)) == unknown.deep_view() + unknown_of(
                pieces(chars@.skip(start as int)),
            ),
            done ==> lexed(input@) == tokens.deep_view(),
            done ==> unknown_of(pieces(input@)) == unknown.deep_view(),
        decreases chars.len() - start + (if done { 0int } else { 1int }),
    {
        let end = piece_end(&chars, start);
        let piece = copy_range(&chars, start, end);
        let ghost rest = chars@.skip(start as int);
        let ghost ps = pieces(rest);
        let ghost old_tokens = tokens.deep_view();
        let ghost old_unknown = unknown.deep_view();
        proof {
            assert(rest.take(end - start) == piece@);
            if end < chars.len() {
                assert(rest.skip(end - start + 1) == chars@.skip(end + 1));
                assert(ps.drop_first() == pieces(chars@.skip(end + 1)));
            } else {
                assert(rest == piece@);
                assert(ps.drop_first() == Seq::<Seq<char>>::empty());
            }
            assert(ps.first() == piece@);
            if end >= chars.len() {
                assert(tokens_of(ps.drop_first()) == Seq::<Tok>::empty());
                assert(unknown_of(ps.drop_first()) == Seq::<Seq<char>>::empty());
            }
            assert(tokens_of(ps) == match classify(piece@) {
                Piece::Token(t) => seq![t] + tokens_of(ps.drop_first()),
                Piece::Unknown => tokens_of(ps.drop_first()),
                Piece::Stop => Seq::<Tok>::empty(),
            });
            assert(unknown_of(ps) == match classify(piece@) {
                Piece::Token(t) => unknown_of(ps.drop_first()),
                Piece::Unknown => seq![piece@] + unknown_of(ps.drop_first()),
                Piece::Stop => Seq::<Seq<char>>::empty(),
            });
        }
        let mut stop = false;
        if is_number(&piece) {
            let value = string_of(&piece, 0, piece.len());
            proof {
                assert(piece@.subrange(0, piece.len() as int) == piece@);
            }
            tokens.push(Token::new(value, TokenType::Number));
            proof {
                assert(tokens.deep_view() == old_tokens + seq![Tok::number(piece@)]);
            }
        } else if piece.len() != 1 {
            stop = true;
        } else {
            proof {
                assert(piece@.subrange(0, piece.len() as int) == piece@);
            }
            match symbol(piece[0]) {
                Some(ttype) => {
                    let value = string_of(&piece, 0, piece.len());
                    tokens.push(Token::new(value, ttype));
                    proof {
                        assert(tokens.deep_view() == old_tokens + seq![
                            Tok { value: piece@, ttype, prio: priority_of(ttype) },
                        ]);
                    }
                },
                None => {
                    unknown.push(string_of(&piece, 0, piece.len()));
                    proof {
                        assert(unknown.deep_view() == old_unknown + seq![piece@]);
                    }
                },
            }
        }
        if stop || end >= chars.len() {
            done = true;
        } else {
            start = end + 1;
        }
    }
    Lexed { tokens, unknown }
}

/// The tokens of spaced text.
pub fn parse_tokens(input: &String) -> (tokens: Vec<Token>)
    ensures
        tokens.deep_view() == lexed(input@),
        forall|i: int| 0 <= i < tokens.len() ==> (#[trigger] tokens[i])@.wf(),
{
    lex(input).tokens
}

/// The texts of the tokens with one space between each two.
pub open spec fn written(tokens: Seq<Tok>) -> Seq<char>
    decreases tokens.len(),
{
    if tokens.len() == 0 {
        Seq::<char>::empty()
    } else if tokens.len() == 1 {
        tokens[0].value
    } else {
        tokens[0].value + seq![' '] + written(tokens.drop_first())
    }
}

/// The token is one that reading gives: a number with the text of a
/// number, or an operator or bracket with its character.
pub open spec fn readable(t: Tok) -> bool {
    classify(t.value) == Piece::Token(t)
}

proof fn lemma_first_space_after(a: Seq<char>, b: Seq<char>)
    requires
        forall|k: int| 0 <= k < a.len() ==> #[trigger] a[k] != ' ',
        b.len() == 0 || b[0] == ' ',
    ensures
        first_space(a + b) == a.len(),
    decreases a.len(),
{
    if a.len() > 0 {
        assert((a + b).drop_first() =~= a.drop_first() + b);
        assert(a[0] != ' ');
        assert forall|k: int| 0 <= k < a.drop_first().len() implies #[trigger] a.drop_first()[k]
            != ' ' by {
            assert(a[k + 1] != ' ');
        }
        lemma_first_space_after(a.drop_first(), b);
    } else {
        assert(a + b =~= b);
    }
}

proof fn lemma_readable_has_no_space(t: Tok)
    requires
        readable(t),
    ensures
        forall|k: int| 0 <= k < t.value.len() ==> #[trigger] t.value[k] != ' ',
{
    if is_float_literal(t.value) {
        lemma_number_has_no_space(t.value);
    }
}

/// Reading gives back the tokens that were written.
pub proof fn lemma_lexed_written(tokens: Seq<Tok>)
    requires
        tokens.len() > 0,
        forall|i: int| 0 <= i < tokens.len() ==> readable(#[trigger] tokens[i]),
    ensures
        lexed(written(tokens)) == tokens,
    decreases tokens.len(),
{
    let first = tokens[0];
    let text = written(tokens);
    assert(readable(first));
    lemma_readable_has_no_space(first);
    if tokens.len() == 1 {
        lemma_first_space_after(first.value, Seq::<char>::empty());
        assert(first.value + Seq::<char>::empty() =~= first.value);
        assert(pieces(text) == seq![text]);
        assert(seq![text].drop_first() =~= Seq::<Seq<char>>::empty());
        assert(tokens_of(seq![text].drop_first()) == Seq::<Tok>::empty());
        assert(tokens_of(seq![text]) =~= seq![first]);
        assert(tokens =~= seq![first]);
    } else {
        let rest = tokens.drop_first();
        assert forall|i: int| 0 <= i < rest.len() implies readable(#[trigger] rest[i]) by {
            assert(readable(tokens[i + 1]));
        }
        lemma_lexed_written(rest);
        let tail = seq![' '] + written(rest);
        assert(text =~= first.value + tail);
        lemma_first_space_after(first.value, tail);
        let k = first.value.len() as int;
        assert(text.take(k) =~= first.value);
        assert(text.skip(k + 1) =~= written(rest));
        let ps = pieces(text);
        assert(ps == seq![first.value] + pieces(written(rest)));
        assert(ps.first() == first.value);
        assert(ps.drop_first() =~= pieces(written(rest)));
        assert(tokens_of(ps) == seq![first] + tokens_of(ps.drop_first()));
        assert(seq![first] + rest =~= tokens);
    }
}

} // verus!
