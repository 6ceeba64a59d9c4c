//! What an expression means, and that the evaluator computes it.
//!
//! An expression is a number, an expression in brackets, or two expressions
//! with an operator between them. Its value is defined on that form alone.
//! The evaluator works on the flat token sequence; here it is proved to
//! find, for every well-formed expression, the value that the form gives.

use vstd::prelude::*;
use crate::brackets::{closing, closing_from, group_end, group_inside};
use crate::calc::{calculated, flattened, reduced, settled, splice, Arith, CalcError};
use crate::lexer::{lemma_lexed_written, lexed, readable, written};
use crate::number::is_float_literal;
use crate::token::{is_operator, priority_of, Tok, TokenPrio, TokenType};

verus! {

/// An expression.
pub enum Expr {
    /// A number, by its text.
    Number(Seq<char>),
    /// An expression in brackets.
    Group(Box<Expr>),
    /// A left operand, an operator and a right operand.
    Binary(Box<Expr>, TokenType, Box<Expr>),
}

/// The character that an operator or a bracket is written with.
pub open spec fn symbol_of(ttype: TokenType) -> char {
    match ttype {
        TokenType::Number => '0',
        TokenType::Addition => '+',
        TokenType::Subtract => '-',
        TokenType::Multiply => '*',
        TokenType::Division => '/',
        TokenType::Exponent => '^',
        TokenType::ParenOpen => '(',
        TokenType::ParenClose => ')',
    }
}

/// The token of an operator or a bracket.
pub open spec fn symbol_token(ttype: TokenType) -> Tok {
    Tok { value: seq![symbol_of(ttype)], ttype, prio: priority_of(ttype) }
}

impl Expr {
    /// The tokens that the expression is written with.
    pub open spec fn tokens(self) -> Seq<Tok>
        decreases self,
    {
        match self {
            Expr::Number(text) => seq![Tok::number(text)],
            Expr::Group(inner) => seq![symbol_token(TokenType::ParenOpen)] + inner.tokens() + seq![
                symbol_token(TokenType::ParenClose),
            ],
            Expr::Binary(left, op, right) => left.tokens() + seq![symbol_token(op)]
                + right.tokens(),
        }
    }

    /// How tightly the expression holds together: the tier of its operator,
    /// or the highest tier for a number or a group.
    pub open spec fn tier(self) -> i8 {
        match self {
            Expr::Binary(_, op, _) => priority_of(op),
            _ => TokenPrio::MAX,
        }
    }

    /// The form is the one in which the tokens are read: each number is a
    /// number, each operator an operator; the right operand holds together
    /// more tightly than its operator, and the left operand at least as
    /// tightly, so that operators of one tier group from the left.
    pub open spec fn well_formed(self) -> bool
        decreases self,
    {
        match self {
            Expr::Number(text) => is_float_literal(text),
            Expr::Group(inner) => inner.well_formed(),
            Expr::Binary(left, op, right) => {
                &&& is_operator(op)
                &&& left.well_formed()
                &&& right.well_formed()
                &&& left.tier() >= priority_of(op)
                &&& right.tier() > priority_of(op)
            },
        }
    }

    /// The value of the expression: the text of a number; the value of what
    /// stands in the brackets; what the arithmetic gives for the operator and
    /// the values of the two operands.
    pub open spec fn value(self, f: Arith) -> Seq<char>
        decreases self,
    {
        match self {
            Expr::Number(text) => text,
            Expr::Group(inner) => inner.value(f),
            Expr::Binary(left, op, right) => f(op, left.value(f), right.value(f)),
        }
    }
}

/// The arithmetic gives a number for every operator and every two numbers.
pub open spec fn gives_numbers(f: Arith) -> bool {
    forall|op: TokenType, a: Seq<char>, b: Seq<char>|
        is_operator(op) && is_float_literal(a) && is_float_literal(b) ==> is_float_literal(
            #[trigger] f(op, a, b),
        )
}

/// `part` stands in `s` from index `at` on.
spec fn occurs(s: Seq<Tok>, at: int, part: Seq<Tok>) -> bool {
    &&& 0 <= at
    &&& at + part.len() <= s.len()
    &&& forall|k: int| 0 <= k < part.len() ==> s[at + k] == #[trigger] part[k]
}

/// `s` with the `n` tokens from index `at` on replaced by `by`.
spec fn replaced(s: Seq<Tok>, at: int, n: int, by: Seq<Tok>) -> Seq<Tok> {
    s.subrange(0, at) + by + s.subrange(at + n, s.len() as int)
}

impl Expr {
    /// The expression with each group replaced by the number that is its value.
    spec fn flat(self, f: Arith) -> Expr
        decreases self,
    {
        match self {
            Expr::Number(text) => self,
            Expr::Group(inner) => Expr::Number(inner.value(f)),
            Expr::Binary(left, op, right) => Expr::Binary(
                Box::new(left.flat(f)),
                op,
                Box::new(right.flat(f)),
            ),
        }
    }

    /// The expression with each operation of the tier replaced by the
    /// number that is its value.
    spec fn lowered(self, tier: i8, f: Arith) -> Expr
        decreases self,
    {
        match self {
            Expr::Binary(left, op, right) => if priority_of(op) == tier {
                Expr::Number(self.value(f))
            } else {
                Expr::Binary(Box::new(left.lowered(tier, f)), op, Box::new(right.lowered(tier, f)))
            },
            _ => self,
        }
    }

    /// No part of the expression stands in brackets.
    spec fn group_free(self) -> bool
        decreases self,
    {
        match self {
            Expr::Number(text) => true,
            Expr::Group(inner) => false,
            Expr::Binary(left, op, right) => left.group_free() && right.group_free(),
        }
    }

    /// No operator of the expression has a tier above `tier`.
    spec fn tiers_up_to(self, tier: i8) -> bool
        decreases self,
    {
        match self {
            Expr::Number(text) => true,
            Expr::Group(inner) => true,
            Expr::Binary(left, op, right) => priority_of(op) <= tier && left.tiers_up_to(tier)
                && right.tiers_up_to(tier),
        }
    }
}

proof fn lemma_tokens_len(e: Expr)
    ensures
        e.tokens().len() >= 1,
    decreases e,
{
    match e {
        Expr::Number(text) => {},
        Expr::Group(inner) => {
            lemma_tokens_len(*inner);
        },
        Expr::Binary(left, op, right) => {
            lemma_tokens_len(*left);
            lemma_tokens_len(*right);
        },
    }
}

proof fn lemma_value_is_number(e: Expr, f: Arith)
    requires
        e.well_formed(),
        gives_numbers(f),
    ensures
        is_float_literal(e.value(f)),
    decreases e,
{
    match e {
        Expr::Number(text) => {},
        Expr::Group(inner) => {
            lemma_value_is_number(*inner, f);
        },
        Expr::Binary(left, op, right) => {
            lemma_value_is_number(*left, f);
            lemma_value_is_number(*right, f);
        },
    }
}

/// The brackets inside an expression match each other, so the search for a
/// closing bracket passes over the expression as a whole.
proof fn lemma_balanced(s: Seq<Tok>, at: int, e: Expr, depth: nat)
    requires
        e.well_formed(),
        occurs(s, at, e.tokens()),
    ensures
        closing_from(s, at, depth) == closing_from(s, at + e.tokens().len(), depth),
    decreases e,
{
    let t = e.tokens();
    match e {
        Expr::Number(text) => {
            assert(s[at + 0] == t[0]);
        },
        Expr::Group(inner) => {
            let ti = inner.tokens();
            let n = ti.len() as int;
            assert(s[at + 0] == t[0]);
            assert forall|k: int| 0 <= k < n implies s[at + 1 + k] == #[trigger] ti[k] by {
                assert(s[at + (k + 1)] == t[k + 1]);
            }
            lemma_balanced(s, at + 1, *inner, depth + 1);
            assert(s[at + (n + 1)] == t[n + 1]);
        },
        Expr::Binary(left, op, right) => {
            let tl = left.tokens();
            let tr = right.tokens();
            let n = tl.len() as int;
            assert forall|k: int| 0 <= k < n implies s[at + k] == #[trigger] tl[k] by {
                assert(s[at + k] == t[k]);
            }
            lemma_balanced(s, at, *left, depth);
            assert(s[at + n] == t[n]);
            assert forall|k: int| 0 <= k < tr.len() implies s[at + n + 1 + k] == #[trigger] tr[k] by {
                assert(s[at + (n + 1 + k)] == t[n + 1 + k]);
            }
            lemma_balanced(s, at + n + 1, *right, depth);
        },
    }
}

proof fn lemma_flat(e: Expr, f: Arith)
    requires
        e.well_formed(),
        gives_numbers(f),
    ensures
        e.flat(f).well_formed(),
        e.flat(f).group_free(),
        e.flat(f).tiers_up_to(TokenPrio::EXP),
        e.flat(f).value(f) == e.value(f),
        e.flat(f).tier() == e.tier(),
    decreases e,
{
    match e {
        Expr::Number(text) => {},
        Expr::Group(inner) => {
            lemma_value_is_number(*inner, f);
        },
        Expr::Binary(left, op, right) => {
            lemma_flat(*left, f);
            lemma_flat(*right, f);
        },
    }
}

proof fn lemma_lowered(e: Expr, tier: i8, f: Arith)
    requires
        e.well_formed(),
        e.group_free(),
        e.tiers_up_to(tier),
        gives_numbers(f),
    ensures
        e.lowered(tier, f).well_formed(),
        e.lowered(tier, f).group_free(),
        e.lowered(tier, f).tiers_up_to((tier - 1) as i8),
        e.lowered(tier, f).value(f) == e.value(f),
        e.lowered(tier, f).tier() >= e.tier(),
    decreases e,
{
    match e {
        Expr::Number(text) => {},
        Expr::Group(inner) => {},
        Expr::Binary(left, op, right) => {
            lemma_value_is_number(e, f);
            lemma_lowered(*left, tier, f);
            lemma_lowered(*right, tier, f);
        },
    }
}

/// The pass over the brackets, on its way over an expression, puts the
/// value of each of its groups in the group's place.
proof fn lemma_flattened_across(s: Seq<Tok>, at: int, e: Expr, f: Arith)
    requires
        e.well_formed(),
        gives_numbers(f),
        occurs(s, at, e.tokens()),
    ensures
        flattened(s, at, f) == flattened(
            replaced(s, at, e.tokens().len() as int, e.flat(f).tokens()),
            at + e.flat(f).tokens().len(),
            f,
        ),
    decreases e, 0int,
{
    let t = e.tokens();
    let n = t.len() as int;
    match e {
        Expr::Number(text) => {
            assert(s[at + 0] == t[0]);
            assert(replaced(s, at, n, t) =~= s);
        },
        Expr::Group(inner) => {
            let ti = inner.tokens();
            let m = ti.len() as int;
            let v = inner.value(f);
            assert(s[at + 0] == t[0]);
            assert forall|k: int| 0 <= k < m implies s[at + 1 + k] == #[trigger] ti[k] by {
                assert(s[at + (k + 1)] == t[k + 1]);
            }
            lemma_balanced(s, at + 1, *inner, 0);
            assert(s[at + (m + 1)] == t[m + 1]);
            assert(closing(s, at) == at + m + 1);
            assert(group_inside(s, at) =~= ti);
            lemma_calculated_is_value(*inner, f);
            assert(splice(s, at, group_end(s, at), v) =~= replaced(s, at, n, e.flat(f).tokens()));
        },
        Expr::Binary(left, op, right) => {
            let tl = left.tokens();
            let tr = right.tokens();
            let fl = left.flat(f).tokens();
            let fr = right.flat(f).tokens();
            let nl = tl.len() as int;
            let nr = tr.len() as int;
            assert forall|k: int| 0 <= k < nl implies s[at + k] == #[trigger] tl[k] by {
                assert(s[at + k] == t[k]);
            }
            lemma_flattened_across(s, at, *left, f);
            let s1 = replaced(s, at, nl, fl);
            let at1 = at + fl.len();
            assert(s1[at1] == t[nl]) by {
                assert(s[at + nl] == t[nl]);
            }
            assert forall|k: int| 0 <= k < nr implies s1[at1 + 1 + k] == #[trigger] tr[k] by {
                assert(s[at + (nl + 1 + k)] == t[nl + 1 + k]);
            }
            lemma_flattened_across(s1, at1 + 1, *right, f);
            let s2 = replaced(s1, at1 + 1, nr, fr);
            assert(s2 =~= replaced(s, at, n, e.flat(f).tokens()));
        },
    }
}

/// To replace the left part of a run and then the right part is to replace the run.
proof fn lemma_replaced_twice(
    s: Seq<Tok>,
    at: int,
    left: Seq<Tok>,
    mid: Tok,
    right: Seq<Tok>,
    new_left: Seq<Tok>,
    new_right: Seq<Tok>,
)
    requires
        occurs(s, at, left + seq![mid] + right),
    ensures
        occurs(replaced(s, at, left.len() as int, new_left), at + new_left.len() + 1, right),
        replaced(s, at, left.len() as int, new_left)[at + new_left.len()] == mid,
        replaced(
            replaced(s, at, left.len() as int, new_left),
            at + new_left.len() + 1,
            right.len() as int,
            new_right,
        ) == replaced(
            s,
            at,
            (left + seq![mid] + right).len() as int,
            new_left + seq![mid] + new_right,
        ),
{
    let whole = left + seq![mid] + right;
    let nl = left.len() as int;
    let s1 = replaced(s, at, nl, new_left);
    let at1 = at + new_left.len();
    assert(s1[at1] == mid) by {
        assert(s[at + nl] == whole[nl]);
    }
    assert forall|k: int| 0 <= k < right.len() implies s1[at1 + 1 + k] == #[trigger] right[k] by {
        assert(s[at + (nl + 1 + k)] == whole[nl + 1 + k]);
    }
    assert(replaced(s1, at1 + 1, right.len() as int, new_right) =~= replaced(
        s,
        at,
        whole.len() as int,
        new_left + seq![mid] + new_right,
    ));
}

proof fn lemma_occurs_left(s: Seq<Tok>, at: int, left: Seq<Tok>, rest: Seq<Tok>)
    requires
        occurs(s, at, left + rest),
    ensures
        occurs(s, at, left),
{
    let whole = left + rest;
    assert forall|k: int| 0 <= k < left.len() implies s[at + k] == #[trigger] left[k] by {
        assert(s[at + k] == whole[k]);
    }
}

/// An operation of the tier between two numbers is replaced by its value,
/// and the pass goes on behind it.
proof fn lemma_reduced_applies(
    s: Seq<Tok>,
    at: int,
    op: TokenType,
    a: Seq<char>,
    b: Seq<char>,
    f: Arith,
)
    requires
        is_operator(op),
        is_float_literal(a),
        is_float_literal(b),
        occurs(s, at, seq![Tok::number(a), symbol_token(op), Tok::number(b)]),
    ensures
        reduced(s, priority_of(op), at + 1, f) == reduced(
            replaced(s, at, 3, seq![Tok::number(f(op, a, b))]),
            priority_of(op),
            at + 1,
            f,
        ),
{
    let part = seq![Tok::number(a), symbol_token(op), Tok::number(b)];
    assert(s[at + 0] == part[0]);
    assert(s[at + 1] == part[1]);
    assert(s[at + 2] == part[2]);
    assert(splice(s, at, at + 2, f(op, a, b)) =~= replaced(
        s,
        at,
        3,
        seq![Tok::number(f(op, a, b))],
    ));
}

/// In an expression without brackets and without operators above its own
/// tier, the operands of an operation of that tier are a number on the
/// right and, on the left, a number or another operation of the tier.
proof fn lemma_operands(left: Expr, op: TokenType, right: Expr, f: Arith)
    requires
        left.well_formed(),
        left.group_free(),
        left.tiers_up_to(priority_of(op)),
        left.tier() >= priority_of(op),
        right.well_formed(),
        right.group_free(),
        right.tiers_up_to(priority_of(op)),
        right.tier() > priority_of(op),
    ensures
        left.lowered(priority_of(op), f) == Expr::Number(left.value(f)),
        right == Expr::Number(right.value(f)),
        right.tokens() == seq![Tok::number(right.value(f))],
{
    match left {
        Expr::Number(text) => {},
        Expr::Group(inner) => {},
        Expr::Binary(l, o, r) => {},
    }
    match right {
        Expr::Number(text) => {},
        Expr::Group(inner) => {},
        Expr::Binary(l, o, r) => {},
    }
}

/// The pass over the operators of one tier, on its way over an expression
/// without brackets and without operators of a higher tier, puts the value
/// of each operation of the tier in the operation's place.
proof fn lemma_reduced_across(s: Seq<Tok>, at: int, e: Expr, tier: i8, f: Arith)
    requires
        e.well_formed(),
        e.group_free(),
        e.tiers_up_to(tier),
        gives_numbers(f),
        occurs(s, at, e.tokens()),
    ensures
        reduced(s, tier, at, f) == reduced(
            replaced(s, at, e.tokens().len() as int, e.lowered(tier, f).tokens()),
            tier,
            at + e.lowered(tier, f).tokens().len(),
            f,
        ),
    decreases e,
{
    let t = e.tokens();
    let n = t.len() as int;
    match e {
        Expr::Number(text) => {
            assert(s[at + 0] == t[0]);
            assert(replaced(s, at, n, t) =~= s);
            assert(e.lowered(tier, f) == e);
        },
        Expr::Group(inner) => {},
        Expr::Binary(left, op, right) => {
            let tl = left.tokens();
            let tr = right.tokens();
            let ll = left.lowered(tier, f).tokens();
            let lr = right.lowered(tier, f).tokens();
            let mid = symbol_token(op);
            assert(t == tl + seq![mid] + tr);
            assert(tl + (seq![mid] + tr) =~= t);
            lemma_occurs_left(s, at, tl, seq![mid] + tr);
            lemma_reduced_across(s, at, *left, tier, f);
            let s1 = replaced(s, at, tl.len() as int, ll);
            let at1 = at + ll.len();
            if priority_of(op) == tier {
                lemma_operands(*left, op, *right, f);
                lemma_value_is_number(*left, f);
                lemma_value_is_number(*right, f);
                let a = left.value(f);
                let b = right.value(f);
                let v = f(op, a, b);
                lemma_replaced_twice(s, at, tl, mid, tr, ll, tr);
                assert(replaced(s1, at1 + 1, tr.len() as int, tr) =~= s1);
                assert(ll =~= seq![Tok::number(a)]);
                let part = seq![Tok::number(a), mid, Tok::number(b)];
                assert(occurs(s1, at, part)) by {
                    assert(s1[at] == ll[0]);
                    assert(s1[at1 + 1 + 0] == tr[0]);
                }
                lemma_reduced_applies(s1, at, op, a, b, f);
                assert(e.lowered(tier, f).tokens() =~= seq![Tok::number(v)]);
                assert(replaced(s1, at, 3, seq![Tok::number(v)]) =~= replaced(
                    s,
                    at,
                    n,
                    seq![Tok::number(v)],
                ));
            } else {
                lemma_replaced_twice(s, at, tl, mid, tr, ll, lr);
                assert(s1[at1].ttype == op);
                lemma_reduced_across(s1, at1 + 1, *right, tier, f);
                assert(e.lowered(tier, f).tokens() == ll + seq![mid] + lr);
            }
        },
    }
}

/// The evaluator finds the value of every well-formed expression: on the
/// tokens that the expression is written with it returns the value that
/// the form of the expression gives, with operators of a higher tier
/// applied first and operators of one tier from left to right, the power
/// among them. The passes leave exactly one token, the number that holds
/// the value.
pub proof fn lemma_calculated_is_value(e: Expr, f: Arith)
    requires
        e.well_formed(),
        gives_numbers(f),
    ensures
        calculated(e.tokens(), f) == Ok::<Seq<char>, CalcError>(e.value(f)),
        settled(e.tokens(), f) == Ok::<Seq<Tok>, CalcError>(seq![Tok::number(e.value(f))]),
    decreases e, 1int,
{
    let t = e.tokens();
    let e4 = e.flat(f);
    let e3 = e4.lowered(TokenPrio::EXP, f);
    let e2 = e3.lowered(TokenPrio::MUL, f);
    let e1 = e2.lowered(TokenPrio::ADD, f);
    assert(occurs(t, 0, t));
    lemma_flattened_across(t, 0, e, f);
    assert(replaced(t, 0, t.len() as int, e4.tokens()) =~= e4.tokens());
    assert(flattened(t, 0, f) == Ok::<Seq<Tok>, CalcError>(e4.tokens()));
    lemma_flat(e, f);

    let t4 = e4.tokens();
    assert(occurs(t4, 0, t4));
    lemma_reduced_across(t4, 0, e4, TokenPrio::EXP, f);
    assert(replaced(t4, 0, t4.len() as int, e3.tokens()) =~= e3.tokens());
    assert(reduced(t4, TokenPrio::EXP, 0, f) == Ok::<Seq<Tok>, CalcError>(e3.tokens()));
    lemma_lowered(e4, TokenPrio::EXP, f);

    let t3 = e3.tokens();
    assert(occurs(t3, 0, t3));
    lemma_reduced_across(t3, 0, e3, TokenPrio::MUL, f);
    assert(replaced(t3, 0, t3.len() as int, e2.tokens()) =~= e2.tokens());
    assert(reduced(t3, TokenPrio::MUL, 0, f) == Ok::<Seq<Tok>, CalcError>(e2.tokens()));
    lemma_lowered(e3, TokenPrio::MUL, f);

    let t2 = e2.tokens();
    assert(occurs(t2, 0, t2));
    lemma_reduced_across(t2, 0, e2, TokenPrio::ADD, f);
    assert(replaced(t2, 0, t2.len() as int, e1.tokens()) =~= e1.tokens());
    assert(reduced(t2, TokenPrio::ADD, 0, f) == Ok::<Seq<Tok>, CalcError>(e1.tokens()));
    lemma_lowered(e2, TokenPrio::ADD, f);

    assert(e1 == Expr::Number(e.value(f)));
    assert(e1.tokens() =~= seq![Tok::number(e.value(f))]);
}

proof fn lemma_tokens_readable(e: Expr)
    requires
        e.well_formed(),
    ensures
        e.tokens().len() > 0,
        forall|i: int| 0 <= i < e.tokens().len() ==> readable(#[trigger] e.tokens()[i]),
    decreases e,
{
    match e {
        Expr::Number(text) => {},
        Expr::Group(inner) => {
            lemma_tokens_readable(*inner);
            let open = symbol_token(TokenType::ParenOpen);
            let close = symbol_token(TokenType::ParenClose);
            assert(readable(open));
            assert(readable(close));
        },
        Expr::Binary(left, op, right) => {
            lemma_tokens_readable(*left);
            lemma_tokens_readable(*right);
            assert(readable(symbol_token(op)));
        },
    }
}

/// For every well-formed expression, written with one space between its
/// tokens, to read the text and to evaluate what was read gives the value
/// of the expression.
pub proof fn lemma_reads_and_calculates(e: Expr, f: Arith)
    requires
        e.well_formed(),
        gives_numbers(f),
    ensures
        lexed(written(e.tokens())) == e.tokens(),
        calculated(lexed(written(e.tokens())), f) == Ok::<Seq<char>, CalcError>(e.value(f)),
{
    lemma_tokens_readable(e);
    lemma_lexed_written(e.tokens());
    lemma_calculated_is_value(e, f);
}

} // verus!
