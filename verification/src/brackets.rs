//! Groups: where the bracket that opens a group is closed.

use vstd::prelude::*;
use crate::token::{Tok, TokenType};

verus! {

/// The index at or after `from` of the closing bracket that is not matched
/// by an opening bracket at or after `from`, with `depth` more of them to
/// pass over first; the length of `s` where there is none.
pub open spec fn closing_from(s: Seq<Tok>, from: int, depth: nat) -> int
    decreases s.len() - from,
{
    if from < 0 || from >= s.len() {
        s.len() as int
    } else if s[from].ttype == TokenType::ParenClose {
        if depth == 0 {
            from
        } else {
            closing_from(s, from + 1, (depth - 1) as nat)
        }
    } else if s[from].ttype == TokenType::ParenOpen {
        closing_from(s, from + 1, depth + 1)
    } else {
        closing_from(s, from + 1, depth)
    }
}

/// The index of the closing bracket that matches an opening bracket at
/// `begin`; the length of `s` where that bracket is never closed.
pub open spec fn closing(s: Seq<Tok>, begin: int) -> int {
    closing_from(s, begin + 1, 0)
}

/// The last index of the group that opens at `begin`: its closing bracket,
/// or the last token where it is never closed.
pub open spec fn group_end(s: Seq<Tok>, begin: int) -> int {
    if closing(s, begin) < s.len() {
        closing(s, begin)
    } else {
        s.len() - 1
    }
}

/// The tokens strictly inside the group that opens at `begin`.
pub open spec fn group_inside(s: Seq<Tok>, begin: int) -> Seq<Tok> {
    s.subrange(begin + 1, closing(s, begin))
}

/// The token is an opening or a closing bracket.
pub open spec fn is_bracket(t: Tok) -> bool {
    t.ttype == TokenType::ParenOpen || t.ttype == TokenType::ParenClose
}

/// The search for a closing bracket ends at a closing bracket at or after
/// its start, or at the end of the sequence.
pub proof fn lemma_closing_from_bounds(s: Seq<Tok>, from: int, depth: nat)
    requires
        0 <= from <= s.len(),
    ensures
        from <= closing_from(s, from, depth) <= s.len(),
        closing_from(s, from, depth) < s.len() ==> s[closing_from(s, from, depth)].ttype
            == TokenType::ParenClose,
    decreases s.len() - from,
{
    if from < s.len() {
        if s[from].ttype == TokenType::ParenClose {
            if depth != 0 {
                lemma_closing_from_bounds(s, from + 1, (depth - 1) as nat);
            }
        } else if s[from].ttype == TokenType::ParenOpen {
            lemma_closing_from_bounds(s, from + 1, depth + 1);
        } else {
            lemma_closing_from_bounds(s, from + 1, depth);
        }
    }
}

/// Tokens that are no brackets do not matter to where a group closes.
pub proof fn lemma_closing_skips(s: Seq<Tok>, from: int, to: int, depth: nat)
    requires
        0 <= from <= to <= s.len(),
        forall|k: int| from <= k < to ==> !is_bracket(#[trigger] s[k]),
    ensures
        closing_from(s, from, depth) == closing_from(s, to, depth),
    decreases to - from,
{
    if from < to {
        assert(!is_bracket(s[from]));
        lemma_closing_skips(s, from + 1, to, depth);
    }
}

/// To close `depth + extra + 1` brackets is to close `extra + 1` of them
/// and then, from the token after, `depth` more.
pub proof fn lemma_closing_composes(s: Seq<Tok>, from: int, depth: nat, extra: nat)
    requires
        0 <= from <= s.len(),
    ensures
        closing_from(s, from, depth + extra + 1) == if closing_from(s, from, extra) >= s.len() {
            s.len() as int
        } else {
            closing_from(s, closing_from(s, from, extra) + 1, depth)
        },
    decreases s.len() - from,
{
    if from < s.len() {
        if s[from].ttype == TokenType::ParenClose {
            if extra > 0 {
                lemma_closing_composes(s, from + 1, depth, (extra - 1) as nat);
            }
        } else if s[from].ttype == TokenType::ParenOpen {
            lemma_closing_composes(s, from + 1, depth, extra + 1);
        } else {
            lemma_closing_composes(s, from + 1, depth, extra);
        }
    }
}

/// Where a group closes depends only on the kinds of the tokens that are
/// scanned: in `t`, which from `tfrom` on holds a copy of `n` tokens of `s`
/// from `from` on and then ends, it closes at the same token, or not at all.
pub proof fn lemma_closing_window(s: Seq<Tok>, from: int, t: Seq<Tok>, tfrom: int, n: int, depth: nat)
    requires
        0 <= n,
        0 <= from,
        from + n <= s.len(),
        0 <= tfrom,
        tfrom + n == t.len(),
        forall|k: int| 0 <= k < n ==> (#[trigger] t[tfrom + k]).ttype == s[from + k].ttype,
    ensures
        closing_from(t, tfrom, depth) == if closing_from(s, from, depth) < from + n {
            closing_from(s, from, depth) - from + tfrom
        } else {
            t.len() as int
        },
    decreases n,
{
    lemma_closing_from_bounds(s, from, depth);
    if n > 0 {
        assert(t[tfrom + 0].ttype == s[from + 0].ttype);
        assert forall|k: int| 0 <= k < n - 1 implies (#[trigger] t[tfrom + 1 + k]).ttype == s[from
            + 1 + k].ttype by {
            assert(t[tfrom + (k + 1)].ttype == s[from + (k + 1)].ttype);
        }
        if s[from].ttype == TokenType::ParenClose {
            if depth > 0 {
                lemma_closing_window(s, from + 1, t, tfrom + 1, n - 1, (depth - 1) as nat);
            }
        } else if s[from].ttype == TokenType::ParenOpen {
            lemma_closing_window(s, from + 1, t, tfrom + 1, n - 1, depth + 1);
        } else {
            lemma_closing_window(s, from + 1, t, tfrom + 1, n - 1, depth);
        }
    }
}

/// Where the group at `begin` closes when a group opens at `i` inside it,
/// with no bracket between the two.
pub proof fn lemma_closing_around(s: Seq<Tok>, begin: int, i: int)
    requires
        0 <= begin < i < s.len(),
        forall|k: int| begin < k < i ==> !is_bracket(#[trigger] s[k]),
        s[i].ttype == TokenType::ParenOpen,
    ensures
        i < closing(s, i) <= s.len(),
        closing(s, i) < s.len() ==> closing(s, i) < closing(s, begin) <= s.len(),
        closing(s, i) < s.len() ==> closing(s, begin) == closing_from(s, closing(s, i) + 1, 0),
        closing(s, i) == s.len() ==> closing(s, begin) == s.len(),
{
    lemma_closing_from_bounds(s, i + 1, 0);
    lemma_closing_skips(s, begin + 1, i, 0);
    lemma_closing_composes(s, i + 1, 0, 0);
    if closing(s, i) < s.len() {
        lemma_closing_from_bounds(s, closing(s, i) + 1, 0);
    }
}

} // verus!
