//! Spacing: from raw text to the form in which one space parts the tokens.

use vstd::prelude::*;
use crate::text::{chars_of, is_numeric, is_numeric_char, is_space, is_whitespace_char, string_of,
    without_spaces};

verus! {

/// What the character at index `i` of `s` becomes. A numeric character is
/// kept as it is. Any other gets a space before it where a numeric character
/// precedes it, and a space after it, unless it is a minus sign at the start
/// or right after an opening parenthesis.
pub open spec fn piece(s: Seq<char>, i: int) -> Seq<char> {
    let c = s[i];
    if is_numeric(c) {
        seq![c]
    } else {
        let before = if i > 0 && is_numeric(s[i - 1]) {
            seq![' ']
        } else {
            Seq::<char>::empty()
        };
        let after = if c == '-' && (i == 0 || s[i - 1] == '(') {
            Seq::<char>::empty()
        } else {
            seq![' ']
        };
        before + seq![c] + after
    }
}

/// The pieces of all characters of `s`, in order.
pub open spec fn spaced(s: Seq<char>) -> Seq<char>
    decreases s.len(),
{
    if s.len() == 0 {
        Seq::<char>::empty()
    } else {
        spaced(s.drop_last()) + piece(s, s.len() - 1)
    }
}

/// `s` without the spaces at its start.
pub open spec fn trim_start(s: Seq<char>) -> Seq<char>
    decreases s.len(),
{
    if s.len() > 0 && s.first() == ' ' {
        trim_start(s.drop_first())
    } else {
        s
    }
}

/// `s` without the spaces at its end.
pub open spec fn trim_end(s: Seq<char>) -> Seq<char>
    decreases s.len(),
{
    if s.len() > 0 && s.last() == ' ' {
        trim_end(s.drop_last())
    } else {
        s
    }
}

/// `s` without the spaces at its start and at its end.
pub open spec fn trimmed(s: Seq<char>) -> Seq<char> {
    trim_end(trim_start(s))
}

/// The spaced form of raw text: white space removed, the pieces put
/// together, and the spaces at both ends taken off.
pub open spec fn normalized(raw: Seq<char>) -> Seq<char> {
    trimmed(spaced(without_spaces(raw)))
}

fn strip(chars: &Vec<char>) -> (out: Vec<char>)
    ensures
        out@ == without_spaces(chars@),
{
    let mut out: Vec<char> = Vec::new();
    let mut i: usize = 0;
    proof {
        reveal(Seq::filter);
    }
    while i < chars.len()
        invariant
            i <= chars.len(),
            out@ == without_spaces(chars@.take(i as int)),
        decreases chars.len() - i,
    {
        let c = chars[i];
        proof {
            reveal(Seq::filter);
            assert(chars@.take(i + 1).drop_last() == chars@.take(i as int));
        }
        if !is_whitespace_char(c) {
            out.push(c);
        }
        i += 1;
    }
    proof {
        assert(chars@.take(i as int) == chars@);
    }
    out
}

fn space_out(chars: &Vec<char>) -> (out: Vec<char>)
    ensures
        out@ == spaced(chars@),
{
    let mut out: Vec<char> = Vec::new();
    let mut prev_num = false;
    let mut prev_open_paren = true;
    let mut i: usize = 0;
    while i < chars.len()
        invariant
            i <= chars.len(),
            out@ == spaced(chars@.take(i as int)),
            prev_num == (i > 0 && is_numeric(chars@[i - 1])),
            prev_open_paren == (i == 0 || chars@[i - 1] == '('),
        decreases chars.len() - i,
    {
        let cur = chars[i];
        proof {
            assert(chars@.take(i + 1).drop_last() == chars@.take(i as int));
            assert(piece(chars@.take(i + 1), i as int) == piece(chars@, i as int));
        }
        if is_numeric_char(cur) {
            out.push(cur);
            prev_num = true;
            prev_open_paren = false;
        } else {
            if prev_num {
                out.push(' ');
            }
            out.push(cur);
            if !(prev_open_paren && cur == '-') {
                out.push(' ');
            }
            prev_open_paren = cur == '(';
            prev_num = false;
        }
        i += 1;
    }
    proof {
        assert(chars@.take(i as int) == chars@);
    }
    out
}

fn trim_bounds(chars: &Vec<char>) -> (bounds: (usize, usize))
    ensures
        bounds.0 <= bounds.1 <= chars.len(),
        chars@.subrange(bounds.0 as int, bounds.1 as int) == trimmed(chars@),
{
    let mut start: usize = 0;
    proof {
        assert(chars@.skip(0) == chars@);
    }
    while start < chars.len() && chars[start] == ' '
        invariant
            start <= chars.len(),
            trim_start(chars@) == trim_start(chars@.skip(start as int)),
        decreases chars.len() - start,
    {
        proof {
            assert(chars@.skip(start as int).drop_first() == chars@.skip(start + 1));
        }
        start += 1;
    }
    let mut end: usize = chars.len();
    proof {
        assert(chars@.skip(start as int) == chars@.subrange(start as int, end as int));
    }
    while end > start && chars[end - 1] == ' '
        invariant
            start <= end <= chars.len(),
            trimmed(chars@) == trim_end(chars@.subrange(start as int, end as int)),
        decreases end,
    {
        proof {
            assert(chars@.subrange(start as int, end as int).drop_last() == chars@.subrange(
                start as int,
                end - 1,
            ));
        }
        end -= 1;
    }
    (start, end)
}

/// Puts single spaces between the tokens of text: the pieces of its
/// characters, one after the other.
pub fn add_whitespace(input: String) -> (output: String)
    ensures
        output@ == spaced(input@),
{
    let chars = chars_of(input.as_str());
    let out = space_out(&chars);
    string_of(&out, 0, out.len())
}

/// The spaced form of raw text.
pub fn format_tokens(input: &String) -> (output: String)
    ensures
        output@ == normalized(input@),
{
    let chars = chars_of(input.as_str());
    let stripped = strip(&chars);
    let out = space_out(&stripped);
    let (start, end) = trim_bounds(&out);
    string_of(&out, start, end)
}

/// `s` without its spaces.
pub open spec fn without_blanks(s: Seq<char>) -> Seq<char> {
    s.filter(|c: char| c != ' ')
}

proof fn lemma_filter_one(c: char, keep: spec_fn(char) -> bool)
    ensures
        seq![c].filter(keep) == if keep(c) {
            seq![c]
        } else {
            Seq::<char>::empty()
        },
{
    reveal_with_fuel(Seq::filter, 2);
    assert(seq![c].drop_last() =~= Seq::<char>::empty());
    assert(Seq::<char>::empty().push(c) =~= seq![c]);
}

proof fn lemma_piece_content(s: Seq<char>, i: int, keep: spec_fn(char) -> bool)
    requires
        0 <= i < s.len(),
        !keep(' '),
    ensures
        piece(s, i).filter(keep) == seq![s[i]].filter(keep),
{
    let c = s[i];
    let blank = seq![' '];
    let none = Seq::<char>::empty();
    lemma_filter_one(' ', keep);
    lemma_filter_one(c, keep);
    assert(none.filter(keep) == none) by {
        reveal(Seq::filter);
    }
    if !is_numeric(c) {
        let before = if i > 0 && is_numeric(s[i - 1]) {
            blank
        } else {
            none
        };
        let after = if c == '-' && (i == 0 || s[i - 1] == '(') {
            none
        } else {
            blank
        };
        assert(piece(s, i) == before + seq![c] + after);
        Seq::filter_distributes_over_add(before + seq![c], after, keep);
        Seq::filter_distributes_over_add(before, seq![c], keep);
        assert(none + seq![c].filter(keep) + none =~= seq![c].filter(keep));
    }
}

proof fn lemma_spaced_content(s: Seq<char>, keep: spec_fn(char) -> bool)
    requires
        !keep(' '),
    ensures
        spaced(s).filter(keep) == s.filter(keep),
    decreases s.len(),
{
    if s.len() == 0 {
    } else {
        let d = s.drop_last();
        let last = s.len() - 1;
        lemma_spaced_content(d, keep);
        lemma_piece_content(s, last, keep);
        Seq::filter_distributes_over_add(spaced(d), piece(s, last), keep);
        Seq::filter_distributes_over_add(d, seq![s[last]], keep);
        assert(d + seq![s[last]] =~= s);
    }
}

proof fn lemma_trim_start_content(s: Seq<char>, keep: spec_fn(char) -> bool)
    requires
        !keep(' '),
    ensures
        trim_start(s).filter(keep) == s.filter(keep),
    decreases s.len(),
{
    if s.len() > 0 && s.first() == ' ' {
        lemma_trim_start_content(s.drop_first(), keep);
        lemma_filter_one(' ', keep);
        Seq::filter_distributes_over_add(seq![' '], s.drop_first(), keep);
        assert(seq![' '] + s.drop_first() =~= s);
        assert(Seq::<char>::empty() + s.drop_first().filter(keep) =~= s.drop_first().filter(keep));
    }
}

proof fn lemma_trim_end_content(s: Seq<char>, keep: spec_fn(char) -> bool)
    requires
        !keep(' '),
    ensures
        trim_end(s).filter(keep) == s.filter(keep),
    decreases s.len(),
{
    if s.len() > 0 && s.last() == ' ' {
        lemma_trim_end_content(s.drop_last(), keep);
        lemma_filter_one(' ', keep);
        Seq::filter_distributes_over_add(s.drop_last(), seq![' '], keep);
        assert(s.drop_last() + seq![' '] =~= s);
        assert(s.drop_last().filter(keep) + Seq::<char>::empty() =~= s.drop_last().filter(keep));
    }
}

proof fn lemma_trimmed_content(s: Seq<char>, keep: spec_fn(char) -> bool)
    requires
        !keep(' '),
    ensures
        trimmed(s).filter(keep) == s.filter(keep),
{
    lemma_trim_start_content(s, keep);
    lemma_trim_end_content(trim_start(s), keep);
}

/// What a filter keeps comes through it again where every character that
/// it keeps is kept by the second filter too.
proof fn lemma_filter_again(s: Seq<char>, first: spec_fn(char) -> bool, second: spec_fn(char) -> bool)
    requires
        forall|c: char| #[trigger] first(c) ==> second(c),
    ensures
        s.filter(first).filter(second) == s.filter(first),
    decreases s.len(),
{
    reveal(Seq::filter);
    if s.len() > 0 {
        lemma_filter_again(s.drop_last(), first, second);
        if first(s.last()) {
            s.drop_last().filter(first).lemma_filter_push(s.last(), second);
        }
    }
}

/// The spaced form holds the characters of the raw text that are no white
/// space, in their order, and besides them only spaces.
pub proof fn lemma_normalized_keeps_content(raw: Seq<char>)
    ensures
        without_blanks(normalized(raw)) == without_spaces(raw),
        without_spaces(normalized(raw)) == without_spaces(raw),
{
    let stripped = without_spaces(raw);
    let blanks = |c: char| c != ' ';
    let spaces = |c: char| !is_space(c);
    lemma_spaced_content(stripped, blanks);
    lemma_trimmed_content(spaced(stripped), blanks);
    lemma_filter_again(raw, spaces, blanks);
    lemma_spaced_content(stripped, spaces);
    lemma_trimmed_content(spaced(stripped), spaces);
    lemma_filter_again(raw, spaces, spaces);
}

/// To space text that is spaced already changes nothing.
pub proof fn lemma_normalized_idempotent(raw: Seq<char>)
    ensures
        normalized(normalized(raw)) == normalized(raw),
{
    lemma_normalized_keeps_content(raw);
}

/// No space stands at the start or at the end of `s`, and no two spaces
/// stand side by side: what `s` holds is parted by single spaces.
pub open spec fn single_spaced(s: Seq<char>) -> bool {
    &&& s.len() > 0 ==> s.first() != ' ' && s.last() != ' '
    &&& forall|i: int| 0 <= i < s.len() - 1 ==> !(#[trigger] s[i] == ' ' && s[i + 1] == ' ')
}

proof fn lemma_spaced_shape(s: Seq<char>)
    requires
        forall|i: int| 0 <= i < s.len() ==> #[trigger] s[i] != ' ',
    ensures
        s.len() == 0 ==> spaced(s).len() == 0,
        s.len() > 0 ==> spaced(s).len() > 0 && spaced(s).first() != ' ',
        s.len() > 0 && is_numeric(s.last()) ==> spaced(s).last() != ' ',
        forall|i: int|
            0 <= i < spaced(s).len() - 1 ==> !(#[trigger] spaced(s)[i] == ' ' && spaced(s)[i + 1]
                == ' '),
    decreases s.len(),
{
    if s.len() > 0 {
        let d = s.drop_last();
        let last = s.len() - 1;
        assert forall|i: int| 0 <= i < d.len() implies #[trigger] d[i] != ' ' by {
            assert(s[i] != ' ');
        }
        lemma_spaced_shape(d);
        let head = spaced(d);
        let tail = piece(s, last);
        let all = spaced(s);
        assert(all == head + tail);
        assert(s[last] != ' ');
        assert(tail.len() > 0 && tail.len() <= 3);
        assert(forall|i: int| 0 <= i < tail.len() - 1 ==> !(#[trigger] tail[i] == ' ' && tail[i + 1]
            == ' '));
        if d.len() > 0 {
            assert(d.last() == s[last - 1]);
            assert(tail.first() == ' ' ==> is_numeric(d.last()));
        } else {
            assert(tail.first() != ' ');
        }
        assert forall|i: int| 0 <= i < all.len() - 1 implies !(#[trigger] all[i] == ' ' && all[i
            + 1] == ' ') by {
            if i + 1 < head.len() {
                assert(all[i] == head[i] && all[i + 1] == head[i + 1]);
            } else if i >= head.len() {
                assert(all[i] == tail[i - head.len()] && all[i + 1] == tail[i + 1 - head.len()]);
            } else {
                assert(all[i] == head.last() && all[i + 1] == tail.first());
            }
        }
    }
}

proof fn lemma_trimmed_shape(s: Seq<char>)
    requires
        s.len() > 0 ==> s.first() != ' ',
        forall|i: int| 0 <= i < s.len() - 1 ==> !(#[trigger] s[i] == ' ' && s[i + 1] == ' '),
    ensures
        single_spaced(trimmed(s)),
{
    if s.len() > 0 && s.last() == ' ' {
        let d = s.drop_last();
        assert(trim_end(s) == trim_end(d));
        if d.len() > 0 {
            assert(!(s[s.len() - 2] == ' ' && s[s.len() - 2 + 1] == ' '));
            assert(d.last() != ' ');
            assert(trim_end(d) == d);
            assert(d.first() == s.first());
            assert forall|i: int| 0 <= i < d.len() - 1 implies !(#[trigger] d[i] == ' ' && d[i + 1]
                == ' ') by {
                assert(!(s[i] == ' ' && s[i + 1] == ' '));
            }
        }
    }
}

/// In the spaced form single spaces part the tokens: no space stands at its
/// start or at its end, and no two spaces stand side by side.
pub proof fn lemma_normalized_single_spaced(raw: Seq<char>)
    ensures
        single_spaced(normalized(raw)),
{
    let stripped = without_spaces(raw);
    assert forall|i: int| 0 <= i < stripped.len() implies #[trigger] stripped[i] != ' ' by {
        raw.lemma_filter_pred(|c: char| !is_space(c), i);
    }
    lemma_spaced_shape(stripped);
    lemma_trimmed_shape(spaced(stripped));
}

} // verus!
