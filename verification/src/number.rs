//! The texts that stand for a number.
//!
//! A number is written as an optional sign followed by `inf`, `infinity` or
//! `nan` in any mix of upper and lower case, or by a decimal:
//!
//! ```text
//! Decimal  ::= ( Digit+ | Digit+ '.' Digit* | Digit* '.' Digit+ ) Exponent?
//! Exponent ::= ( 'e' | 'E' ) Sign? Digit+
//! Sign     ::= '+' | '-'
//! Digit    ::= '0' ... '9'
//! ```

use vstd::prelude::*;
use crate::text::chars_of;

verus! {

pub open spec fn is_digit(c: char) -> bool {
    '0' <= c && c <= '9'
}

pub open spec fn is_sign(c: char) -> bool {
    c == '+' || c == '-'
}

/// How many digits stand in a row in `s` from index `from` on.
pub open spec fn digit_run(s: Seq<char>, from: int) -> int
    decreases s.len() - from,
{
    if 0 <= from < s.len() && is_digit(s[from]) {
        1 + digit_run(s, from + 1)
    } else {
        0
    }
}

/// `s[from..]` is an exponent: the letter, an optional sign, and digits to the end.
pub open spec fn is_exponent(s: Seq<char>, from: int) -> bool {
    let digits = if from + 1 < s.len() && is_sign(s[from + 1]) {
        from + 2
    } else {
        from + 1
    };
    &&& 0 <= from < s.len()
    &&& (s[from] == 'e' || s[from] == 'E')
    &&& digits < s.len()
    &&& digits + digit_run(s, digits) == s.len()
}

/// `s[from..]` is a decimal: digits with at most one point among them, at
/// least one digit, and then nothing or an exponent.
pub open spec fn is_decimal(s: Seq<char>, from: int) -> bool {
    let whole = digit_run(s, from);
    let point = from + whole < s.len() && s[from + whole] == '.';
    let fraction = if point {
        digit_run(s, from + whole + 1)
    } else {
        0
    };
    let end = from + whole + (if point {
        1int
    } else {
        0int
    }) + fraction;
    &&& 0 <= from <= s.len()
    &&& whole + fraction >= 1
    &&& (end == s.len() || is_exponent(s, end))
}

/// `c` is the letter `lower` in either case; `upper` is its capital.
pub open spec fn is_letter(c: char, lower: char, upper: char) -> bool {
    c == lower || c == upper
}

/// `s[from..]` spells `inf`, `infinity` or `nan`, in any mix of cases.
pub open spec fn is_special(s: Seq<char>, from: int) -> bool {
    ||| {
        &&& s.len() == from + 3
        &&& is_letter(s[from], 'i', 'I')
        &&& is_letter(s[from + 1], 'n', 'N')
        &&& is_letter(s[from + 2], 'f', 'F')
    }
    ||| {
        &&& s.len() == from + 3
        &&& is_letter(s[from], 'n', 'N')
        &&& is_letter(s[from + 1], 'a', 'A')
        &&& is_letter(s[from + 2], 'n', 'N')
    }
    ||| {
        &&& s.len() == from + 8
        &&& is_letter(s[from], 'i', 'I')
        &&& is_letter(s[from + 1], 'n', 'N')
        &&& is_letter(s[from + 2], 'f', 'F')
        &&& is_letter(s[from + 3], 'i', 'I')
        &&& is_letter(s[from + 4], 'n', 'N')
        &&& is_letter(s[from + 5], 'i', 'I')
        &&& is_letter(s[from + 6], 't', 'T')
        &&& is_letter(s[from + 7], 'y', 'Y')
    }
}

/// `s` stands for a number.
pub open spec fn is_float_literal(s: Seq<char>) -> bool {
    let body = if s.len() > 0 && is_sign(s[0]) {
        1int
    } else {
        0int
    };
    is_decimal(s, body) || is_special(s, body)
}

fn is_digit_char(c: char) -> (b: bool)
    ensures
        b == is_digit(c),
{
    '0' <= c && c <= '9'
}

fn is_sign_char(c: char) -> (b: bool)
    ensures
        b == is_sign(c),
{
    c == '+' || c == '-'
}

fn count_digits(s: &Vec<char>, from: usize) -> (n: usize)
    requires
        from <= s.len(),
    ensures
        n == digit_run(s@, from as int),
        from + n <= s.len(),
{
    let mut i: usize = from;
    while i < s.len() && is_digit_char(s[i])
        invariant
            from <= i <= s.len(),
            digit_run(s@, from as int) == (i - from) + digit_run(s@, i as int),
        decreases s.len() - i,
    {
        i += 1;
    }
    i - from
}

fn check_exponent(s: &Vec<char>, from: usize) -> (b: bool)
    requires
        from < s.len(),
    ensures
        b == is_exponent(s@, from as int),
{
    if s[from] != 'e' && s[from] != 'E' {
        return false;
    }
    let digits: usize = if from + 1 < s.len() && is_sign_char(s[from + 1]) {
        from + 2
    } else {
        from + 1
    };
    if digits >= s.len() {
        return false;
    }
    let n: usize = count_digits(s, digits);
    digits + n == s.len()
}

fn check_decimal(s: &Vec<char>, from: usize) -> (b: bool)
    requires
        from <= s.len(),
    ensures
        b == is_decimal(s@, from as int),
{
    let whole: usize = count_digits(s, from);
    let point: bool = from + whole < s.len() && s[from + whole] == '.';
    let fraction: usize = if point {
        count_digits(s, from + whole + 1)
    } else {
        0
    };
    if whole + fraction < 1 {
        return false;
    }
    let end: usize = if point {
        from + whole + 1 + fraction
    } else {
        from + whole
    };
    end == s.len() || check_exponent(s, end)
}

fn letter(c: char, lower: char, upper: char) -> (b: bool)
    ensures
        b == is_letter(c, lower, upper),
{
    c == lower || c == upper
}

fn check_special(s: &Vec<char>, from: usize) -> (b: bool)
    requires
        from <= s.len(),
    ensures
        b == is_special(s@, from as int),
{
    let n: usize = s.len() - from;
    if n == 3 {
        (letter(s[from], 'i', 'I') && letter(s[from + 1], 'n', 'N') && letter(s[from + 2], 'f', 'F'))
            || (letter(s[from], 'n', 'N') && letter(s[from + 1], 'a', 'A') && letter(
            s[from + 2],
            'n',
            'N',
        ))
    } else if n == 8 {
        letter(s[from], 'i', 'I') && letter(s[from + 1], 'n', 'N') && letter(s[from + 2], 'f', 'F')
            && letter(s[from + 3], 'i', 'I') && letter(s[from + 4], 'n', 'N') && letter(
            s[from + 5],
            'i',
            'I',
        ) && letter(s[from + 6], 't', 'T') && letter(s[from + 7], 'y', 'Y')
    } else {
        false
    }
}

/// Whether the characters stand for a number.
pub fn is_number(s: &Vec<char>) -> (b: bool)
    ensures
        b == is_float_literal(s@),
{
    let body: usize = if s.len() > 0 && is_sign_char(s[0]) {
        1
    } else {
        0
    };
    check_decimal(s, body) || check_special(s, body)
}

/// Whether the text stands for a number.
pub fn is_number_text(s: &str) -> (b: bool)
    ensures
        b == is_float_literal(s@),
{
    let chars = chars_of(s);
    is_number(&chars)
}

proof fn lemma_digit_run(s: Seq<char>, from: int)
    requires
        0 <= from <= s.len(),
    ensures
        0 <= digit_run(s, from) <= s.len() - from,
        forall|k: int| from <= k < from + digit_run(s, from) ==> is_digit(#[trigger] s[k]),
    decreases s.len() - from,
{
    if from < s.len() && is_digit(s[from]) {
        lemma_digit_run(s, from + 1);
    }
}

/// The text of a number is not empty and holds no space.
pub proof fn lemma_number_has_no_space(s: Seq<char>)
    requires
        is_float_literal(s),
    ensures
        s.len() > 0,
        forall|k: int| 0 <= k < s.len() ==> #[trigger] s[k] != ' ',
{
    let body = if s.len() > 0 && is_sign(s[0]) {
        1int
    } else {
        0int
    };
    if is_decimal(s, body) {
        let whole = digit_run(s, body);
        lemma_digit_run(s, body);
        let point = body + whole < s.len() && s[body + whole] == '.';
        let fraction = if point {
            digit_run(s, body + whole + 1)
        } else {
            0
        };
        if point {
            lemma_digit_run(s, body + whole + 1);
        }
        let end = body + whole + (if point {
            1int
        } else {
            0int
        }) + fraction;
        if end != s.len() {
            let digits = if end + 1 < s.len() && is_sign(s[end + 1]) {
                end + 2
            } else {
                end + 1
            };
            lemma_digit_run(s, digits);
        }
    }
}

} // verus!
