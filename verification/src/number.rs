//! Number literals: the lexical grammar, and a literal held as validated text.
//!
//! A number is kept exactly as it was written. The grammar below is the decimal grammar
//! that a double-precision parser accepts, so a caller can convert a [`Number`] to a
//! double without a failure case.
use crate::text::{begins_with, is_ascii_digit, is_digit, push_range, to_chars};
use vstd::prelude::*;
use vstd::string::StrSliceExecFns;

verus! {

pub open spec fn is_exponent_mark(c: char) -> bool {
    c == 'e' || c == 'E'
}

pub open spec fn is_sign(c: char) -> bool {
    c == '+' || c == '-'
}

/// The characters the number scanner collects: digits, `.`, `e`, `E`, `+` and `-`.
pub open spec fn is_number_char(c: char) -> bool {
    is_digit(c) || c == '.' || is_exponent_mark(c) || is_sign(c)
}

/// Length of the maximal prefix of `s` made of number characters.
pub open spec fn number_run(s: Seq<char>) -> nat
    decreases s.len(),
{
    if s.len() > 0 && is_number_char(s[0]) {
        1 + number_run(s.skip(1))
    } else {
        0
    }
}

/// Length of the maximal prefix of `s` made of digits.
pub open spec fn digit_run(s: Seq<char>) -> nat
    decreases s.len(),
{
    if s.len() > 0 && is_digit(s[0]) {
        1 + digit_run(s.skip(1))
    } else {
        0
    }
}

/// Every sign in `b` stands directly behind an exponent mark.
pub open spec fn signs_follow_exponent(b: Seq<char>) -> bool {
    forall|i: int|
        0 <= i < b.len() && is_sign(#[trigger] b[i]) ==> i > 0 && is_exponent_mark(b[i - 1])
}

/// `x` is an exponent part: a mark, an optional sign, and one or more digits up to the end.
pub open spec fn is_exponent(x: Seq<char>) -> bool {
    &&& x.len() > 0
    &&& is_exponent_mark(x[0])
    &&& {
        let digits = if x.len() > 1 && is_sign(x[1]) {
            x.skip(2)
        } else {
            x.skip(1)
        };
        digits.len() > 0 && digit_run(digits) == digits.len()
    }
}

/// `b` is an unsigned decimal literal: digits with an optional fraction, at least one digit
/// before or after the point, and an optional exponent part.
pub open spec fn is_float_literal(b: Seq<char>) -> bool {
    let int_len = digit_run(b);
    let after_int = b.skip(int_len as int);
    let has_point = begins_with(after_int, '.');
    let frac_len = if has_point {
        digit_run(after_int.skip(1))
    } else {
        0
    };
    let after_frac = if has_point {
        after_int.skip(1 + frac_len as int)
    } else {
        after_int
    };
    &&& int_len + frac_len > 0
    &&& after_frac.len() == 0 || is_exponent(after_frac)
}

/// `t` is a number as the parser accepts it: either `-` and a decimal literal, or a
/// decimal literal that starts with a digit.
pub open spec fn is_number_lexeme(t: Seq<char>) -> bool {
    if begins_with(t, '-') {
        is_float_literal(t.skip(1))
    } else {
        t.len() > 0 && is_digit(t[0]) && is_float_literal(t)
    }
}

pub proof fn lemma_digit_run_bound(s: Seq<char>)
    ensures
        digit_run(s) <= s.len(),
        forall|i: int| 0 <= i < digit_run(s) ==> is_digit(#[trigger] s[i]),
        digit_run(s) < s.len() ==> !is_digit(s[digit_run(s) as int]),
    decreases s.len(),
{
    if s.len() > 0 && is_digit(s[0]) {
        let t = s.skip(1);
        lemma_digit_run_bound(t);
        assert forall|i: int| 0 <= i < digit_run(s) implies is_digit(#[trigger] s[i]) by {
            if i > 0 {
                assert(s[i] == t[i - 1]);
            }
        }
        if digit_run(s) < s.len() {
            assert(s[digit_run(s) as int] == t[digit_run(t) as int]);
        }
    }
}

pub proof fn lemma_number_run_bound(s: Seq<char>)
    ensures
        number_run(s) <= s.len(),
        forall|i: int| 0 <= i < number_run(s) ==> is_number_char(#[trigger] s[i]),
        number_run(s) < s.len() ==> !is_number_char(s[number_run(s) as int]),
    decreases s.len(),
{
    if s.len() > 0 && is_number_char(s[0]) {
        let t = s.skip(1);
        lemma_number_run_bound(t);
        assert forall|i: int| 0 <= i < number_run(s) implies is_number_char(#[trigger] s[i]) by {
            if i > 0 {
                assert(s[i] == t[i - 1]);
            }
        }
        if number_run(s) < s.len() {
            assert(s[number_run(s) as int] == t[number_run(t) as int]);
        }
    }
}

/// A run is determined by where the first character outside the class stands.
pub proof fn lemma_number_run_is(s: Seq<char>, n: int)
    requires
        0 <= n <= s.len(),
        forall|i: int| 0 <= i < n ==> is_number_char(#[trigger] s[i]),
        n < s.len() ==> !is_number_char(s[n]),
    ensures
        number_run(s) == n,
    decreases n,
{
    if n > 0 {
        let t = s.skip(1);
        assert forall|i: int| 0 <= i < n - 1 implies is_number_char(#[trigger] t[i]) by {
            assert(t[i] == s[i + 1]);
        }
        if n - 1 < t.len() {
            assert(t[n - 1] == s[n]);
        }
        lemma_number_run_is(t, n - 1);
    }
}

pub proof fn lemma_digit_run_is(s: Seq<char>, n: int)
    requires
        0 <= n <= s.len(),
        forall|i: int| 0 <= i < n ==> is_digit(#[trigger] s[i]),
        n < s.len() ==> !is_digit(s[n]),
    ensures
        digit_run(s) == n,
    decreases n,
{
    if n > 0 {
        let t = s.skip(1);
        assert forall|i: int| 0 <= i < n - 1 implies is_digit(#[trigger] t[i]) by {
            assert(t[i] == s[i + 1]);
        }
        if n - 1 < t.len() {
            assert(t[n - 1] == s[n]);
        }
        lemma_digit_run_is(t, n - 1);
    }
}

/// Counts the digits at the front of `input[from..to]`.
pub fn count_digits(input: &Vec<char>, from: usize, to: usize) -> (r: usize)
    requires
        from <= to <= input.len(),
    ensures
        r == digit_run(input@.subrange(from as int, to as int)),
        from + r <= to,
{
    let mut at: usize = from;
    while at < to && is_ascii_digit(input[at])
        invariant
            from <= at <= to <= input.len(),
            forall|i: int| from <= i < at ==> is_digit(#[trigger] input@[i]),
        decreases to - at,
    {
        at += 1;
    }
    proof {
        let b = input@.subrange(from as int, to as int);
        assert forall|i: int| 0 <= i < at - from implies is_digit(#[trigger] b[i]) by {
            assert(b[i] == input@[from + i]);
        }
        lemma_digit_run_is(b, at - from);
    }
    at - from
}

/// Decides whether `input[from..to]` is an unsigned decimal literal.
pub fn is_float_text(input: &Vec<char>, from: usize, to: usize) -> (r: bool)
    requires
        from <= to <= input.len(),
    ensures
        r == is_float_literal(input@.subrange(from as int, to as int)),
{
    let ghost b = input@.subrange(from as int, to as int);
    let int_len: usize = count_digits(input, from, to);
    let mut at: usize = from + int_len;
    let mut frac_len: usize = 0;
    proof {
        assert(b.skip(int_len as int) =~= input@.subrange(at as int, to as int));
    }
    if at < to && input[at] == '.' {
        frac_len = count_digits(input, at + 1, to);
        proof {
            let after_int = b.skip(int_len as int);
            assert(after_int.skip(1) =~= input@.subrange(at + 1, to as int));
            assert(after_int.skip(1 + frac_len) =~= input@.subrange(
                at + 1 + frac_len,
                to as int,
            ));
        }
        at = at + 1 + frac_len;
    }
    let ghost x = input@.subrange(at as int, to as int);
    if int_len == 0 && frac_len == 0 {
        return false;
    }
    if at == to {
        return true;
    }
    if !(input[at] == 'e' || input[at] == 'E') {
        return false;
    }
    let mut digits: usize = at + 1;
    if digits < to && (input[digits] == '+' || input[digits] == '-') {
        digits += 1;
    }
    proof {
        assert(x.skip(1) =~= input@.subrange(at + 1, to as int));
        if x.len() > 1 {
            assert(x[1] == input@[at + 1]);
            assert(x.skip(2) =~= input@.subrange(at + 2, to as int));
        }
    }
    if digits == to {
        return false;
    }
    let n: usize = count_digits(input, digits, to);
    n == to - digits
}

/// Decides whether `chars` is a number as the parser accepts it.
pub fn is_number_text(chars: &Vec<char>) -> (r: bool)
    ensures
        r == is_number_lexeme(chars@),
{
    let len: usize = chars.len();
    proof {
        assert(chars@.subrange(0, len as int) =~= chars@);
    }
    if len > 0 && chars[0] == '-' {
        proof {
            assert(chars@.skip(1) =~= chars@.subrange(1, len as int));
        }
        is_float_text(chars, 1, len)
    } else if len > 0 && is_ascii_digit(chars[0]) {
        is_float_text(chars, 0, len)
    } else {
        false
    }
}

/// A JSON number, held as the literal that denotes it.
#[derive(Debug, PartialEq)]
pub struct Number {
    literal: String,
}

impl View for Number {
    type V = Seq<char>;

    closed spec fn view(&self) -> Seq<char> {
        self.literal@
    }
}

impl Number {
    /// The number that `text` denotes, if `text` is a number literal.
    pub fn new(text: &str) -> (r: Option<Number>)
        ensures
            r is Some <==> is_number_lexeme(text@),
            r matches Some(n) ==> n@ == text@,
    {
        let chars: Vec<char> = to_chars(text);
        if is_number_text(&chars) {
            Some(Number::from_chars(&chars, 0, chars.len()))
        } else {
            None
        }
    }

    /// The number written as `input[from..to]`.
    pub(crate) fn from_chars(input: &Vec<char>, from: usize, to: usize) -> (r: Number)
        requires
            from <= to <= input.len(),
        ensures
            r@ == input@.subrange(from as int, to as int),
    {
        let mut literal = String::new();
        push_range(&mut literal, input, from, to);
        Number { literal }
    }

    /// The literal, as written.
    pub fn literal(&self) -> (r: &str)
        ensures
            r@ == self@,
    {
        self.literal.as_str()
    }

    /// Whether the literal carries a leading minus sign.
    pub fn is_negative(&self) -> (r: bool)
        ensures
            r == begins_with(self@, '-'),
    {
        let text: &str = self.literal.as_str();
        !text.is_empty() && text.get_char(0) == '-'
    }
}

} // verus!
