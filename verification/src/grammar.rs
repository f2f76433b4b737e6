//! The grammar, as functions from the remaining text to a value and the text behind it.
//!
//! Every function here takes the unconsumed text and yields either what it read together
//! with the text that follows, or the fault that stops the parse.
use crate::number::{is_float_literal, number_run, signs_follow_exponent};
use crate::text::{begins_with, is_digit, is_scalar, lemma_skip_spaces, skip_spaces};
use crate::value::{collect_entries, Json};
use vstd::prelude::*;

verus! {

/// What stops a parse: the model of an [`Error`](crate::parse::Error).
pub enum Fault {
    UnexpectedToken(Seq<char>),
    MissingExpectedChar(char, Seq<char>),
    UnterminatedString,
    InvalidEscapeSequence(Seq<char>),
    InvalidUnicodeEscape,
    InvalidNumberFormat(Seq<char>),
    TrailingCharacters(Seq<char>),
}

/// The outcome of reading one construct: what was read and the text behind it, or a fault.
pub type Scan<T> = Result<(T, Seq<char>), Fault>;

/// `r` with `prefix` put in front of what was read.
pub open spec fn with_prefix<T>(prefix: Seq<T>, r: Scan<Seq<T>>) -> Scan<Seq<T>> {
    match r {
        Ok((items, rest)) => Ok((prefix + items, rest)),
        Err(e) => Err(e),
    }
}

/// Putting two prefixes in front, one after the other, is putting their concatenation.
pub proof fn lemma_with_prefix_twice<T>(a: Seq<T>, b: Seq<T>, r: Scan<Seq<T>>)
    ensures
        with_prefix(a, with_prefix(b, r)) == with_prefix(a + b, r),
        with_prefix(Seq::<T>::empty(), r) == r,
{
    match r {
        Ok((items, rest)) => {
            assert(a + (b + items) =~= (a + b) + items);
            assert(Seq::<T>::empty() + items =~= items);
        },
        Err(e) => {},
    }
}

/// Whether `s` begins with the characters of `word`.
pub open spec fn has_prefix(s: Seq<char>, word: Seq<char>) -> bool {
    word.len() <= s.len() && s.take(word.len() as int) == word
}

/// A non-empty prefix fixes the first character.
pub proof fn lemma_prefix_first(s: Seq<char>, word: Seq<char>)
    requires
        word.len() > 0,
    ensures
        has_prefix(s, word) ==> begins_with(s, word[0]),
{
    if has_prefix(s, word) {
        assert(s.take(word.len() as int)[0] == s[0]);
    }
}

pub open spec fn word_false() -> Seq<char> {
    seq!['f', 'a', 'l', 's', 'e']
}

pub open spec fn word_null() -> Seq<char> {
    seq!['n', 'u', 'l', 'l']
}

pub open spec fn word_true() -> Seq<char> {
    seq!['t', 'r', 'u', 'e']
}

pub open spec fn unexpected_token_message(rest: Seq<char>) -> Seq<char> {
    ("Unexpected token: '"@ + rest).push('\'')
}

pub open spec fn trailing_message(rest: Seq<char>) -> Seq<char> {
    ("Unexpected characters after JSON value: '"@ + rest).push('\'')
}

pub open spec fn separator_message(rest: Seq<char>) -> Seq<char> {
    ("Expected ',' or '}' after object value. Found: '"@ + rest).push('\'')
}

pub open spec fn dangling_escape_message() -> Seq<char> {
    "Invalid escape sequence: '\\' at end of string."@
}

pub open spec fn escape_message(c: char) -> Seq<char> {
    "Invalid escape sequence: '\\"@.push(c).push('\'')
}

pub open spec fn control_message(c: char) -> Seq<char> {
    "Unescaped control character in string: '"@.push(c).push('\'')
}

pub open spec fn sign_message() -> Seq<char> {
    "sign only allowed at the beginning of the number or immediately after 'e' or 'E' for exponents"@
}

pub open spec fn number_message(lexeme: Seq<char>) -> Seq<char> {
    ("Invalid number: '"@ + lexeme).push('\'')
}

/// The value of a hexadecimal digit, in either case.
pub open spec fn hex_digit(c: char) -> Option<int> {
    if '0' <= c <= '9' {
        Some(c as int - '0' as int)
    } else if 'a' <= c <= 'f' {
        Some(c as int - 'a' as int + 10)
    } else if 'A' <= c <= 'F' {
        Some(c as int - 'A' as int + 10)
    } else {
        None
    }
}

/// The character that a one-letter escape stands for.
pub open spec fn short_escape(c: char) -> Option<char> {
    if c == '"' {
        Some('"')
    } else if c == '\\' {
        Some('\\')
    } else if c == '/' {
        Some('/')
    } else if c == 'b' {
        Some('\u{8}')
    } else if c == 'f' {
        Some('\u{c}')
    } else if c == 'n' {
        Some('\n')
    } else if c == 'r' {
        Some('\r')
    } else if c == 't' {
        Some('\t')
    } else {
        None
    }
}

/// Four hexadecimal digits, read as one code point. Each escape stands alone: surrogate
/// halves are not paired and do not denote a character.
pub open spec fn parse_unicode(s: Seq<char>) -> Scan<char> {
    if s.len() >= 4 && hex_digit(s[0]) is Some && hex_digit(s[1]) is Some && hex_digit(s[2]) is Some
        && hex_digit(s[3]) is Some {
        let code = ((hex_digit(s[0])->0 * 16 + hex_digit(s[1])->0) * 16 + hex_digit(s[2])->0) * 16
            + hex_digit(s[3])->0;
        if is_scalar(code) {
            Ok((code as char, s.skip(4)))
        } else {
            Err(Fault::InvalidUnicodeEscape)
        }
    } else {
        Err(Fault::InvalidUnicodeEscape)
    }
}

/// What follows a backslash.
pub open spec fn parse_escape(s: Seq<char>) -> Scan<char> {
    if s.len() == 0 {
        Err(Fault::InvalidEscapeSequence(dangling_escape_message()))
    } else if short_escape(s[0]) is Some {
        Ok((short_escape(s[0])->0, s.skip(1)))
    } else if s[0] == 'u' {
        parse_unicode(s.skip(1))
    } else {
        Err(Fault::InvalidEscapeSequence(escape_message(s[0])))
    }
}

/// The characters of a string up to its closing quote; `s` starts behind the opening one.
pub open spec fn parse_string_body(s: Seq<char>) -> Scan<Seq<char>>
    decreases s.len(),
{
    if s.len() == 0 {
        Err(Fault::UnterminatedString)
    } else if s[0] == '"' {
        Ok((Seq::empty(), s.skip(1)))
    } else if s[0] == '\\' {
        match parse_escape(s.skip(1)) {
            Ok((c, rest)) => with_prefix(seq![c], parse_string_body(rest)),
            Err(e) => Err(e),
        }
    } else if s[0] == '\n' || s[0] == '\r' || s[0] == '\t' {
        Err(Fault::UnexpectedToken(control_message(s[0])))
    } else {
        with_prefix(seq![s[0]], parse_string_body(s.skip(1)))
    }
}

/// An escape, once read, has consumed at least one character.
pub proof fn lemma_escape_consumes(s: Seq<char>)
    ensures
        parse_escape(s) matches Ok((c, rest)) ==> rest.len() < s.len(),
{
}

/// A string body, once read, has consumed at least its closing quote.
pub proof fn lemma_body_consumes(s: Seq<char>)
    ensures
        parse_string_body(s) matches Ok((text, rest)) ==> rest.len() < s.len(),
    decreases s.len(),
{
    if s.len() > 0 && s[0] != '"' {
        if s[0] == '\\' {
            lemma_escape_consumes(s.skip(1));
            match parse_escape(s.skip(1)) {
                Ok((c, rest)) => {
                    lemma_body_consumes(rest);
                },
                Err(e) => {},
            }
        } else {
            lemma_body_consumes(s.skip(1));
        }
    }
}

/// A string, once read, has consumed at least its two quotes.
pub proof fn lemma_string_consumes(s: Seq<char>)
    ensures
        parse_string(s) matches Ok((text, rest)) ==> rest.len() < s.len(),
{
    if begins_with(s, '"') {
        lemma_body_consumes(s.skip(1));
    }
}

/// A string: an opening quote, then the body.
pub open spec fn parse_string(s: Seq<char>) -> Scan<Seq<char>> {
    if begins_with(s, '"') {
        parse_string_body(s.skip(1))
    } else {
        Err(Fault::MissingExpectedChar('"', s))
    }
}

/// A number: an optional minus sign and the maximal run of number characters behind it.
/// The run must place each sign directly behind an exponent mark and must be a decimal
/// literal.
pub open spec fn parse_number(s: Seq<char>) -> Scan<Seq<char>> {
    let body = if begins_with(s, '-') {
        s.skip(1)
    } else {
        s
    };
    let run = body.take(number_run(body) as int);
    let lexeme = s.take(s.len() - body.len() + run.len());
    if !signs_follow_exponent(run) {
        Err(Fault::InvalidNumberFormat(sign_message()))
    } else if !is_float_literal(run) {
        Err(Fault::InvalidNumberFormat(number_message(lexeme)))
    } else {
        Ok((lexeme, s.skip(lexeme.len() as int)))
    }
}

/// One value, after optional whitespace.
///
/// In the functions below, `next.len() <= s.len()` guards each recursive call on text
/// that an inner call handed back. The comparison always holds, since a value that was
/// read has consumed input; it is written out so that the recursion is well-founded.
pub open spec fn parse_value(s: Seq<char>) -> Scan<Json>
    decreases s.len(), 2nat,
{
    let t = skip_spaces(s);
    if has_prefix(t, word_false()) {
        Ok((Json::Boolean(false), t.skip(5)))
    } else if has_prefix(t, word_null()) {
        Ok((Json::Null, t.skip(4)))
    } else if has_prefix(t, word_true()) {
        Ok((Json::Boolean(true), t.skip(4)))
    } else if begins_with(t, '{') {
        proof {
            lemma_skip_spaces(s);
        }
        parse_object(t)
    } else if begins_with(t, '[') {
        proof {
            lemma_skip_spaces(s);
        }
        parse_array(t)
    } else if begins_with(t, '"') {
        match parse_string(t) {
            Ok((text, rest)) => Ok((Json::String(text), rest)),
            Err(e) => Err(e),
        }
    } else if begins_with(t, '-') || (t.len() > 0 && is_digit(t[0])) {
        match parse_number(t) {
            Ok((lexeme, rest)) => Ok((Json::Number(lexeme), rest)),
            Err(e) => Err(e),
        }
    } else {
        Err(Fault::UnexpectedToken(unexpected_token_message(t)))
    }
}

/// An object; `s` starts with its opening brace.
pub open spec fn parse_object(s: Seq<char>) -> Scan<Json>
    decreases s.len(), 1nat,
{
    if !begins_with(s, '{') {
        Err(Fault::MissingExpectedChar('{', s))
    } else if begins_with(skip_spaces(s.skip(1)), '}') {
        Ok((Json::Object(Seq::empty()), skip_spaces(s.skip(1)).skip(1)))
    } else {
        match parse_members(s.skip(1)) {
            Ok((pairs, rest)) => Ok((Json::Object(collect_entries(pairs)), rest)),
            Err(e) => Err(e),
        }
    }
}

/// One or more `key : value` pairs separated by commas, up to the closing brace, in the
/// order written.
pub open spec fn parse_members(s: Seq<char>) -> Scan<Seq<(Seq<char>, Json)>>
    decreases s.len(), 3nat,
{
    match parse_string(skip_spaces(s)) {
        Err(e) => Err(e),
        Ok((key, after_key)) => {
            let colon = skip_spaces(after_key);
            if !begins_with(colon, ':') {
                Err(Fault::MissingExpectedChar(':', after_key))
            } else {
                proof {
                    lemma_skip_spaces(s);
                    lemma_string_consumes(skip_spaces(s));
                    lemma_skip_spaces(after_key);
                }
                match parse_value(colon.skip(1)) {
                    Err(e) => Err(e),
                    Ok((value, after_value)) => {
                        let next = skip_spaces(after_value);
                        if begins_with(next, ',') && next.len() <= s.len() {
                            with_prefix(seq![(key, value)], parse_members(next.skip(1)))
                        } else if begins_with(next, '}') {
                            Ok((seq![(key, value)], next.skip(1)))
                        } else {
                            Err(Fault::UnexpectedToken(separator_message(after_value)))
                        }
                    },
                }
            }
        },
    }
}

/// An array; `s` starts with its opening bracket.
pub open spec fn parse_array(s: Seq<char>) -> Scan<Json>
    decreases s.len(), 1nat,
{
    if !begins_with(s, '[') {
        Err(Fault::MissingExpectedChar('[', s))
    } else if begins_with(skip_spaces(s.skip(1)), ']') {
        Ok((Json::Array(Seq::empty()), skip_spaces(s.skip(1)).skip(1)))
    } else {
        match parse_elements(s.skip(1)) {
            Ok((items, rest)) => Ok((Json::Array(items), rest)),
            Err(e) => Err(e),
        }
    }
}

/// One or more values separated by commas, up to the closing bracket.
pub open spec fn parse_elements(s: Seq<char>) -> Scan<Seq<Json>>
    decreases s.len(), 3nat,
{
    match parse_value(s) {
        Err(e) => Err(e),
        Ok((value, after_value)) => {
            let next = skip_spaces(after_value);
            if begins_with(next, ',') && next.len() <= s.len() {
                with_prefix(seq![value], parse_elements(next.skip(1)))
            } else if begins_with(next, ']') {
                Ok((seq![value], next.skip(1)))
            } else {
                Err(Fault::MissingExpectedChar(']', after_value))
            }
        },
    }
}

/// A whole text: one value, then nothing but whitespace.
pub open spec fn parse_text(s: Seq<char>) -> Result<Json, Fault> {
    match parse_value(s) {
        Err(e) => Err(e),
        Ok((value, rest)) => if skip_spaces(rest).len() > 0 {
            Err(Fault::TrailingCharacters(trailing_message(skip_spaces(rest))))
        } else {
            Ok(value)
        },
    }
}

} // verus!
