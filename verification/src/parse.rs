//! The recursive-descent parser: a cursor over a character buffer, one function per
//! construct of the grammar.
use crate::grammar::{
    lemma_prefix_first,
    has_prefix,
    hex_digit,
    lemma_with_prefix_twice,
    parse_array,
    parse_elements,
    parse_escape,
    parse_members,
    parse_number,
    parse_object,
    parse_string,
    parse_string_body,
    parse_text,
    parse_unicode,
    parse_value,
    short_escape,
    with_prefix,
    word_false,
    word_null,
    word_true,
    Fault,
};
use crate::number::{
    is_exponent_mark,
    is_float_text,
    is_number_char,
    is_sign,
    lemma_number_run_bound,
    lemma_number_run_is,
    number_run,
    signs_follow_exponent,
    Number,
};
use crate::text::{
    begins_with,
    eat_whitespace,
    is_ascii_digit,
    lemma_skip_at,
    quoted,
    rest_text,
    to_chars,
};
use crate::value::{collect_entries, items_view, Json, ObjectMap, Value};
use crate::laws::lemma_parse_well_formed;
use vstd::prelude::*;

verus! {

/// Why a text is not JSON.
#[derive(Debug, PartialEq)]
pub enum Error {
    UnexpectedToken(String),
    MissingExpectedChar(char, String),
    UnterminatedString,
    InvalidEscapeSequence(String),
    InvalidUnicodeEscape,
    InvalidNumberFormat(String),
    TrailingCharacters(String),
}

impl View for Error {
    type V = Fault;

    open spec fn view(&self) -> Fault {
        match *self {
            Error::UnexpectedToken(s) => Fault::UnexpectedToken(s@),
            Error::MissingExpectedChar(c, s) => Fault::MissingExpectedChar(c, s@),
            Error::UnterminatedString => Fault::UnterminatedString,
            Error::InvalidEscapeSequence(s) => Fault::InvalidEscapeSequence(s@),
            Error::InvalidUnicodeEscape => Fault::InvalidUnicodeEscape,
            Error::InvalidNumberFormat(s) => Fault::InvalidNumberFormat(s@),
            Error::TrailingCharacters(s) => Fault::TrailingCharacters(s@),
        }
    }
}

/// Whether `input[at..]` begins with `word`.
fn has_word(input: &Vec<char>, at: usize, word: &Vec<char>) -> (r: bool)
    requires
        at <= input.len(),
    ensures
        r == has_prefix(input@.skip(at as int), word@),
{
    let n: usize = word.len();
    if input.len() - at < n {
        return false;
    }
    let mut i: usize = 0;
    while i < n
        invariant
            i <= n,
            n == word.len(),
            at + n <= input.len(),
            forall|k: int| 0 <= k < i ==> input@[at + k] == word@[k],
        decreases n - i,
    {
        if input[at + i] != word[i] {
            proof {
                lemma_skip_at(input@, at as int, n as int);
                assert(input@.skip(at as int).take(n as int)[i as int] == input@[at + i]);
            }
            return false;
        }
        i += 1;
    }
    proof {
        lemma_skip_at(input@, at as int, n as int);
        assert(input@.skip(at as int).take(n as int) =~= word@);
    }
    true
}

fn hex_value(c: char) -> (r: Option<u32>)
    ensures
        r is Some <==> hex_digit(c) is Some,
        r matches Some(d) ==> d < 16 && hex_digit(c) == Some(d as int),
{
    if '0' <= c && c <= '9' {
        Some(c as u32 - '0' as u32)
    } else if 'a' <= c && c <= 'f' {
        Some(c as u32 - 'a' as u32 + 10)
    } else if 'A' <= c && c <= 'F' {
        Some(c as u32 - 'A' as u32 + 10)
    } else {
        None
    }
}

fn short_escape_of(c: char) -> (r: Option<char>)
    ensures
        r == short_escape(c),
{
    if c == '"' {
        Some('"')
    } else if c == '\\' {
        Some('\\')
    } else if c == '/' {
        Some('/')
    } else if c == 'b' {
        Some('\x08')
    } else if c == 'f' {
        Some('\x0C')
    } else if c == 'n' {
        Some('\n')
    } else if c == 'r' {
        Some('\r')
    } else if c == 't' {
        Some('\t')
    } else {
        None
    }
}

/// Reads the four hexadecimal digits of a `\u` escape at `input[at..]`.
fn unicode(input: &Vec<char>, at: usize) -> (r: Result<(char, usize), Error>)
    requires
        at <= input.len(),
    ensures
        match r {
            Ok((c, next)) => at < next <= input.len() && parse_unicode(input@.skip(at as int))
                == Ok::<(char, Seq<char>), Fault>((c, input@.skip(next as int))),
            Err(e) => parse_unicode(input@.skip(at as int)) == Err::<(char, Seq<char>), Fault>(
                e@,
            ),
        },
{
    if input.len() - at < 4 {
        return Err(Error::InvalidUnicodeEscape);
    }
    proof {
        lemma_skip_at(input@, at as int, 4);
    }
    let h0 = hex_value(input[at]);
    let h1 = hex_value(input[at + 1]);
    let h2 = hex_value(input[at + 2]);
    let h3 = hex_value(input[at + 3]);
    match (h0, h1, h2, h3) {
        (Some(a), Some(b), Some(c), Some(d)) => {
            let code: u32 = ((a * 16 + b) * 16 + c) * 16 + d;
            match char::from_u32(code) {
                Some(ch) => Ok((ch, at + 4)),
                None => Err(Error::InvalidUnicodeEscape),
            }
        },
        _ => Err(Error::InvalidUnicodeEscape),
    }
}

/// Reads what follows a backslash at `input[at..]`.
fn escape(input: &Vec<char>, at: usize) -> (r: Result<(char, usize), Error>)
    requires
        at <= input.len(),
    ensures
        match r {
            Ok((c, next)) => at < next <= input.len() && parse_escape(input@.skip(at as int))
                == Ok::<(char, Seq<char>), Fault>((c, input@.skip(next as int))),
            Err(e) => parse_escape(input@.skip(at as int)) == Err::<(char, Seq<char>), Fault>(e@),
        },
{
    if at >= input.len() {
        return Err(
            Error::InvalidEscapeSequence(
                "Invalid escape sequence: '\\' at end of string.".to_owned(),
            ),
        );
    }
    proof {
        lemma_skip_at(input@, at as int, 1);
    }
    let c: char = input[at];
    match short_escape_of(c) {
        Some(ch) => Ok((ch, at + 1)),
        None => {
            if c == 'u' {
                unicode(input, at + 1)
            } else {
                let mut msg: String = "Invalid escape sequence: '\\".to_owned();
                msg.push(c);
                msg.push('\'');
                Err(Error::InvalidEscapeSequence(msg))
            }
        },
    }
}

/// Reads a string whose opening quote is expected at `input[pos]`.
pub fn string(input: &Vec<char>, pos: usize) -> (r: Result<(String, usize), Error>)
    requires
        pos <= input.len(),
    ensures
        match r {
            Ok((text, next)) => pos < next <= input.len() && parse_string(input@.skip(pos as int))
                == Ok::<(Seq<char>, Seq<char>), Fault>((text@, input@.skip(next as int))),
            Err(e) => parse_string(input@.skip(pos as int)) == Err::<(Seq<char>, Seq<char>), Fault>(
                e@,
            ),
        },
{
    let len: usize = input.len();
    if !(pos < len && input[pos] == '"') {
        return Err(Error::MissingExpectedChar('"', rest_text(input, pos)));
    }
    proof {
        lemma_skip_at(input@, pos as int, 1);
    }
    let mut text: String = String::new();
    let mut at: usize = pos + 1;
    let ghost body = input@.skip(pos + 1);
    proof {
        lemma_with_prefix_twice(Seq::<char>::empty(), Seq::<char>::empty(), parse_string_body(body));
    }
    loop
        invariant
            pos < at <= len,
            len == input.len(),
            body == input@.skip(pos + 1),
            parse_string(input@.skip(pos as int)) == parse_string_body(body),
            parse_string_body(body) == with_prefix(
                text@,
                parse_string_body(input@.skip(at as int)),
            ),
        decreases len - at,
    {
        if at >= len {
            return Err(Error::UnterminatedString);
        }
        proof {
            lemma_skip_at(input@, at as int, 1);
        }
        let ghost here = input@.skip(at as int);
        let c: char = input[at];
        if c == '"' {
            proof {
                assert(text@ + Seq::<char>::empty() =~= text@);
            }
            return Ok((text, at + 1));
        } else if c == '\\' {
            match escape(input, at + 1) {
                Ok((ch, next)) => {
                    proof {
                        lemma_skip_at(input@, next as int, 0);
                        lemma_with_prefix_twice(
                            text@,
                            seq![ch],
                            parse_string_body(input@.skip(next as int)),
                        );
                        assert(text@ + seq![ch] =~= text@.push(ch));
                    }
                    text.push(ch);
                    at = next;
                },
                Err(e) => {
                    return Err(e);
                },
            }
        } else if c == '\n' || c == '\r' || c == '\t' {
            let mut msg: String = "Unescaped control character in string: '".to_owned();
            msg.push(c);
            msg.push('\'');
            return Err(Error::UnexpectedToken(msg));
        } else {
            proof {
                lemma_with_prefix_twice(
                    text@,
                    seq![c],
                    parse_string_body(input@.skip(at + 1)),
                );
                assert(text@ + seq![c] =~= text@.push(c));
            }
            text.push(c);
            at += 1;
        }
    }
}

fn is_number_character(c: char) -> (r: bool)
    ensures
        r == is_number_char(c),
{
    is_ascii_digit(c) || c == '.' || c == 'e' || c == 'E' || c == '+' || c == '-'
}

/// A sign that does not follow an exponent mark, inside the run of number characters,
/// makes the run fail the placement rule.
proof fn lemma_misplaced_sign(tail: Seq<char>, k: int)
    requires
        0 <= k < tail.len(),
        forall|i: int| 0 <= i <= k ==> is_number_char(#[trigger] tail[i]),
        is_sign(tail[k]),
        k == 0 || !is_exponent_mark(tail[k - 1]),
    ensures
        !signs_follow_exponent(tail.take(number_run(tail) as int)),
{
    lemma_number_run_bound(tail);
    let n = number_run(tail) as int;
    if n <= k {
        assert(is_number_char(tail[n]));
    }
    let run = tail.take(n);
    assert(run[k] == tail[k]);
    if k > 0 {
        assert(run[k - 1] == tail[k - 1]);
    }
}

/// The run of number characters, once its end is known.
proof fn lemma_number_scanned(input: Seq<char>, pos: int, body: int, at: int)
    requires
        0 <= pos <= body <= at <= input.len(),
        forall|i: int| body <= i < at ==> is_number_char(#[trigger] input[i]),
        at < input.len() ==> !is_number_char(input[at]),
        forall|i: int|
            body <= i < at && is_sign(#[trigger] input[i]) ==> i > body && is_exponent_mark(
                input[i - 1],
            ),
    ensures
        input.skip(body).take(number_run(input.skip(body)) as int) == input.subrange(body, at),
        signs_follow_exponent(input.subrange(body, at)),
        input.skip(pos).take(at - pos) == input.subrange(pos, at),
        input.skip(pos).skip(at - pos) == input.skip(at),
{
    let tail = input.skip(body);
    lemma_skip_at(input, body, at - body);
    lemma_skip_at(input, pos, at - pos);
    assert forall|i: int| 0 <= i < at - body implies is_number_char(#[trigger] tail[i]) by {
        assert(tail[i] == input[body + i]);
    }
    if at - body < tail.len() {
        assert(tail[at - body] == input[at]);
    }
    lemma_number_run_is(tail, at - body);
    let run = input.subrange(body, at);
    assert forall|i: int| 0 <= i < run.len() && is_sign(#[trigger] run[i]) implies i > 0
        && is_exponent_mark(run[i - 1]) by {
        assert(run[i] == input[body + i]);
        if i > 0 {
            assert(run[i - 1] == input[body + i - 1]);
        }
    }
}

/// Reads a number at `input[pos..]`.
pub fn number(input: &Vec<char>, pos: usize) -> (r: Result<(Number, usize), Error>)
    requires
        pos <= input.len(),
    ensures
        match r {
            Ok((n, next)) => pos < next <= input.len() && parse_number(input@.skip(pos as int))
                == Ok::<(Seq<char>, Seq<char>), Fault>((n@, input@.skip(next as int))),
            Err(e) => parse_number(input@.skip(pos as int)) == Err::<(Seq<char>, Seq<char>), Fault>(
                e@,
            ),
        },
{
    let len: usize = input.len();
    let body: usize = if pos < len && input[pos] == '-' {
        pos + 1
    } else {
        pos
    };
    let ghost s = input@.skip(pos as int);
    let ghost tail = input@.skip(body as int);
    proof {
        lemma_skip_at(input@, pos as int, body - pos);
    }
    let mut at: usize = body;
    let mut sign_allowed: bool = false;
    while at < len && is_number_character(input[at])
        invariant
            body <= at <= len,
            len == input.len(),
            tail == input@.skip(body as int),
            s == input@.skip(pos as int),
            pos <= body,
            tail == (if begins_with(s, '-') {
                s.skip(1)
            } else {
                s
            }),
            forall|i: int| body <= i < at ==> is_number_char(#[trigger] input@[i]),
            forall|i: int|
                body <= i < at && is_sign(#[trigger] input@[i]) ==> i > body && is_exponent_mark(
                    input@[i - 1],
                ),
            sign_allowed == (at > body && is_exponent_mark(input@[at - 1])),
        decreases len - at,
    {
        let c: char = input[at];
        if (c == '+' || c == '-') && !sign_allowed {
            proof {
                assert forall|i: int| 0 <= i <= at - body implies is_number_char(
                    #[trigger] tail[i],
                ) by {
                    assert(tail[i] == input@[body + i]);
                }
                if at > body {
                    assert(tail[at - body - 1] == input@[at - 1]);
                }
                lemma_misplaced_sign(tail, at - body);
            }
            return Err(
                Error::InvalidNumberFormat(
                    "sign only allowed at the beginning of the number or immediately after 'e' or 'E' for exponents".to_owned(),
                ),
            );
        }
        sign_allowed = c == 'e' || c == 'E';
        at += 1;
    }
    proof {
        lemma_number_scanned(input@, pos as int, body as int, at as int);
    }
    if !is_float_text(input, body, at) {
        return Err(Error::InvalidNumberFormat(quoted("Invalid number: '", input, pos, at)));
    }
    Ok((Number::from_chars(input, pos, at), at))
}

fn false_chars() -> (r: Vec<char>)
    ensures
        r@ == word_false(),
{
    let r: Vec<char> = vec!['f', 'a', 'l', 's', 'e'];
    proof {
        assert(r@ =~= word_false());
    }
    r
}

fn null_chars() -> (r: Vec<char>)
    ensures
        r@ == word_null(),
{
    let r: Vec<char> = vec!['n', 'u', 'l', 'l'];
    proof {
        assert(r@ =~= word_null());
    }
    r
}

fn true_chars() -> (r: Vec<char>)
    ensures
        r@ == word_true(),
{
    let r: Vec<char> = vec!['t', 'r', 'u', 'e'];
    proof {
        assert(r@ =~= word_true());
    }
    r
}

/// Reads one value at `input[pos..]`, after optional whitespace.
pub fn value(input: &Vec<char>, pos: usize) -> (r: Result<(Value, usize), Error>)
    requires
        pos <= input.len(),
    ensures
        match r {
            Ok((v, next)) => pos < next <= input.len() && parse_value(input@.skip(pos as int))
                == Ok::<(Json, Seq<char>), Fault>((v@, input@.skip(next as int))),
            Err(e) => parse_value(input@.skip(pos as int)) == Err::<(Json, Seq<char>), Fault>(e@),
        },
    decreases input.len() - pos, 2nat,
{
    let len: usize = input.len();
    let at: usize = eat_whitespace(input, pos);
    let ghost t = input@.skip(at as int);
    proof {
        lemma_skip_at(input@, at as int, 0);
        lemma_prefix_first(t, word_false());
        lemma_prefix_first(t, word_null());
        lemma_prefix_first(t, word_true());
    }
    if at >= len {
        return Err(Error::UnexpectedToken(quoted("Unexpected token: '", input, at, len)));
    }
    let c: char = input[at];
    if c == 'f' && has_word(input, at, &false_chars()) {
        proof {
            lemma_skip_at(input@, at as int, 5);
        }
        return Ok((Value::Boolean(false), at + 5));
    }
    if c == 'n' && has_word(input, at, &null_chars()) {
        proof {
            lemma_skip_at(input@, at as int, 4);
        }
        return Ok((Value::Null, at + 4));
    }
    if c == 't' && has_word(input, at, &true_chars()) {
        proof {
            lemma_skip_at(input@, at as int, 4);
        }
        return Ok((Value::Boolean(true), at + 4));
    }
    if c == '{' {
        object(input, at)
    } else if c == '[' {
        array(input, at)
    } else if c == '"' {
        match string(input, at) {
            Ok((text, next)) => Ok((Value::String(text), next)),
            Err(e) => Err(e),
        }
    } else if c == '-' || is_ascii_digit(c) {
        match number(input, at) {
            Ok((n, next)) => Ok((Value::Number(n), next)),
            Err(e) => Err(e),
        }
    } else {
        proof {
            assert(input@.subrange(at as int, len as int) =~= t);
        }
        Err(Error::UnexpectedToken(quoted("Unexpected token: '", input, at, len)))
    }
}

/// Reads an object whose opening brace is expected at `input[pos]`.
pub fn object(input: &Vec<char>, pos: usize) -> (r: Result<(Value, usize), Error>)
    requires
        pos <= input.len(),
    ensures
        match r {
            Ok((v, next)) => pos < next <= input.len() && parse_object(input@.skip(pos as int))
                == Ok::<(Json, Seq<char>), Fault>((v@, input@.skip(next as int))),
            Err(e) => parse_object(input@.skip(pos as int)) == Err::<(Json, Seq<char>), Fault>(e@),
        },
    decreases input.len() - pos, 1nat,
{
    let len: usize = input.len();
    if !(pos < len && input[pos] == '{') {
        return Err(Error::MissingExpectedChar('{', rest_text(input, pos)));
    }
    proof {
        lemma_skip_at(input@, pos as int, 1);
    }
    let first: usize = eat_whitespace(input, pos + 1);
    let mut map: ObjectMap = ObjectMap::new();
    if first < len && input[first] == '}' {
        proof {
            lemma_skip_at(input@, first as int, 1);
        }
        return Ok((Value::Object(map), first + 1));
    }
    proof {
        if first < len {
            lemma_skip_at(input@, first as int, 1);
        }
    }
    let ghost members = input@.skip(pos + 1);
    let ghost mut pairs: Seq<(Seq<char>, Json)> = Seq::empty();
    let mut at: usize = pos + 1;
    proof {
        lemma_with_prefix_twice(pairs, pairs, parse_members(members));
    }
    loop
        invariant
            pos < at <= len,
            len == input.len(),
            members == input@.skip(pos + 1),
            map@ == collect_entries(pairs),
            parse_members(members) == with_prefix(pairs, parse_members(input@.skip(at as int))),
            parse_object(input@.skip(pos as int)) == (match parse_members(members) {
                Ok((all, rest)) => Ok::<(Json, Seq<char>), Fault>(
                    (Json::Object(collect_entries(all)), rest),
                ),
                Err(e) => Err::<(Json, Seq<char>), Fault>(e),
            }),
        decreases len - at,
    {
        let ghost here = input@.skip(at as int);
        let key_at: usize = eat_whitespace(input, at);
        let (key, after_key) = match string(input, key_at) {
            Ok(found) => found,
            Err(e) => {
                return Err(e);
            },
        };
        let colon: usize = eat_whitespace(input, after_key);
        if !(colon < len && input[colon] == ':') {
            proof {
                if colon < len {
                    lemma_skip_at(input@, colon as int, 1);
                }
            }
            return Err(Error::MissingExpectedChar(':', rest_text(input, after_key)));
        }
        proof {
            lemma_skip_at(input@, colon as int, 1);
            lemma_skip_at(input@, at as int, 0);
        }
        let (v, after_value) = match value(input, colon + 1) {
            Ok(found) => found,
            Err(e) => {
                return Err(e);
            },
        };
        let ghost pair = (key@, v@);
        map.insert(key, v);
        let next: usize = eat_whitespace(input, after_value);
        proof {
            if next < len {
                lemma_skip_at(input@, next as int, 1);
            }
            assert(pairs.push(pair).drop_last() =~= pairs);
            assert(pairs + seq![pair] =~= pairs.push(pair));
        }
        if next < len && input[next] == ',' {
            proof {
                lemma_with_prefix_twice(
                    pairs,
                    seq![pair],
                    parse_members(input@.skip(next + 1)),
                );
                pairs = pairs.push(pair);
            }
            at = next + 1;
        } else if next < len && input[next] == '}' {
            return Ok((Value::Object(map), next + 1));
        } else {
            proof {
                assert(input@.subrange(after_value as int, len as int) =~= input@.skip(
                    after_value as int,
                ));
            }
            return Err(
                Error::UnexpectedToken(
                    quoted(
                        "Expected ',' or '}' after object value. Found: '",
                        input,
                        after_value,
                        len,
                    ),
                ),
            );
        }
    }
}

/// Reads an array whose opening bracket is expected at `input[pos]`.
pub fn array(input: &Vec<char>, pos: usize) -> (r: Result<(Value, usize), Error>)
    requires
        pos <= input.len(),
    ensures
        match r {
            Ok((v, next)) => pos < next <= input.len() && parse_array(input@.skip(pos as int))
                == Ok::<(Json, Seq<char>), Fault>((v@, input@.skip(next as int))),
            Err(e) => parse_array(input@.skip(pos as int)) == Err::<(Json, Seq<char>), Fault>(e@),
        },
    decreases input.len() - pos, 1nat,
{
    let len: usize = input.len();
    if !(pos < len && input[pos] == '[') {
        return Err(Error::MissingExpectedChar('[', rest_text(input, pos)));
    }
    proof {
        lemma_skip_at(input@, pos as int, 1);
    }
    let first: usize = eat_whitespace(input, pos + 1);
    let mut items: Vec<Value> = Vec::new();
    if first < len && input[first] == ']' {
        proof {
            lemma_skip_at(input@, first as int, 1);
        }
        return Ok((Value::Array(items), first + 1));
    }
    proof {
        if first < len {
            lemma_skip_at(input@, first as int, 1);
        }
    }
    let ghost elements = input@.skip(pos + 1);
    let mut at: usize = pos + 1;
    proof {
        lemma_with_prefix_twice(
            Seq::<Json>::empty(),
            Seq::<Json>::empty(),
            parse_elements(elements),
        );
    }
    loop
        invariant
            pos < at <= len,
            len == input.len(),
            elements == input@.skip(pos + 1),
            parse_elements(elements) == with_prefix(
                items_view(items@),
                parse_elements(input@.skip(at as int)),
            ),
            parse_array(input@.skip(pos as int)) == (match parse_elements(elements) {
                Ok((all, rest)) => Ok::<(Json, Seq<char>), Fault>((Json::Array(all), rest)),
                Err(e) => Err::<(Json, Seq<char>), Fault>(e),
            }),
        decreases len - at,
    {
        let (v, after_value) = match value(input, at) {
            Ok(found) => found,
            Err(e) => {
                return Err(e);
            },
        };
        let ghost before = items_view(items@);
        let ghost earlier = items@;
        let ghost item = v@;
        items.push(v);
        let next: usize = eat_whitespace(input, after_value);
        proof {
            if next < len {
                lemma_skip_at(input@, next as int, 1);
            }
            lemma_skip_at(input@, at as int, 0);
            assert(items@.drop_last() =~= earlier);
            assert(before + seq![item] =~= before.push(item));
        }
        if next < len && input[next] == ',' {
            proof {
                lemma_with_prefix_twice(
                    before,
                    seq![item],
                    parse_elements(input@.skip(next + 1)),
                );
            }
            at = next + 1;
        } else if next < len && input[next] == ']' {
            return Ok((Value::Array(items), next + 1));
        } else {
            return Err(Error::MissingExpectedChar(']', rest_text(input, after_value)));
        }
    }
}

/// Parses a whole text: one value, then nothing but whitespace.
pub fn parse(input: &str) -> (r: Result<Value, Error>)
    ensures
        match r {
            Ok(v) => parse_text(input@) == Ok::<Json, Fault>(v@) && v@.well_formed(),
            Err(e) => parse_text(input@) == Err::<Json, Fault>(e@),
        },
{
    let chars: Vec<char> = to_chars(input);
    proof {
        lemma_parse_well_formed(input@);
        lemma_skip_at(chars@, 0, 0);
        assert(chars@.skip(0) =~= chars@);
    }
    let (v, next) = match value(&chars, 0) {
        Ok(found) => found,
        Err(e) => {
            return Err(e);
        },
    };
    let end: usize = eat_whitespace(&chars, next);
    if end < chars.len() {
        proof {
            lemma_skip_at(chars@, end as int, 0);
            assert(chars@.subrange(end as int, chars.len() as int) =~= chars@.skip(end as int));
        }
        return Err(
            Error::TrailingCharacters(
                quoted("Unexpected characters after JSON value: '", &chars, end, chars.len()),
            ),
        );
    }
    proof {
        lemma_skip_at(chars@, end as int, 0);
    }
    Ok(v)
}

} // verus!
