//! What holds of parsing and rendering together.
use crate::generate::{
    escape_char,
    escape_text,
    hex_char,
    quote,
    render,
    render_elements,
    render_members,
    Layout,
};
use crate::grammar::{
    has_prefix,
    hex_digit,
    lemma_prefix_first,
    lemma_string_consumes,
    parse_array,
    parse_elements,
    parse_members,
    parse_number,
    parse_object,
    parse_string,
    parse_string_body,
    parse_text,
    parse_value,
    with_prefix,
    word_false,
    word_null,
    word_true,
    Fault,
};
use crate::number::{
    digit_run,
    is_exponent_mark,
    is_float_literal,
    is_number_char,
    is_number_lexeme,
    is_sign,
    lemma_digit_run_bound,
    lemma_number_run_bound,
    lemma_number_run_is,
    number_run,
    signs_follow_exponent,
};
use crate::text::{
    begins_with,
    is_blank,
    is_digit,
    is_space,
    lemma_skip_blank_prefix,
    lemma_skip_spaces,
    skip_spaces,
};
use crate::value::{keys_unique, lemma_collect_entries, lemma_collect_unique, Json};
use vstd::prelude::*;

verus! {

/// A number that was read where a minus sign or a digit stands is a number literal, and
/// reading it consumed input.
pub proof fn lemma_number_well_formed(s: Seq<char>)
    requires
        begins_with(s, '-') || (s.len() > 0 && is_digit(s[0])),
    ensures
        parse_number(s) matches Ok((lexeme, rest)) ==> is_number_lexeme(lexeme) && rest.len()
            < s.len(),
{
    let body = if begins_with(s, '-') {
        s.skip(1)
    } else {
        s
    };
    lemma_number_run_bound(body);
    let run = body.take(number_run(body) as int);
    let lexeme = s.take(s.len() - body.len() + run.len());
    if parse_number(s) is Ok {
        lemma_digit_run_bound(run);
        assert(run.len() > 0) by {
            if run.len() == 0 {
                assert(run.skip(0) =~= run);
                assert(digit_run(run) == 0);
            }
        }
        if begins_with(s, '-') {
            assert(lexeme.skip(1) =~= run);
            assert(lexeme[0] == '-');
        } else {
            assert(lexeme =~= run);
            assert(lexeme[0] == s[0]);
        }
    }
}

/// A value that was read is well-formed, and reading it consumed input.
pub proof fn lemma_value_well_formed(s: Seq<char>)
    ensures
        parse_value(s) matches Ok((value, rest)) ==> value.well_formed() && rest.len() < s.len(),
    decreases s.len(), 2nat,
{
    let t = skip_spaces(s);
    lemma_skip_spaces(s);
    if has_prefix(t, word_false()) || has_prefix(t, word_null()) || has_prefix(t, word_true()) {
    } else if begins_with(t, '{') {
        lemma_object_well_formed(t);
    } else if begins_with(t, '[') {
        lemma_array_well_formed(t);
    } else if begins_with(t, '"') {
        lemma_string_consumes(t);
    } else if begins_with(t, '-') || (t.len() > 0 && is_digit(t[0])) {
        lemma_number_well_formed(t);
    }
}

/// An object that was read is well-formed, and reading it consumed input.
pub proof fn lemma_object_well_formed(s: Seq<char>)
    ensures
        parse_object(s) matches Ok((value, rest)) ==> value.well_formed() && rest.len() < s.len(),
    decreases s.len(), 1nat,
{
    if begins_with(s, '{') {
        lemma_skip_spaces(s.skip(1));
        if begins_with(skip_spaces(s.skip(1)), '}') {
        } else {
            lemma_members_well_formed(s.skip(1));
            match parse_members(s.skip(1)) {
                Ok((pairs, rest)) => {
                    lemma_collect_entries(pairs);
                },
                Err(e) => {},
            }
        }
    }
}

/// Members that were read have well-formed values, and reading them consumed input.
pub proof fn lemma_members_well_formed(s: Seq<char>)
    ensures
        parse_members(s) matches Ok((pairs, rest)) ==> rest.len() < s.len() && pairs.len() > 0
            && forall|i: int| 0 <= i < pairs.len() ==> (#[trigger] pairs[i]).1.well_formed(),
    decreases s.len(), 3nat,
{
    lemma_skip_spaces(s);
    lemma_string_consumes(skip_spaces(s));
    match parse_string(skip_spaces(s)) {
        Err(e) => {},
        Ok((key, after_key)) => {
            let colon = skip_spaces(after_key);
            lemma_skip_spaces(after_key);
            if begins_with(colon, ':') {
                lemma_value_well_formed(colon.skip(1));
                match parse_value(colon.skip(1)) {
                    Err(e) => {},
                    Ok((value, after_value)) => {
                        let next = skip_spaces(after_value);
                        lemma_skip_spaces(after_value);
                        if begins_with(next, ',') && next.len() <= s.len() {
                            lemma_members_well_formed(next.skip(1));
                            match parse_members(next.skip(1)) {
                                Ok((more, rest)) => {
                                    let pairs = seq![(key, value)] + more;
                                    assert forall|i: int| 0 <= i < pairs.len() implies (
                                    #[trigger] pairs[i]).1.well_formed() by {
                                        if i > 0 {
                                            assert(pairs[i] == more[i - 1]);
                                        }
                                    }
                                },
                                Err(e) => {},
                            }
                        }
                    },
                }
            }
        },
    }
}

/// An array that was read is well-formed, and reading it consumed input.
pub proof fn lemma_array_well_formed(s: Seq<char>)
    ensures
        parse_array(s) matches Ok((value, rest)) ==> value.well_formed() && rest.len() < s.len(),
    decreases s.len(), 1nat,
{
    if begins_with(s, '[') {
        lemma_skip_spaces(s.skip(1));
        if begins_with(skip_spaces(s.skip(1)), ']') {
        } else {
            lemma_elements_well_formed(s.skip(1));
        }
    }
}

/// Elements that were read are well-formed, and reading them consumed input.
pub proof fn lemma_elements_well_formed(s: Seq<char>)
    ensures
        parse_elements(s) matches Ok((items, rest)) ==> rest.len() < s.len() && items.len() > 0
            && forall|i: int| 0 <= i < items.len() ==> (#[trigger] items[i]).well_formed(),
    decreases s.len(), 3nat,
{
    lemma_value_well_formed(s);
    match parse_value(s) {
        Err(e) => {},
        Ok((value, after_value)) => {
            let next = skip_spaces(after_value);
            lemma_skip_spaces(after_value);
            if begins_with(next, ',') && next.len() <= s.len() {
                lemma_elements_well_formed(next.skip(1));
                match parse_elements(next.skip(1)) {
                    Ok((more, rest)) => {
                        let items = seq![value] + more;
                        assert forall|i: int| 0 <= i < items.len() implies (
                        #[trigger] items[i]).well_formed() by {
                            if i > 0 {
                                assert(items[i] == more[i - 1]);
                            }
                        }
                    },
                    Err(e) => {},
                }
            }
        },
    }
}

/// Whatever a text parses to is well-formed: its numbers are number literals and no
/// object in it holds a key twice.
pub proof fn lemma_parse_well_formed(text: Seq<char>)
    ensures
        parse_text(text) matches Ok(value) ==> value.well_formed(),
{
    lemma_value_well_formed(text);
}

/// Reading a hexadecimal digit that was written for `d` yields `d`.
pub proof fn lemma_hex_digit_of_char(d: int)
    requires
        0 <= d < 16,
    ensures
        hex_digit(hex_char(d)) == Some(d),
{
}

/// Reading what was written for one character of a string yields that character.
pub proof fn lemma_escape_char_round_trip(c: char, tail: Seq<char>)
    ensures
        parse_string_body(escape_char(c) + tail) == with_prefix(seq![c], parse_string_body(tail)),
{
    let written = escape_char(c);
    let s = written + tail;
    assert(s[0] == written[0]);
    if c == '"' || c == '\\' || c == '\u{8}' || c == '\u{c}' || c == '\n' || c == '\r' || c
        == '\t' {
        assert(s.skip(1)[0] == written[1]);
        assert(s.skip(1).skip(1) =~= tail);
    } else if (c as int) < 0x20 {
        let high = c as int / 16;
        let low = c as int % 16;
        lemma_hex_digit_of_char(0);
        lemma_hex_digit_of_char(high);
        lemma_hex_digit_of_char(low);
        let digits = s.skip(1).skip(1);
        assert(s.skip(1)[0] == 'u');
        assert(digits[0] == '0');
        assert(digits[1] == '0');
        assert(digits[2] == hex_char(high));
        assert(digits[3] == hex_char(low));
        assert(digits.skip(4) =~= tail);
        let code = ((0 * 16 + 0) * 16 + high) * 16 + low;
        assert(code == c as int);
        assert(code as char == c);
    } else {
        assert(s.skip(1) =~= tail);
    }
}

/// Reading a written string body up to its closing quote yields the string.
pub proof fn lemma_text_round_trip(s: Seq<char>, rest: Seq<char>)
    ensures
        parse_string_body(escape_text(s) + seq!['"'] + rest) == Ok::<(Seq<char>, Seq<char>), Fault>(
            (s, rest),
        ),
    decreases s.len(),
{
    let written = escape_text(s) + seq!['"'] + rest;
    if s.len() == 0 {
        assert(written[0] == '"');
        assert(written.skip(1) =~= rest);
        assert(s =~= Seq::<char>::empty());
    } else {
        let tail = escape_text(s.skip(1)) + seq!['"'] + rest;
        assert(written =~= escape_char(s[0]) + tail);
        lemma_escape_char_round_trip(s[0], tail);
        lemma_text_round_trip(s.skip(1), rest);
        assert(seq![s[0]] + s.skip(1) =~= s);
    }
}

/// Reading a written string literal yields the string and leaves what stands behind it.
pub proof fn lemma_quote_round_trip(s: Seq<char>, rest: Seq<char>)
    ensures
        parse_string(quote(s) + rest) == Ok::<(Seq<char>, Seq<char>), Fault>((s, rest)),
        begins_with(quote(s) + rest, '"'),
{
    let written = quote(s) + rest;
    assert(written[0] == '"');
    assert(written.skip(1) =~= escape_text(s) + seq!['"'] + rest);
    lemma_text_round_trip(s, rest);
}

/// A decimal literal is made of number characters, with signs only behind an exponent
/// mark, and is not empty.
pub proof fn lemma_float_literal_chars(b: Seq<char>)
    requires
        is_float_literal(b),
    ensures
        b.len() > 0,
        forall|i: int| 0 <= i < b.len() ==> is_number_char(#[trigger] b[i]),
        signs_follow_exponent(b),
{
    let int_len = digit_run(b) as int;
    lemma_digit_run_bound(b);
    let after_int = b.skip(int_len);
    let has_point = begins_with(after_int, '.');
    let frac_len = if has_point {
        digit_run(after_int.skip(1)) as int
    } else {
        0
    };
    if has_point {
        lemma_digit_run_bound(after_int.skip(1));
    }
    let mantissa = if has_point {
        int_len + 1 + frac_len
    } else {
        int_len
    };
    let x = b.skip(mantissa);
    assert(x =~= if has_point {
        after_int.skip(1 + frac_len)
    } else {
        after_int
    });
    let digits_at = if x.len() > 1 && is_sign(x[1]) {
        2int
    } else {
        1int
    };
    if x.len() > 0 {
        lemma_digit_run_bound(x.skip(digits_at));
    }
    assert forall|i: int| 0 <= i < b.len() implies is_number_char(#[trigger] b[i]) && (is_sign(b[i])
        ==> i > 0 && is_exponent_mark(b[i - 1])) by {
        if i < int_len {
        } else if i < mantissa {
            assert(after_int[i - int_len] == b[i]);
            if i > int_len {
                assert(after_int.skip(1)[i - int_len - 1] == b[i]);
            }
        } else {
            assert(x[i - mantissa] == b[i]);
            if i - mantissa >= digits_at {
                assert(x.skip(digits_at)[i - mantissa - digits_at] == b[i]);
            } else if i - mantissa == 1 {
                assert(x[0] == b[i - 1]);
            }
        }
    }
}

/// Reading a written number yields its literal, provided that no number character
/// stands directly behind it.
pub proof fn lemma_number_round_trip(t: Seq<char>, rest: Seq<char>)
    requires
        is_number_lexeme(t),
        rest.len() == 0 || !is_number_char(rest[0]),
    ensures
        parse_number(t + rest) == Ok::<(Seq<char>, Seq<char>), Fault>((t, rest)),
        begins_with(t + rest, '-') || is_digit((t + rest)[0]),
        t.len() > 0,
{
    let s = t + rest;
    let negative = begins_with(t, '-');
    let b = if negative {
        t.skip(1)
    } else {
        t
    };
    assert(s[0] == t[0]);
    let body = if begins_with(s, '-') {
        s.skip(1)
    } else {
        s
    };
    assert(body =~= b + rest);
    lemma_float_literal_chars(b);
    assert forall|i: int| 0 <= i < b.len() implies is_number_char(#[trigger] body[i]) by {
        assert(body[i] == b[i]);
    }
    if b.len() < body.len() {
        assert(body[b.len() as int] == rest[0]);
    }
    lemma_number_run_is(body, b.len() as int);
    assert(body.take(b.len() as int) =~= b);
    assert(s.take(t.len() as int) =~= t);
    assert(s.skip(t.len() as int) =~= rest);
}

/// Nothing that could continue a number stands at the front of `rest`.
pub open spec fn ends_number(rest: Seq<char>) -> bool {
    rest.len() == 0 || !is_number_char(rest[0])
}

/// The characters with which the text of a value can start.
pub open spec fn starts_value(c: char) -> bool {
    c == '"' || c == '-' || is_digit(c) || c == 't' || c == 'f' || c == 'n' || c == '{' || c
        == '['
}

/// Whitespace in front of a value does not change what is read.
pub proof fn lemma_value_ignores_blank(blank: Seq<char>, s: Seq<char>)
    requires
        is_blank(blank),
    ensures
        parse_value(blank + s) == parse_value(s),
{
    lemma_skip_blank_prefix(blank, s);
}

/// A text that starts with a character other than whitespace has no whitespace to skip.
pub proof fn lemma_skip_nothing(s: Seq<char>)
    requires
        s.len() > 0,
        !is_space(s[0]),
    ensures
        skip_spaces(s) == s,
{
}

/// A line break is whitespace.
pub proof fn lemma_line_break_blank(layout: Layout, margin: nat)
    ensures
        is_blank(layout.line_break(margin)),
{
}

/// The text of a well-formed value is not empty and starts as a value does.
pub proof fn lemma_render_starts(j: Json, layout: Layout, margin: nat)
    requires
        j.well_formed(),
    ensures
        render(j, layout, margin).len() > 0,
        starts_value(render(j, layout, margin)[0]),
{
    match j {
        Json::String(s) => {
            assert(quote(s)[0] == '"');
        },
        Json::Number(t) => {},
        Json::Boolean(b) => {},
        Json::Null => {},
        Json::Object(entries) => {
            if entries.len() > 0 {
                let inner = render_members(entries, layout, margin + layout.step());
                assert((seq!['{'] + inner + layout.line_break(margin) + seq!['}'])[0] == '{');
            }
        },
        Json::Array(items) => {
            if items.len() > 0 {
                let inner = render_elements(items, layout, margin + layout.step());
                assert((seq!['['] + inner + layout.line_break(margin) + seq![']'])[0] == '[');
            }
        },
    }
}

/// How a value is read where a string, a number, an object or an array starts.
pub proof fn lemma_value_dispatch(s: Seq<char>)
    requires
        s.len() > 0,
        s[0] == '"' || s[0] == '-' || is_digit(s[0]) || s[0] == '{' || s[0] == '[',
    ensures
        s[0] == '{' ==> parse_value(s) == parse_object(s),
        s[0] == '[' ==> parse_value(s) == parse_array(s),
        s[0] == '"' ==> parse_value(s) == (match parse_string(s) {
            Ok((text, rest)) => Ok::<(Json, Seq<char>), Fault>((Json::String(text), rest)),
            Err(e) => Err::<(Json, Seq<char>), Fault>(e),
        }),
        s[0] == '-' || is_digit(s[0]) ==> parse_value(s) == (match parse_number(s) {
            Ok((lexeme, rest)) => Ok::<(Json, Seq<char>), Fault>((Json::Number(lexeme), rest)),
            Err(e) => Err::<(Json, Seq<char>), Fault>(e),
        }),
{
    lemma_skip_nothing(s);
    lemma_prefix_first(s, word_false());
    lemma_prefix_first(s, word_null());
    lemma_prefix_first(s, word_true());
}

/// Reading a written `true`, `false` or `null`.
pub proof fn lemma_literal_round_trip(j: Json, layout: Layout, margin: nat, rest: Seq<char>)
    requires
        j is Boolean || j is Null,
    ensures
        parse_value(render(j, layout, margin) + rest) == Ok::<(Json, Seq<char>), Fault>((j, rest)),
{
    let s = render(j, layout, margin) + rest;
    assert(s[0] == render(j, layout, margin)[0]);
    lemma_skip_nothing(s);
    lemma_prefix_first(s, word_false());
    lemma_prefix_first(s, word_null());
    lemma_prefix_first(s, word_true());
    match j {
        Json::Boolean(b) => {
            if b {
                assert(s.take(4) =~= word_true());
                assert(s.skip(4) =~= rest);
            } else {
                assert(s.take(5) =~= word_false());
                assert(s.skip(5) =~= rest);
            }
        },
        _ => {
            assert(s.take(4) =~= word_null());
            assert(s.skip(4) =~= rest);
        },
    }
}

/// Reading a written string or number.
pub proof fn lemma_scalar_round_trip(j: Json, layout: Layout, margin: nat, rest: Seq<char>)
    requires
        j is String || j is Number,
        j.well_formed(),
        ends_number(rest),
    ensures
        parse_value(render(j, layout, margin) + rest) == Ok::<(Json, Seq<char>), Fault>((j, rest)),
{
    let s = render(j, layout, margin) + rest;
    match j {
        Json::String(text) => {
            lemma_quote_round_trip(text, rest);
            lemma_value_dispatch(s);
        },
        Json::Number(t) => {
            lemma_number_round_trip(t, rest);
            assert(s[0] == t[0]);
            lemma_value_dispatch(s);
        },
        _ => {},
    }
}

/// Reading a written container without members.
pub proof fn lemma_empty_round_trip(j: Json, layout: Layout, margin: nat, rest: Seq<char>)
    requires
        (j is Object && j->Object_0.len() == 0) || (j is Array && j->Array_0.len() == 0),
    ensures
        parse_value(render(j, layout, margin) + rest) == Ok::<(Json, Seq<char>), Fault>((j, rest)),
{
    let s = render(j, layout, margin) + rest;
    assert(s[0] == render(j, layout, margin)[0]);
    lemma_value_dispatch(s);
    match j {
        Json::Object(entries) => {
            assert(s.skip(1) =~= seq!['}'] + rest);
            lemma_skip_nothing(s.skip(1));
            assert(s.skip(1).skip(1) =~= rest);
            assert(entries =~= Seq::<(Seq<char>, Json)>::empty());
        },
        Json::Array(items) => {
            assert(s.skip(1) =~= seq![']'] + rest);
            lemma_skip_nothing(s.skip(1));
            assert(s.skip(1).skip(1) =~= rest);
            assert(items =~= Seq::<Json>::empty());
        },
        _ => {},
    }
}

/// An object is read as its members are.
pub proof fn lemma_object_from_members(
    entries: Seq<(Seq<char>, Json)>,
    layout: Layout,
    margin: nat,
    rest: Seq<char>,
)
    requires
        entries.len() > 0,
        keys_unique(entries),
        ({
            let inside = render_members(entries, layout, margin + layout.step())
                + layout.line_break(margin) + seq!['}'] + rest;
            &&& parse_members(inside) == Ok::<(Seq<(Seq<char>, Json)>, Seq<char>), Fault>(
                (entries, rest),
            )
            &&& !begins_with(skip_spaces(inside), '}')
        }),
    ensures
        parse_value(render(Json::Object(entries), layout, margin) + rest) == Ok::<
            (Json, Seq<char>),
            Fault,
        >((Json::Object(entries), rest)),
{
    let inside = render_members(entries, layout, margin + layout.step()) + layout.line_break(
        margin,
    ) + seq!['}'] + rest;
    let s = render(Json::Object(entries), layout, margin) + rest;
    assert(s[0] == '{');
    assert(s.skip(1) =~= inside);
    lemma_value_dispatch(s);
    lemma_collect_unique(entries);
}

/// An array is read as its elements are.
pub proof fn lemma_array_from_elements(
    items: Seq<Json>,
    layout: Layout,
    margin: nat,
    rest: Seq<char>,
)
    requires
        items.len() > 0,
        ({
            let inside = render_elements(items, layout, margin + layout.step())
                + layout.line_break(margin) + seq![']'] + rest;
            &&& parse_elements(inside) == Ok::<(Seq<Json>, Seq<char>), Fault>((items, rest))
            &&& !begins_with(skip_spaces(inside), ']')
        }),
    ensures
        parse_value(render(Json::Array(items), layout, margin) + rest) == Ok::<
            (Json, Seq<char>),
            Fault,
        >((Json::Array(items), rest)),
{
    let inside = render_elements(items, layout, margin + layout.step()) + layout.line_break(
        margin,
    ) + seq![']'] + rest;
    let s = render(Json::Array(items), layout, margin) + rest;
    assert(s[0] == '[');
    assert(s.skip(1) =~= inside);
    lemma_value_dispatch(s);
}

/// Reading the text of a well-formed value yields the value and leaves what stands
/// behind it, provided that no number character stands directly behind it.
pub proof fn lemma_value_round_trip(j: Json, layout: Layout, margin: nat, rest: Seq<char>)
    requires
        j.well_formed(),
        ends_number(rest),
    ensures
        parse_value(render(j, layout, margin) + rest) == Ok::<(Json, Seq<char>), Fault>((j, rest)),
    decreases j,
{
    match j {
        Json::String(text) => {
            lemma_scalar_round_trip(j, layout, margin, rest);
        },
        Json::Number(t) => {
            lemma_scalar_round_trip(j, layout, margin, rest);
        },
        Json::Boolean(b) => {
            lemma_literal_round_trip(j, layout, margin, rest);
        },
        Json::Null => {
            lemma_literal_round_trip(j, layout, margin, rest);
        },
        Json::Object(entries) => {
            if entries.len() == 0 {
                lemma_empty_round_trip(j, layout, margin, rest);
            } else {
                lemma_line_break_blank(layout, margin);
                lemma_members_round_trip(
                    entries,
                    layout,
                    margin + layout.step(),
                    layout.line_break(margin),
                    rest,
                );
                lemma_object_from_members(entries, layout, margin, rest);
            }
        },
        Json::Array(items) => {
            if items.len() == 0 {
                lemma_empty_round_trip(j, layout, margin, rest);
            } else {
                lemma_line_break_blank(layout, margin);
                lemma_elements_round_trip(
                    items,
                    layout,
                    margin + layout.step(),
                    layout.line_break(margin),
                    rest,
                );
                lemma_array_from_elements(items, layout, margin, rest);
            }
        },
    }
}

/// A written key and the colon behind it are read up to where the value starts.
pub proof fn lemma_member_front(
    lead: Seq<char>,
    key: Seq<char>,
    layout: Layout,
    from_value: Seq<char>,
)
    requires
        is_blank(lead),
    ensures
        ({
            let from_colon = layout.key_separator() + from_value;
            let s = lead + (quote(key) + from_colon);
            &&& parse_string(skip_spaces(s)) == Ok::<(Seq<char>, Seq<char>), Fault>(
                (key, from_colon),
            )
            &&& !begins_with(skip_spaces(s), '}')
            &&& begins_with(skip_spaces(from_colon), ':')
            &&& parse_value(skip_spaces(from_colon).skip(1)) == parse_value(from_value)
            &&& from_value.len() < s.len()
        }),
{
    let from_colon = layout.key_separator() + from_value;
    let from_key = quote(key) + from_colon;
    lemma_skip_blank_prefix(lead, from_key);
    lemma_quote_round_trip(key, from_colon);
    lemma_skip_nothing(from_key);
    assert(from_colon[0] == ':');
    lemma_skip_nothing(from_colon);
    let gap: Seq<char> = match layout {
        Layout::Compact => Seq::empty(),
        Layout::Indented(_) => seq![' '],
    };
    assert(from_colon.skip(1) =~= gap + from_value);
    lemma_value_ignores_blank(gap, from_value);
}

/// How members are read once the first key and value are known.
pub proof fn lemma_members_unfold(
    s: Seq<char>,
    key: Seq<char>,
    after_key: Seq<char>,
    value: Json,
    after_value: Seq<char>,
)
    requires
        parse_string(skip_spaces(s)) == Ok::<(Seq<char>, Seq<char>), Fault>((key, after_key)),
        begins_with(skip_spaces(after_key), ':'),
        parse_value(skip_spaces(after_key).skip(1)) == Ok::<(Json, Seq<char>), Fault>(
            (value, after_value),
        ),
    ensures
        begins_with(skip_spaces(after_value), ',') && skip_spaces(after_value).len() <= s.len()
            ==> parse_members(s) == with_prefix(
            seq![(key, value)],
            parse_members(skip_spaces(after_value).skip(1)),
        ),
        !begins_with(skip_spaces(after_value), ',') && begins_with(skip_spaces(after_value), '}')
            ==> parse_members(s) == Ok::<(Seq<(Seq<char>, Json)>, Seq<char>), Fault>(
            (seq![(key, value)], skip_spaces(after_value).skip(1)),
        ),
{
}

/// How elements are read once the first value is known.
pub proof fn lemma_elements_unfold(s: Seq<char>, value: Json, after_value: Seq<char>)
    requires
        parse_value(s) == Ok::<(Json, Seq<char>), Fault>((value, after_value)),
    ensures
        begins_with(skip_spaces(after_value), ',') && skip_spaces(after_value).len() <= s.len()
            ==> parse_elements(s) == with_prefix(
            seq![value],
            parse_elements(skip_spaces(after_value).skip(1)),
        ),
        !begins_with(skip_spaces(after_value), ',') && begins_with(skip_spaces(after_value), ']')
            ==> parse_elements(s) == Ok::<(Seq<Json>, Seq<char>), Fault>(
            (seq![value], skip_spaces(after_value).skip(1)),
        ),
{
}

/// What stands behind the last member of a container: whitespace, then the closing
/// bracket.
pub proof fn lemma_container_end(closing: Seq<char>, bracket: char, rest: Seq<char>)
    requires
        is_blank(closing),
        bracket == '}' || bracket == ']',
    ensures
        ({
            let end = closing + (seq![bracket] + rest);
            &&& skip_spaces(end) == seq![bracket] + rest
            &&& skip_spaces(end).skip(1) == rest
            &&& begins_with(skip_spaces(end), bracket)
            &&& !begins_with(skip_spaces(end), ',')
            &&& ends_number(end)
            &&& end.len() > 0
        }),
{
    let end = closing + (seq![bracket] + rest);
    lemma_skip_blank_prefix(closing, seq![bracket] + rest);
    lemma_skip_nothing(seq![bracket] + rest);
    assert((seq![bracket] + rest).skip(1) =~= rest);
    if closing.len() > 0 {
        assert(end[0] == closing[0]);
    } else {
        assert(end[0] == bracket);
    }
}

/// What stands behind a member that others follow: a comma, then the others.
pub proof fn lemma_container_more(later: Seq<char>)
    ensures
        ({
            let behind = seq![','] + later;
            &&& skip_spaces(behind) == behind
            &&& begins_with(behind, ',')
            &&& behind.skip(1) == later
            &&& ends_number(behind)
        }),
{
    let behind = seq![','] + later;
    lemma_skip_nothing(behind);
    assert(behind.skip(1) =~= later);
}

/// Reading the written members of an object, up to its closing brace, yields the members.
pub proof fn lemma_members_round_trip(
    entries: Seq<(Seq<char>, Json)>,
    layout: Layout,
    margin: nat,
    closing: Seq<char>,
    rest: Seq<char>,
)
    requires
        entries.len() > 0,
        forall|i: int| 0 <= i < entries.len() ==> (#[trigger] entries[i]).1.well_formed(),
        is_blank(closing),
    ensures
        parse_members(render_members(entries, layout, margin) + closing + seq!['}'] + rest) == Ok::<
            (Seq<(Seq<char>, Json)>, Seq<char>),
            Fault,
        >((entries, rest)),
        !begins_with(
            skip_spaces(render_members(entries, layout, margin) + closing + seq!['}'] + rest),
            '}',
        ),
    decreases entries,
{
    let key = entries[0].0;
    let value = entries[0].1;
    let s = render_members(entries, layout, margin) + closing + seq!['}'] + rest;
    let lead = layout.line_break(margin);
    let later = entries.skip(1);
    let later_text = render_members(later, layout, margin) + closing + seq!['}'] + rest;
    let behind: Seq<char> = if entries.len() > 1 {
        seq![','] + later_text
    } else {
        closing + (seq!['}'] + rest)
    };
    let from_value = render(value, layout, margin) + behind;
    let from_colon = layout.key_separator() + from_value;
    assert(s =~= lead + (quote(key) + from_colon));
    lemma_line_break_blank(layout, margin);
    lemma_member_front(lead, key, layout, from_value);
    lemma_container_end(closing, '}', rest);
    lemma_container_more(later_text);
    assert(decreases_to!(entries => entries[0]));
    assert(decreases_to!(entries[0] => entries[0].1));
    lemma_value_round_trip(value, layout, margin, behind);
    lemma_members_unfold(s, key, from_colon, value, behind);
    if entries.len() > 1 {
        assert forall|i: int| 0 <= i < later.len() implies (#[trigger] later[i]).1.well_formed() by {
            assert(later[i] == entries[i + 1]);
        }
        lemma_members_round_trip(later, layout, margin, closing, rest);
        assert(seq![(key, value)] + later =~= entries);
    } else {
        assert(seq![(key, value)] =~= entries);
    }
}

/// Reading the written elements of an array, up to its closing bracket, yields the
/// elements.
pub proof fn lemma_elements_round_trip(
    items: Seq<Json>,
    layout: Layout,
    margin: nat,
    closing: Seq<char>,
    rest: Seq<char>,
)
    requires
        items.len() > 0,
        forall|i: int| 0 <= i < items.len() ==> (#[trigger] items[i]).well_formed(),
        is_blank(closing),
    ensures
        parse_elements(render_elements(items, layout, margin) + closing + seq![']'] + rest) == Ok::<
            (Seq<Json>, Seq<char>),
            Fault,
        >((items, rest)),
        !begins_with(
            skip_spaces(render_elements(items, layout, margin) + closing + seq![']'] + rest),
            ']',
        ),
    decreases items,
{
    let value = items[0];
    let s = render_elements(items, layout, margin) + closing + seq![']'] + rest;
    let lead = layout.line_break(margin);
    let later = items.skip(1);
    let later_text = render_elements(later, layout, margin) + closing + seq![']'] + rest;
    let behind: Seq<char> = if items.len() > 1 {
        seq![','] + later_text
    } else {
        closing + (seq![']'] + rest)
    };
    let from_value = render(value, layout, margin) + behind;
    assert(s =~= lead + from_value);
    lemma_line_break_blank(layout, margin);
    lemma_skip_blank_prefix(lead, from_value);
    lemma_value_ignores_blank(lead, from_value);
    lemma_render_starts(value, layout, margin);
    assert(from_value[0] == render(value, layout, margin)[0]);
    lemma_skip_nothing(from_value);
    lemma_container_end(closing, ']', rest);
    lemma_container_more(later_text);
    lemma_value_round_trip(value, layout, margin, behind);
    lemma_elements_unfold(s, value, behind);
    if items.len() > 1 {
        assert forall|i: int| 0 <= i < later.len() implies (#[trigger] later[i]).well_formed() by {
            assert(later[i] == items[i + 1]);
        }
        lemma_elements_round_trip(later, layout, margin, closing, rest);
        assert(seq![value] + later =~= items);
    } else {
        assert(seq![value] =~= items);
    }
}

/// Rendering a well-formed value, in any layout, and parsing the text yields the value.
pub proof fn lemma_render_then_parse(j: Json, layout: Layout)
    requires
        j.well_formed(),
    ensures
        parse_text(render(j, layout, 0)) == Ok::<Json, Fault>(j),
{
    let written = render(j, layout, 0);
    lemma_value_round_trip(j, layout, 0, Seq::empty());
    assert(written + Seq::<char>::empty() =~= written);
}

/// Round trip: whatever a text parses to, rendering it in any layout and parsing the
/// rendered text yields the same value again.
pub proof fn lemma_round_trip(text: Seq<char>, layout: Layout)
    requires
        parse_text(text) is Ok,
    ensures
        parse_text(render(parse_text(text)->Ok_0, layout, 0)) == parse_text(text),
{
    lemma_parse_well_formed(text);
    lemma_render_then_parse(parse_text(text)->Ok_0, layout);
}

/// Rendering is stable: the text of a parsed value parses to a value whose text is the
/// same.
pub proof fn lemma_format_stable(text: Seq<char>, layout: Layout)
    requires
        parse_text(text) is Ok,
    ensures
        ({
            let once = render(parse_text(text)->Ok_0, layout, 0);
            parse_text(once) is Ok && render(parse_text(once)->Ok_0, layout, 0) == once
        }),
{
    lemma_round_trip(text, layout);
}

/// Whitespace in front of a text does not change what it parses to.
pub proof fn lemma_leading_whitespace(blank: Seq<char>, text: Seq<char>)
    requires
        is_blank(blank),
    ensures
        parse_text(blank + text) == parse_text(text),
{
    lemma_value_ignores_blank(blank, text);
}

} // verus!
