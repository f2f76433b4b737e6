//! Rendering a value tree as text, compact or indented.
use crate::grammar::{word_false, word_null, word_true};
use crate::text::{push_seq, spaces};
use crate::value::{lemma_items_view, Json, Value};
use vstd::prelude::*;
use vstd::string::StringExecFns;

verus! {

/// How containers are laid out.
pub enum Layout {
    /// No whitespace at all.
    Compact,
    /// One member per line, each nesting level indented by this many spaces more than
    /// the one around it, and a space behind the colon of a key.
    Indented(nat),
}

impl Layout {
    /// What separates a container's opening bracket, members and closing bracket, for
    /// content that stands `margin` spaces in.
    pub open spec fn line_break(self, margin: nat) -> Seq<char> {
        match self {
            Layout::Compact => Seq::empty(),
            Layout::Indented(_) => seq!['\n'] + spaces(margin),
        }
    }

    /// How much deeper the members of a container stand than the container.
    pub open spec fn step(self) -> nat {
        match self {
            Layout::Compact => 0,
            Layout::Indented(n) => n,
        }
    }

    /// What stands between a key and its value.
    pub open spec fn key_separator(self) -> Seq<char> {
        match self {
            Layout::Compact => seq![':'],
            Layout::Indented(_) => seq![':', ' '],
        }
    }
}

/// The lower-case hexadecimal digit for `d`.
pub open spec fn hex_char(d: int) -> char {
    if d < 10 {
        ('0' as int + d) as char
    } else {
        ('a' as int + d - 10) as char
    }
}

/// How one character of a string is written: the quote and the backslash behind a
/// backslash, control characters as their one-letter escape where there is one and as
/// `\u00XX` otherwise, every other character as itself.
pub open spec fn escape_char(c: char) -> Seq<char> {
    if c == '"' {
        seq!['\\', '"']
    } else if c == '\\' {
        seq!['\\', '\\']
    } else if c == '\u{8}' {
        seq!['\\', 'b']
    } else if c == '\u{c}' {
        seq!['\\', 'f']
    } else if c == '\n' {
        seq!['\\', 'n']
    } else if c == '\r' {
        seq!['\\', 'r']
    } else if c == '\t' {
        seq!['\\', 't']
    } else if (c as int) < 0x20 {
        seq!['\\', 'u', '0', '0', hex_char(c as int / 16), hex_char(c as int % 16)]
    } else {
        seq![c]
    }
}

/// The characters of `s`, each written by [`escape_char`].
pub open spec fn escape_text(s: Seq<char>) -> Seq<char>
    decreases s.len(),
{
    if s.len() == 0 {
        Seq::empty()
    } else {
        escape_char(s[0]) + escape_text(s.skip(1))
    }
}

/// `s` as a string literal.
pub open spec fn quote(s: Seq<char>) -> Seq<char> {
    seq!['"'] + escape_text(s) + seq!['"']
}

/// The text of `j`, for a value that stands `margin` spaces in.
pub open spec fn render(j: Json, layout: Layout, margin: nat) -> Seq<char>
    decreases j,
{
    match j {
        Json::String(s) => quote(s),
        Json::Number(t) => t,
        Json::Boolean(b) => if b {
            word_true()
        } else {
            word_false()
        },
        Json::Null => word_null(),
        Json::Object(entries) => if entries.len() == 0 {
            seq!['{', '}']
        } else {
            seq!['{'] + render_members(entries, layout, margin + layout.step())
                + layout.line_break(margin) + seq!['}']
        },
        Json::Array(items) => if items.len() == 0 {
            seq!['[', ']']
        } else {
            seq!['['] + render_elements(items, layout, margin + layout.step())
                + layout.line_break(margin) + seq![']']
        },
    }
}

/// The members of an object, each behind a line break, with commas between them.
pub open spec fn render_members(entries: Seq<(Seq<char>, Json)>, layout: Layout, margin: nat) -> Seq<
    char,
>
    decreases entries,
{
    if entries.len() == 0 {
        Seq::empty()
    } else {
        layout.line_break(margin) + quote(entries[0].0) + layout.key_separator() + render(
            entries[0].1,
            layout,
            margin,
        ) + (if entries.len() > 1 {
            seq![','] + render_members(entries.skip(1), layout, margin)
        } else {
            Seq::empty()
        })
    }
}

/// The elements of an array, each behind a line break, with commas between them.
pub open spec fn render_elements(items: Seq<Json>, layout: Layout, margin: nat) -> Seq<char>
    decreases items,
{
    if items.len() == 0 {
        Seq::empty()
    } else {
        layout.line_break(margin) + render(items[0], layout, margin) + (if items.len() > 1 {
            seq![','] + render_elements(items.skip(1), layout, margin)
        } else {
            Seq::empty()
        })
    }
}

/// The layout that an optional indentation width selects.
pub open spec fn layout_of(indent: Option<usize>) -> Layout {
    match indent {
        Some(n) => Layout::Indented(n as nat),
        None => Layout::Compact,
    }
}

/// Escaping a text with one more character behind it.
pub proof fn lemma_escape_push(s: Seq<char>, c: char)
    ensures
        escape_text(s.push(c)) == escape_text(s) + escape_char(c),
    decreases s.len(),
{
    if s.len() == 0 {
        assert(s.push(c).skip(1) =~= Seq::<char>::empty());
        assert(escape_text(s.push(c).skip(1)) =~= Seq::<char>::empty());
        assert(s.push(c)[0] == c);
        assert(escape_text(s.push(c)) =~= escape_char(c) + Seq::<char>::empty());
        assert(escape_text(s) + escape_char(c) =~= escape_char(c));
    } else {
        assert(s.push(c).skip(1) =~= s.skip(1).push(c));
        lemma_escape_push(s.skip(1), c);
        assert(escape_char(s[0]) + (escape_text(s.skip(1)) + escape_char(c)) =~= (escape_char(s[0])
            + escape_text(s.skip(1))) + escape_char(c));
    }
}

fn hex_of(d: u32) -> (r: char)
    requires
        d < 16,
    ensures
        r == hex_char(d as int),
{
    if d < 10 {
        (('0' as u8) + (d as u8)) as char
    } else {
        (('a' as u8) + (d as u8 - 10)) as char
    }
}

/// Appends one character of a string, escaped.
fn write_char(out: &mut String, c: char)
    ensures
        final(out)@ == old(out)@ + escape_char(c),
{
    let ghost before = out@;
    if c == '"' {
        out.push('\\');
        out.push('"');
    } else if c == '\\' {
        out.push('\\');
        out.push('\\');
    } else if c == '\x08' {
        out.push('\\');
        out.push('b');
    } else if c == '\x0c' {
        out.push('\\');
        out.push('f');
    } else if c == '\n' {
        out.push('\\');
        out.push('n');
    } else if c == '\r' {
        out.push('\\');
        out.push('r');
    } else if c == '\t' {
        out.push('\\');
        out.push('t');
    } else if (c as u32) < 0x20 {
        let code: u32 = c as u32;
        out.push('\\');
        out.push('u');
        out.push('0');
        out.push('0');
        out.push(hex_of(code / 16));
        out.push(hex_of(code % 16));
    } else {
        out.push(c);
    }
    proof {
        assert(out@ =~= before + escape_char(c));
    }
}

/// Appends `s` as a string literal.
fn write_quoted(out: &mut String, s: &str)
    ensures
        final(out)@ == old(out)@ + quote(s@),
{
    let ghost before = out@;
    out.push('"');
    for c in it: s.chars()
        invariant
            it.seq() == s@,
            out@ == before + seq!['"'] + escape_text(s@.take(it.index() as int)),
    {
        proof {
            lemma_escape_push(s@.take(it.index() as int), c);
            assert(s@.take(it.index() + 1) =~= s@.take(it.index() as int).push(c));
        }
        write_char(out, c);
        proof {
            assert(out@ =~= before + seq!['"'] + escape_text(s@.take(it.index() + 1)));
        }
    }
    out.push('"');
    proof {
        assert(s@.take(s@.len() as int) =~= s@);
        assert(out@ =~= before + quote(s@));
    }
}

/// The indentation one level deeper than `pad`.
fn deeper(pad: &Vec<char>, indent: Option<usize>) -> (r: Vec<char>)
    requires
        pad@ == spaces(pad@.len()),
    ensures
        r@ == spaces(pad@.len() + layout_of(indent).step()),
{
    let mut inner: Vec<char> = Vec::new();
    let mut i: usize = 0;
    while i < pad.len()
        invariant
            i <= pad.len(),
            inner@ == spaces(i as nat),
        decreases pad.len() - i,
    {
        inner.push(' ');
        i += 1;
        proof {
            assert(inner@ =~= spaces(i as nat));
        }
    }
    match indent {
        Some(n) => {
            let mut k: usize = 0;
            while k < n
                invariant
                    k <= n,
                    inner@ == spaces(pad@.len() + k as nat),
                decreases n - k,
            {
                inner.push(' ');
                k += 1;
                proof {
                    assert(inner@ =~= spaces(pad@.len() + k as nat));
                }
            }
        },
        None => {},
    }
    inner
}

/// Appends the break in front of content that stands `pad` in.
fn write_break(out: &mut String, indent: Option<usize>, pad: &Vec<char>)
    requires
        pad@ == spaces(pad@.len()),
    ensures
        final(out)@ == old(out)@ + layout_of(indent).line_break(pad@.len()),
{
    let ghost before = out@;
    match indent {
        Some(_) => {
            out.push('\n');
            push_seq(out, pad);
            proof {
                assert(out@ =~= before + (seq!['\n'] + spaces(pad@.len())));
            }
        },
        None => {
            proof {
                assert(out@ =~= before + Seq::<char>::empty());
            }
        },
    }
}

/// Appends what stands between a key and its value.
fn write_separator(out: &mut String, indent: Option<usize>)
    ensures
        final(out)@ == old(out)@ + layout_of(indent).key_separator(),
{
    let ghost before = out@;
    out.push(':');
    match indent {
        Some(_) => {
            out.push(' ');
        },
        None => {},
    }
    proof {
        assert(out@ =~= before + layout_of(indent).key_separator());
    }
}

/// The members from position `i` on: the member at `i`, a comma if more follow, and
/// the rest.
pub proof fn lemma_render_members_step(
    entries: Seq<(Seq<char>, Json)>,
    i: int,
    layout: Layout,
    margin: nat,
)
    requires
        0 <= i < entries.len(),
    ensures
        render_members(entries.skip(i), layout, margin) == layout.line_break(margin) + quote(
            entries[i].0,
        ) + layout.key_separator() + render(entries[i].1, layout, margin) + (if i + 1
            < entries.len() {
            seq![',']
        } else {
            Seq::empty()
        }) + render_members(entries.skip(i + 1), layout, margin),
{
    let here = entries.skip(i);
    assert(here[0] == entries[i]);
    assert(here.skip(1) =~= entries.skip(i + 1));
    let head = layout.line_break(margin) + quote(entries[i].0) + layout.key_separator() + render(
        entries[i].1,
        layout,
        margin,
    );
    let rest = render_members(entries.skip(i + 1), layout, margin);
    if i + 1 < entries.len() {
        assert(head + (seq![','] + rest) =~= head + seq![','] + rest);
    } else {
        assert(rest =~= Seq::<char>::empty());
        assert(head + Seq::<char>::empty() =~= head + Seq::<char>::empty() + rest);
    }
}

/// The elements from position `i` on: the element at `i`, a comma if more follow, and
/// the rest.
pub proof fn lemma_render_elements_step(items: Seq<Json>, i: int, layout: Layout, margin: nat)
    requires
        0 <= i < items.len(),
    ensures
        render_elements(items.skip(i), layout, margin) == layout.line_break(margin) + render(
            items[i],
            layout,
            margin,
        ) + (if i + 1 < items.len() {
            seq![',']
        } else {
            Seq::empty()
        }) + render_elements(items.skip(i + 1), layout, margin),
{
    let here = items.skip(i);
    assert(here[0] == items[i]);
    assert(here.skip(1) =~= items.skip(i + 1));
    let head = layout.line_break(margin) + render(items[i], layout, margin);
    let rest = render_elements(items.skip(i + 1), layout, margin);
    if i + 1 < items.len() {
        assert(head + (seq![','] + rest) =~= head + seq![','] + rest);
    } else {
        assert(rest =~= Seq::<char>::empty());
        assert(head + Seq::<char>::empty() =~= head + Seq::<char>::empty() + rest);
    }
}

/// Appends the text of `value`, for a value that stands `pad` in.
fn write_value(out: &mut String, value: &Value, indent: Option<usize>, pad: &Vec<char>)
    requires
        pad@ == spaces(pad@.len()),
    ensures
        final(out)@ == old(out)@ + render(value@, layout_of(indent), pad@.len()),
    decreases value@,
{
    let ghost before = out@;
    let ghost layout = layout_of(indent);
    let ghost margin = pad@.len();
    let ghost deep = margin + layout.step();
    match value {
        Value::String(s) => {
            write_quoted(out, s.as_str());
        },
        Value::Number(n) => {
            out.append(n.literal());
        },
        Value::Boolean(b) => {
            if *b {
                out.push('t');
                out.push('r');
                out.push('u');
                out.push('e');
                proof {
                    assert(out@ =~= before + word_true());
                }
            } else {
                out.push('f');
                out.push('a');
                out.push('l');
                out.push('s');
                out.push('e');
                proof {
                    assert(out@ =~= before + word_false());
                }
            }
        },
        Value::Null => {
            out.push('n');
            out.push('u');
            out.push('l');
            out.push('l');
            proof {
                assert(out@ =~= before + word_null());
            }
        },
        Value::Object(map) => {
            let n: usize = map.len();
            let ghost entries = map@;
            out.push('{');
            if n == 0 {
                out.push('}');
                proof {
                    assert(out@ =~= before + seq!['{', '}']);
                }
            } else {
                let inner: Vec<char> = deeper(pad, indent);
                let mut i: usize = 0;
                proof {
                    assert(entries.skip(0) =~= entries);
                }
                while i < n
                    invariant
                        i <= n,
                        n == entries.len(),
                        entries == map@,
                        value@ == Json::Object(entries),
                        layout == layout_of(indent),
                        inner@ == spaces(deep),
                        inner@.len() == deep,
                        out@ + render_members(entries.skip(i as int), layout, deep) == before
                            + seq!['{'] + render_members(entries, layout, deep),
                    decreases n - i,
                {
                    let ghost start = out@;
                    match map.get_index(i) {
                        Some((key, member)) => {
                            proof {
                                lemma_render_members_step(entries, i as int, layout, deep);
                                assert(decreases_to!(value@ => value@->Object_0));
                                assert(decreases_to!(entries => entries[i as int]));
                                assert(decreases_to!(entries[i as int] => entries[i as int].1));
                            }
                            write_break(out, indent, &inner);
                            write_quoted(out, key.as_str());
                            write_separator(out, indent);
                            write_value(out, member, indent, &inner);
                            if i + 1 < n {
                                out.push(',');
                            }
                            proof {
                                let head = layout.line_break(deep) + quote(entries[i as int].0)
                                    + layout.key_separator() + render(
                                    entries[i as int].1,
                                    layout,
                                    deep,
                                );
                                let comma: Seq<char> = if i + 1 < n {
                                    seq![',']
                                } else {
                                    Seq::empty()
                                };
                                let rest = render_members(entries.skip(i + 1), layout, deep);
                                assert(out@ =~= start + (head + comma));
                                assert(start + (head + comma) + rest =~= start + (head + comma
                                    + rest));
                            }
                        },
                        None => {
                            proof {
                                assert(false);
                            }
                        },
                    }
                    i += 1;
                }
                let ghost filled = out@;
                write_break(out, indent, pad);
                out.push('}');
                proof {
                    assert(entries.skip(n as int) =~= Seq::<(Seq<char>, Json)>::empty());
                    let body = render_members(entries, layout, deep);
                    assert(filled =~= before + seq!['{'] + body);
                    assert(out@ =~= before + (seq!['{'] + body + layout.line_break(margin)
                        + seq!['}']));
                }
            }
        },
        Value::Array(items) => {
            let n: usize = items.len();
            let ghost models = crate::value::items_view(items@);
            proof {
                lemma_items_view(items@);
            }
            out.push('[');
            if n == 0 {
                out.push(']');
                proof {
                    assert(out@ =~= before + seq!['[', ']']);
                }
            } else {
                let inner: Vec<char> = deeper(pad, indent);
                let mut i: usize = 0;
                proof {
                    assert(models.skip(0) =~= models);
                }
                while i < n
                    invariant
                        i <= n,
                        n == items.len(),
                        n == models.len(),
                        models == crate::value::items_view(items@),
                        forall|k: int| 0 <= k < n ==> #[trigger] models[k] == items@[k]@,
                        value@ == Json::Array(models),
                        layout == layout_of(indent),
                        inner@ == spaces(deep),
                        inner@.len() == deep,
                        out@ + render_elements(models.skip(i as int), layout, deep) == before
                            + seq!['['] + render_elements(models, layout, deep),
                    decreases n - i,
                {
                    let ghost start = out@;
                    proof {
                        lemma_render_elements_step(models, i as int, layout, deep);
                        assert(models[i as int] == items@[i as int]@);
                        assert(decreases_to!(value@ => value@->Array_0));
                        assert(decreases_to!(models => models[i as int]));
                    }
                    write_break(out, indent, &inner);
                    write_value(out, &items[i], indent, &inner);
                    if i + 1 < n {
                        out.push(',');
                    }
                    proof {
                        let head = layout.line_break(deep) + render(models[i as int], layout, deep);
                        let comma: Seq<char> = if i + 1 < n {
                            seq![',']
                        } else {
                            Seq::empty()
                        };
                        let rest = render_elements(models.skip(i + 1), layout, deep);
                        assert(out@ =~= start + (head + comma));
                        assert(start + (head + comma) + rest =~= start + (head + comma + rest));
                    }
                    i += 1;
                }
                let ghost filled = out@;
                write_break(out, indent, pad);
                out.push(']');
                proof {
                    assert(models.skip(n as int) =~= Seq::<Json>::empty());
                    let body = render_elements(models, layout, deep);
                    assert(filled =~= before + seq!['['] + body);
                    assert(out@ =~= before + (seq!['['] + body + layout.line_break(margin)
                        + seq![']']));
                }
            }
        },
    }
}

/// The text of `value` with one member per line, each nesting level indented by `indent`
/// spaces.
pub fn format(value: &Value, indent: usize) -> (r: String)
    ensures
        r@ == render(value@, Layout::Indented(indent as nat), 0),
{
    let mut out: String = String::new();
    let pad: Vec<char> = Vec::new();
    proof {
        assert(pad@ =~= spaces(0));
    }
    write_value(&mut out, value, Some(indent), &pad);
    proof {
        assert(Seq::<char>::empty() + render(value@, Layout::Indented(indent as nat), 0) =~= render(
            value@,
            Layout::Indented(indent as nat),
            0,
        ));
    }
    out
}

/// The text of `value` without any whitespace.
pub fn compact(value: &Value) -> (r: String)
    ensures
        r@ == render(value@, Layout::Compact, 0),
{
    let mut out: String = String::new();
    let pad: Vec<char> = Vec::new();
    proof {
        assert(pad@ =~= spaces(0));
    }
    write_value(&mut out, value, None, &pad);
    proof {
        assert(Seq::<char>::empty() + render(value@, Layout::Compact, 0) =~= render(
            value@,
            Layout::Compact,
            0,
        ));
    }
    out
}

} // verus!
