//! Characters and character buffers: the primitives the scanner and the renderer share.
use vstd::prelude::*;

verus! {

/// `String::push` appends one character: the string's characters afterwards are those
/// before, followed by `ch`.
pub assume_specification[ std::string::String::push ](s: &mut std::string::String, ch: char)
    ensures
        final(s)@ == old(s)@.push(ch),
;

/// `char::from_u32` yields the character with the given code exactly when the code is a
/// Unicode scalar value: at most 0x10FFFF and outside the surrogate range 0xD800..=0xDFFF.
pub assume_specification[ char::from_u32 ](code: u32) -> (r: Option<char>)
    ensures
        r == (if is_scalar(code as int) {
            Some(code as char)
        } else {
            None::<char>
        }),
;

/// Whether `code` is a Unicode scalar value.
pub open spec fn is_scalar(code: int) -> bool {
    0 <= code <= 0xD7FF || 0xE000 <= code <= 0x10FFFF
}

/// The four JSON whitespace characters: space, tab, line feed, carriage return.
pub open spec fn is_space(c: char) -> bool {
    c == ' ' || c == '\t' || c == '\n' || c == '\r'
}

/// Whether every character of `s` is whitespace.
pub open spec fn is_blank(s: Seq<char>) -> bool {
    forall|i: int| 0 <= i < s.len() ==> is_space(#[trigger] s[i])
}

/// `s` without its maximal leading run of whitespace.
pub open spec fn skip_spaces(s: Seq<char>) -> Seq<char>
    decreases s.len(),
{
    if s.len() > 0 && is_space(s[0]) {
        skip_spaces(s.skip(1))
    } else {
        s
    }
}

/// Whether `s` is non-empty and begins with `c`.
pub open spec fn begins_with(s: Seq<char>, c: char) -> bool {
    s.len() > 0 && s[0] == c
}

pub open spec fn is_digit(c: char) -> bool {
    '0' <= c <= '9'
}

/// `n` spaces.
pub open spec fn spaces(n: nat) -> Seq<char> {
    Seq::new(n, |i: int| ' ')
}

pub fn is_whitespace(c: char) -> (r: bool)
    ensures
        r == is_space(c),
{
    c == '\x20' || c == '\x09' || c == '\x0a' || c == '\x0d'
}

pub fn is_ascii_digit(c: char) -> (r: bool)
    ensures
        r == is_digit(c),
{
    '0' <= c && c <= '9'
}

/// Skipping whitespace yields a suffix of the input that does not start with whitespace.
pub proof fn lemma_skip_spaces(s: Seq<char>)
    ensures
        skip_spaces(s).len() <= s.len(),
        skip_spaces(s) == s.skip(s.len() - skip_spaces(s).len()),
        is_blank(s.take(s.len() - skip_spaces(s).len())),
        skip_spaces(s).len() > 0 ==> !is_space(skip_spaces(s)[0]),
    decreases s.len(),
{
    if s.len() > 0 && is_space(s[0]) {
        let t = s.skip(1);
        lemma_skip_spaces(t);
        let k = t.len() - skip_spaces(t).len();
        assert(t.skip(k) =~= s.skip(k + 1));
        assert forall|i: int| 0 <= i < k + 1 implies is_space(#[trigger] s.take(k + 1)[i]) by {
            if i > 0 {
                assert(s.take(k + 1)[i] == t.take(k)[i - 1]);
            }
        }
    } else {
        assert(s.skip(0) =~= s);
    }
}

/// Leading whitespace in front of a text that starts with a non-space character is skipped
/// exactly.
pub proof fn lemma_skip_blank_prefix(blank: Seq<char>, s: Seq<char>)
    requires
        is_blank(blank),
    ensures
        skip_spaces(blank + s) == skip_spaces(s),
    decreases blank.len(),
{
    if blank.len() > 0 {
        assert((blank + s)[0] == blank[0]);
        assert((blank + s).skip(1) =~= blank.skip(1) + s);
        assert forall|i: int| 0 <= i < blank.skip(1).len() implies is_space(
            #[trigger] blank.skip(1)[i],
        ) by {
            assert(blank.skip(1)[i] == blank[i + 1]);
        }
        lemma_skip_blank_prefix(blank.skip(1), s);
    } else {
        assert(blank + s =~= s);
    }
}

/// How the text behind a cursor relates to the text behind a later one.
pub proof fn lemma_skip_at(s: Seq<char>, at: int, n: int)
    requires
        0 <= at,
        0 <= n,
        at + n <= s.len(),
    ensures
        s.skip(at).len() == s.len() - at,
        s.skip(at).skip(n) == s.skip(at + n),
        s.skip(at).take(n) == s.subrange(at, at + n),
        forall|i: int| 0 <= i < s.len() - at ==> #[trigger] s.skip(at)[i] == s[at + i],
{
    assert(s.skip(at).skip(n) =~= s.skip(at + n));
    assert(s.skip(at).take(n) =~= s.subrange(at, at + n));
}

/// Advances the cursor `pos` over a maximal run of whitespace in `input`.
pub fn eat_whitespace(input: &Vec<char>, pos: usize) -> (r: usize)
    requires
        pos <= input.len(),
    ensures
        pos <= r <= input.len(),
        input@.skip(r as int) == skip_spaces(input@.skip(pos as int)),
{
    let mut at: usize = pos;
    while at < input.len() && is_whitespace(input[at])
        invariant
            pos <= at <= input.len(),
            skip_spaces(input@.skip(at as int)) == skip_spaces(input@.skip(pos as int)),
        decreases input.len() - at,
    {
        proof {
            assert(input@.skip(at as int)[0] == input@[at as int]);
            assert(input@.skip(at as int).skip(1) =~= input@.skip(at + 1));
        }
        at += 1;
    }
    proof {
        if at < input.len() {
            assert(input@.skip(at as int)[0] == input@[at as int]);
        }
    }
    at
}

/// The characters of `s`, in order.
pub fn to_chars(s: &str) -> (r: Vec<char>)
    ensures
        r@ == s@,
{
    let mut out: Vec<char> = Vec::new();
    for c in it: s.chars()
        invariant
            it.seq() == s@,
            out@ == s@.take(it.index() as int),
    {
        out.push(c);
        proof {
            assert(s@.take(it.index() + 1) =~= s@.take(it.index() as int).push(c));
        }
    }
    proof {
        assert(s@.take(s@.len() as int) =~= s@);
    }
    out
}

/// Appends `input[from..to]` to `out`.
pub fn push_range(out: &mut String, input: &Vec<char>, from: usize, to: usize)
    requires
        from <= to <= input.len(),
    ensures
        final(out)@ == old(out)@ + input@.subrange(from as int, to as int),
{
    let mut at: usize = from;
    while at < to
        invariant
            from <= at <= to <= input.len(),
            out@ == old(out)@ + input@.subrange(from as int, at as int),
        decreases to - at,
    {
        out.push(input[at]);
        proof {
            assert(input@.subrange(from as int, at + 1) =~= input@.subrange(
                from as int,
                at as int,
            ).push(input@[at as int]));
        }
        at += 1;
    }
}

/// `prefix`, then `input[from..to]`, then a closing apostrophe.
pub fn quoted(prefix: &str, input: &Vec<char>, from: usize, to: usize) -> (r: String)
    requires
        from <= to <= input.len(),
    ensures
        r@ == (prefix@ + input@.subrange(from as int, to as int)).push('\''),
{
    let mut out: String = prefix.to_owned();
    push_range(&mut out, input, from, to);
    out.push('\'');
    out
}

/// The text `input[from..]`.
pub fn rest_text(input: &Vec<char>, from: usize) -> (r: String)
    requires
        from <= input.len(),
    ensures
        r@ == input@.skip(from as int),
{
    let mut out: String = String::new();
    push_range(&mut out, input, from, input.len());
    proof {
        assert(input@.subrange(from as int, input.len() as int) =~= input@.skip(from as int));
    }
    out
}

/// Appends the characters of `s` to `out`.
pub fn push_seq(out: &mut String, s: &Vec<char>)
    ensures
        final(out)@ == old(out)@ + s@,
{
    push_range(out, s, 0, s.len());
    proof {
        assert(s@.subrange(0, s.len() as int) =~= s@);
    }
}

} // verus!
