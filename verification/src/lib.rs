//! JSON text parsing, an order-preserving value tree, and rendering back to text.
//!
//! - [`grammar`] defines, as mathematical functions on text, what every input parses to.
//! - [`parse`](mod@parse) is the parser, proved to compute exactly that.
//! - [`value`] holds the value tree and its model; [`number`] holds number literals.
//! - [`generate`] renders a tree, compact or indented, and defines the rendered text.
//! - [`laws`] proves that rendering and parsing are inverse to each other.
//!
//! Three things are taken on trust rather than proved: the behaviour of the ordered map
//! that holds an object's members (see [`value::ObjectMap`]), of `String::push`, and of
//! `char::from_u32` (see [`text`]).
pub mod generate;
pub mod grammar;
pub mod laws;
pub mod number;
pub mod parse;
pub mod text;
pub mod value;

use crate::generate::{render, Layout};
use crate::grammar::{parse_text, Fault};
use crate::laws::{lemma_render_then_parse, lemma_round_trip};
pub use crate::parse::Error;
use crate::value::Json;
pub use crate::value::Value;
use vstd::prelude::*;

verus! {

/// Parses `input` as one JSON value surrounded by optional whitespace.
pub fn parse(input: &str) -> (r: Result<Value, Error>)
    ensures
        match r {
            Ok(v) => parse_text(input@) == Ok::<Json, Fault>(v@) && v@.well_formed(),
            Err(e) => parse_text(input@) == Err::<Json, Fault>(e@),
        },
{
    crate::parse::parse(input)
}

/// The text of `value`, without any whitespace. The text of a well-formed value parses
/// back to the value.
pub fn stringify(value: &Value) -> (r: String)
    ensures
        r@ == render(value@, Layout::Compact, 0),
        value@.well_formed() ==> parse_text(r@) == Ok::<Json, Fault>(value@),
{
    proof {
        if value@.well_formed() {
            lemma_render_then_parse(value@, Layout::Compact);
        }
    }
    crate::generate::compact(value)
}

/// Parses `input` and renders the value with two spaces per nesting level. The rendered
/// text parses to the same value as `input`.
pub fn format(input: &str) -> (r: Result<String, Error>)
    ensures
        match r {
            Ok(text) => parse_text(input@) is Ok && text@ == render(
                parse_text(input@)->Ok_0,
                Layout::Indented(2),
                0,
            ) && parse_text(text@) == parse_text(input@),
            Err(e) => parse_text(input@) == Err::<Json, Fault>(e@),
        },
{
    proof {
        if parse_text(input@) is Ok {
            lemma_round_trip(input@, Layout::Indented(2));
        }
    }
    match crate::parse::parse(input) {
        Ok(v) => Ok(crate::generate::format(&v, 2)),
        Err(e) => Err(e),
    }
}

} // verus!
