//! A small JSON reader and writer, verified.
//!
//! Integers stay integers: a literal's shape picks [`Number`]'s variant, and
//! an integer outside `u64`/`i64` is refused unless the caller opts in to a
//! lossy reading. The reader is strict RFC 8259 with a nesting cap; the
//! writers and [`Value::dispose`] work without recursion. [`to_string`]
//! keeps each object's members in insertion order; [`to_string_canonical`]
//! sorts them at every depth, so that its output is a function of the value
//! alone.
//!
//! A float is held as its shortest round-trip decimal rendering
//! ([`FloatText`]). The float arithmetic that turns a literal into that
//! rendering is left to the caller: [`parse_step`] reads a document against
//! a table of renderings, and names the literals the table does not cover.
//!
//! The contracts speak of the model in [`value`] ([`JsonValue`]); the text a
//! writer produces is [`render::render`], the grammar the reader follows is
//! [`grammar::document`], and the laws that tie them together stand in
//! [`readback`] and [`canonical`].

mod access;
pub mod canonical;
pub mod complete;
mod error;
pub mod escapes;
pub mod grammar;
pub mod layouts;
pub mod options;
mod parse;
pub mod readback;
pub mod readings;
pub mod render;
pub mod sorting;
pub mod strict;
mod text;
pub mod value;
mod write;
pub mod written;

pub use error::{kind_text, message_text, Error, ErrorKind};
pub use parse::{parse_step, step_matches, ParseOptions, ParseStep, DEFAULT_MAX_DEPTH};
pub use value::{FloatText, JsonNumber, JsonValue, Number, Object, Value};
pub use write::{canonical, compact, pretty, to_string, to_string_canonical, to_string_pretty};
