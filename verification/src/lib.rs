//! Renders textual sequence-diagram descriptions as ASCII art.
//!
//! The pipeline has three stages: a parser for the surface syntax
//! (`parser`), an integer layout pass that places participant boxes and
//! message arrows (`layout`), and a character-grid canvas that the layout
//! draws onto (`canvas`). `transform` runs the whole pipeline; the
//! renderer (`renderer`) in between orders the participants and binds
//! their labels. The `laws` module proves the pipeline's global
//! properties, and `ast` holds the richer attribute-bearing statement
//! tree.

use vstd::prelude::*;

pub mod ast;
pub mod canvas;
pub mod laws;
pub mod layout;
pub mod parser;
pub mod renderer;

verus! {

/// Most characters an input description may hold; every coordinate the
/// layout computes for such an input fits comfortably in 32 bits.
pub const MAX_INPUT: usize = 10000;

/// An error surfaced by `transform`.
#[derive(Debug)]
pub enum TransformError {
    ParseError(String),
}

impl TransformError {
    /// The user-facing description of the error.
    pub fn describe(&self) -> (r: String)
        ensures
            match self {
                TransformError::ParseError(msg) => r@ == "Invalid syntax:\n"@ + msg@,
            },
    {
        match self {
            TransformError::ParseError(msg) => {
                let mut s = String::from_str("Invalid syntax:\n");
                s.append(msg.as_str());
                s
            },
        }
    }
}

/// What `transform` yields: the parsed diagram's frame, or nothing for a
/// malformed description.
pub open spec fn spec_transform(s: Seq<char>) -> Option<Seq<char>> {
    match parser::spec_parse(s) {
        Option::None => Option::None,
        Option::Some(d) => Option::Some(renderer::spec_render_diag(d)),
    }
}

/// Render a diagram description to its frame: parse it, lay it out, draw
/// it. A malformed description comes back as a `ParseError` holding the
/// parser's details; the rendered frame of an empty description is the
/// empty string.
pub fn transform(input: String) -> (r: Result<String, TransformError>)
    requires
        input@.len() <= MAX_INPUT,
    ensures
        match r {
            Ok(s) => spec_transform(input@) == Option::Some(s@),
            Err(e) => spec_transform(input@) is None,
        },
{
    match parser::diagram(input) {
        Ok(d) => {
            proof {
                assert(parser::diag_strings_le(d@, layout::MAX_TEXT as int));
                assert(d@.aliases.len() + d@.messages.len() <= layout::MAX_MESSAGES);
            }
            Ok(renderer::render(d))
        },
        Err(e) => match e {
            parser::ParserError::SyntaxError(msg) => Err(TransformError::ParseError(msg)),
        },
    }
}

} // verus!
