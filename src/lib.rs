//! A JSON++ preprocessor: JSON with comments, optional commas, `undefined`, identifiers and
//! dynamic expressions `(op arg …)` that are evaluated, in dependency order, into strict JSON.
//!
//! The pipeline: `tokenizing::tokenize` splits text into tokens, the caller gives each
//! fractional number its floating-point value, `ast_builder::build_ast` builds the tree,
//! `evaluation::Evaluator` resolves its dynamics one step at a time (asking its caller for
//! floating-point work and for files), and `projection::evaluate_output` gives strict JSON.
use vstd::prelude::*;

pub mod ast_builder;
pub mod builtins;
pub mod evaluation;
pub mod jsonpp;
pub mod laws;
pub mod parsing;
pub mod paths;
pub mod projection;
pub mod substitution;
pub mod tokenizing;

verus! {

/// What the command line names: the input file (or `-` for standard input), and where to
/// write the result (standard output when none), overwriting an existing file only when
/// forced.
pub struct Args {
    pub input: String,
    pub output: Option<String>,
    pub force: bool,
}

} // verus!
