//! A minimal, dependency-free JSON front end: it converts a byte buffer
//! believed to encode a JSON document into a strongly-typed value tree.
//!
//! Three stages, consumed strictly in order: a code-point reader that
//! decodes UTF-8 out of the bytes ([`reader`]), a tokenizer that classifies
//! the character stream into a flat token sequence ([`token`]), and a
//! recursive value builder that turns the tokens into a nested
//! [`value::Value`] ([`parser`]). Each stage is verified against a
//! specification function of the same shape, and the laws the pipeline obeys
//! are stated and proved in [`laws`].
//!
//! Every malformed-input condition surfaces as a [`JsonError`]: a parse
//! either returns the whole value or an error, never a partial result.
pub mod laws;
pub mod parser;
pub mod reader;
pub mod token;
pub mod value;

use vstd::prelude::*;

verus! {

/// The error kinds with which a parse can fail.
#[derive(Debug, Clone, Copy, PartialEq, Eq, Structural)]
pub enum JsonError {
    /// A character that no lexical rule accepts.
    UnexpectedCharacter,
    /// A `true`, `false` or `null` keyword that is not spelled exactly so.
    MalformedLiteral,
    /// A second exponent marker inside one number.
    DoubleExponent,
    /// A numeric token whose text does not parse as a number.
    InvalidNumber,
}

} // verus!
