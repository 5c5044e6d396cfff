//! The error taxonomy of the parser: one type whose variants distinguish a
//! failing text source, malformed document syntax, a document that violates
//! the field schema, and field content that fails one of the specialized
//! codecs.

use vstd::prelude::*;
use vstd::string::StringExecFns;

verus! {

/// A classified parse failure.
///
/// - `SourceError`: the collaborator that supplies the raw text failed; the
///   core itself never produces this variant.
/// - `StructuralError`: the text is not well-formed structured data at all.
/// - `SchemaError`: the data is well-formed but violates the document's field
///   contract (missing required field, value outside a closed enumeration,
///   wrong primitive type).
/// - `CodecError`: a field's content failed one of the specialized grammars;
///   it carries the offending raw substring and an expectation string.
#[derive(Debug)]
pub enum ParseError {
    SourceError { message: String },
    StructuralError { message: String },
    SchemaError { message: String },
    CodecError { offending: String, expected: String },
}

/// The rendering of an error as one human-readable line.
pub open spec fn spec_error_message(e: ParseError) -> Seq<char> {
    match e {
        ParseError::SourceError { message } => "source error: "@ + message@,
        ParseError::StructuralError { message } => "structural error: "@ + message@,
        ParseError::SchemaError { message } => "schema error: "@ + message@,
        ParseError::CodecError { offending, expected } => "codec error at `"@ + offending@
            + "`: "@ + expected@,
    }
}

impl ParseError {
    /// Renders the error as one human-readable line.
    pub fn message(&self) -> (r: String)
        ensures
            r@ == spec_error_message(*self),
    {
        match self {
            ParseError::SourceError { message } => String::from_str("source error: ").concat(
                message.as_str(),
            ),
            ParseError::StructuralError { message } => String::from_str(
                "structural error: ",
            ).concat(message.as_str()),
            ParseError::SchemaError { message } => String::from_str("schema error: ").concat(
                message.as_str(),
            ),
            ParseError::CodecError { offending, expected } => String::from_str(
                "codec error at `",
            ).concat(offending.as_str()).concat("`: ").concat(expected.as_str()),
        }
    }
}

} // verus!
