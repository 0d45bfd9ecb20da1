//! The errors of the runtime.
use vstd::prelude::*;
use crate::lexer::LexError;
use crate::path::Path;
use crate::pratt::ParseError;

verus! {

#[derive(Debug)]
pub enum Error {
    /// The source text holds what is no token.
    Lex(LexError),
    /// The tokens do not make a template.
    Parse(ParseError),
    /// The statement list or the instruction stream is not of the shape
    /// that the stage before it produces.
    OptimizerInvariant,
    /// Failed to lookup id
    IdNotFound(Path),
    /// Failed to lookup widget by the ident
    UnregisteredWidget(String),
    /// Reserved widget name
    ReservedName(String),
    /// Existing name
    ExistingName(String),
    /// An attribute whose expression does not give the type that the widget
    /// expects: the widget kind, and the attribute's name
    AttributeType(String, String),
    InsufficientSpaceAvailble,
    /// A loop has made as many body instances over time as an id can
    /// number.
    TooManyNodes,
}

} // verus!
