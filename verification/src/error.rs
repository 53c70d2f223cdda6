//! The closed error taxonomy of the engine.
//!
//! Every component-level failure surfaces to the caller as one of these
//! variants, so callers can match on the kind; the payload carries context
//! (usually the table or column name involved).

use vstd::prelude::*;

verus! {

#[derive(Debug)]
pub enum GSQLError {
    /// Malformed input; produced by the parsing collaborator, not this core.
    SyntaxError(String),
    /// `CREATE TABLE` for a name that is already registered.
    TableExists(String),
    /// A statement addressed a table that does not exist.
    TableNotFound(String),
    /// A statement addressed a column that does not exist.
    ColumnNotFound(String),
    /// A supplied value's runtime type does not match the declared column type.
    TypeMismatch(String),
    /// A primary-key value that is already present in the table's index.
    DuplicateKey(String),
    /// A disk or file failure, carried in from the I/O layer as a message.
    IoError(String),
    /// A declared but unsupported operation (joins, DELETE, ...).
    NotImplemented(String),
    /// Uncategorized failure.
    Other(String),
}

} // verus!
