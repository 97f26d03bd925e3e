use vstd::prelude::*;

verus! {

/// The reasons an identifier string is rejected.
///
/// All three conditions are mutually exclusive and are surfaced to the caller
/// immediately; nothing is recovered from internally.
#[derive(Debug, PartialEq, Eq)]
pub enum IdError {
    /// The delimiter structure of the input did not match the
    /// exactly-one-open/exactly-one-close well-formed shape, or a
    /// colon-qualified input lacked proper bracket wrapping.
    /// Carries the original input verbatim for diagnostics.
    InvalidIdFormat(String),
    /// The bracket structure was valid but the table segment did not equal
    /// the expected table name. Carries the expected and the actual table
    /// name, in that order.
    InvalidTable(String, String),
    /// The raw input was empty, or the bracket-delimited payload was empty.
    IdCannotBeEmpty,
}

} // verus!
