//! Errors surfaced by the log.

use vstd::prelude::*;

verus! {

/// Everything that can go wrong with a log operation.
#[derive(Debug, Clone, Copy)]
pub enum Error {
    /// Decoder failure, contiguity violation, or an impossible catalog state.
    Corrupt,
    /// Operation on a closed log.
    Closed,
    /// Read of an index outside the log's range.
    NotFound,
    /// Write with a non-consecutive index, or a batch whose byte count
    /// disagrees with its size list.
    OutofOrder,
    /// Truncation bound outside the log's range.
    OutOfRange,
    /// Attempt to open the reserved `:memory:` path.
    InMemoryLog,
}

impl Error {
    /// A short human-readable description.
    pub fn message(&self) -> (r: String)
        ensures
            *self is Corrupt ==> r@ == "log corrupt"@,
            *self is Closed ==> r@ == "log closed"@,
            *self is NotFound ==> r@ == "not found"@,
            *self is OutofOrder ==> r@ == "out of order"@,
            *self is OutOfRange ==> r@ == "out of range"@,
            *self is InMemoryLog ==> r@ == "in-memory log not supported"@,
    {
        match self {
            Error::Corrupt => "log corrupt".to_owned(),
            Error::Closed => "log closed".to_owned(),
            Error::NotFound => "not found".to_owned(),
            Error::OutofOrder => "out of order".to_owned(),
            Error::OutOfRange => "out of range".to_owned(),
            Error::InMemoryLog => "in-memory log not supported".to_owned(),
        }
    }
}

} // verus!
