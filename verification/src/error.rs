//! The failures the engine reports.

use vstd::prelude::*;

verus! {

/// Why an engine operation was refused.
#[derive(Debug, Clone, Copy, PartialEq, Eq, Hash, Structural)]
pub enum EngineError {
    /// An item id that the catalog does not hold was named.
    NotFound,
    /// Catalog and ledger, as handed over, do not describe a tournament that
    /// this engine could have produced.
    LedgerCorrupt,
    /// A ranking was asked of a catalog without items.
    EmptyCatalog,
    /// The match cannot be recorded in the present state: a participant is
    /// out of play or already paired in the running round, the two
    /// participants are the same item, or the record does not continue the
    /// ledger.
    InvalidMatch,
}

impl EngineError {
    /// A short description, for messages shown to an operator.
    pub fn message(&self) -> (text: &'static str)
        ensures
            text@ == match *self {
                EngineError::NotFound => "item not found"@,
                EngineError::LedgerCorrupt => "ledger corrupt"@,
                EngineError::EmptyCatalog => "empty catalog"@,
                EngineError::InvalidMatch => "invalid match"@,
            },
    {
        match self {
            EngineError::NotFound => "item not found",
            EngineError::LedgerCorrupt => "ledger corrupt",
            EngineError::EmptyCatalog => "empty catalog",
            EngineError::InvalidMatch => "invalid match",
        }
    }
}

} // verus!
