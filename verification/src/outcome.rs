//! What the operations answer, and how loudly each answer is reported.

use vstd::prelude::*;

verus! {

/// Result of asking for one stroke to be deleted.
#[derive(Clone, Copy, Debug, PartialEq, Eq, Structural)]
pub enum DeleteOutcome {
    /// The stroke existed and has been removed.
    Deleted,
    /// No stroke has that id; nothing changed.
    NotFound,
    /// The stroke belongs to someone else; nothing changed.
    Forbidden,
}

/// Result of asking for a board to be cleared.
#[derive(Clone, Copy, Debug, PartialEq, Eq, Structural)]
pub enum ClearOutcome {
    /// The board exists and every stroke on it has been removed.
    Cleared,
    /// No board has that id; nothing changed.
    BoardNotFound,
}

/// Why an insert did not happen.
#[derive(Clone, Copy, Debug, PartialEq, Eq, Structural)]
pub enum InsertError {
    /// The table has already handed out its largest id.
    SequenceExhausted,
}

/// How loudly the host reports an answer in its diagnostics.
#[derive(Clone, Copy, Debug, PartialEq, Eq, Structural)]
pub enum Level {
    Info,
    Warn,
}

impl DeleteOutcome {
    /// A delete is reported as information, a refusal as a warning, and a
    /// stroke that was not there is not reported.
    pub fn level(self) -> (r: Option<Level>)
        ensures
            r == match self {
                DeleteOutcome::Deleted => Some(Level::Info),
                DeleteOutcome::NotFound => None::<Level>,
                DeleteOutcome::Forbidden => Some(Level::Warn),
            },
    {
        match self {
            DeleteOutcome::Deleted => Some(Level::Info),
            DeleteOutcome::NotFound => None,
            DeleteOutcome::Forbidden => Some(Level::Warn),
        }
    }
}

impl ClearOutcome {
    /// A clear is reported as information, a missing board as a warning.
    pub fn level(self) -> (r: Level)
        ensures
            r == match self {
                ClearOutcome::Cleared => Level::Info,
                ClearOutcome::BoardNotFound => Level::Warn,
            },
    {
        match self {
            ClearOutcome::Cleared => Level::Info,
            ClearOutcome::BoardNotFound => Level::Warn,
        }
    }
}

} // verus!
