//! The notification records that the bridge delivers to the host
//! application's per-cycle queues: one record kind per table callback, plus
//! connection-lifecycle and reducer-result records.

use vstd::prelude::*;

verus! {

/// A row was inserted into a table.
#[derive(Debug, Clone, PartialEq, Eq)]
pub struct InsertMessage<T> {
    /// The inserted row.
    pub row: T,
}

/// A row of a table with a primary key was updated.
#[derive(Debug, Clone, PartialEq, Eq)]
pub struct UpdateMessage<T> {
    /// The row as it was before the update.
    pub old_row: T,
    /// The row as it is after the update.
    pub new_row: T,
}

/// A row was deleted from a table.
#[derive(Debug, Clone, PartialEq, Eq)]
pub struct DeleteMessage<T> {
    /// The deleted row.
    pub row: T,
}

/// A row was inserted or updated, delivered on one combined queue.
#[derive(Debug, Clone, PartialEq, Eq)]
pub struct InsertUpdateMessage<T> {
    /// The row before the change, present only for an update.
    pub old_row: Option<T>,
    /// The row after the change.
    pub new_row: T,
}

impl<T> InsertUpdateMessage<T> {
    /// The combined record for an insert callback: no previous row.
    pub fn from_insert(row: T) -> (m: Self)
        ensures
            m.old_row is None,
            m.new_row == row,
    {
        InsertUpdateMessage { old_row: None, new_row: row }
    }

    /// The combined record for an update callback: both rows present.
    pub fn from_update(old_row: T, new_row: T) -> (m: Self)
        ensures
            m.old_row == Some(old_row),
            m.new_row == new_row,
    {
        InsertUpdateMessage { old_row: Some(old_row), new_row }
    }
}

/// A remote procedure call completed; carries the generated result record.
#[derive(Debug, Clone, PartialEq, Eq)]
pub struct ReducerResultMessage<T> {
    /// The result record of the call.
    pub result: T,
}

/// The connection to the database was established.
#[derive(Debug, Clone, PartialEq, Eq)]
pub struct StdbConnectedMessage;

/// The connection to the database was closed.
#[derive(Debug, Clone, PartialEq, Eq)]
pub struct StdbDisconnectedMessage;

/// Connecting to the database failed.
#[derive(Debug, Clone, PartialEq, Eq)]
pub struct StdbConnectionErrorMessage {
    /// A description of the failure.
    pub message: String,
}

} // verus!
