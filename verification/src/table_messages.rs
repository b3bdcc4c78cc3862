//! Flag types that select which notification queues a table registration
//! installs, and the plan that turns the flags into the set of queues.

use vstd::prelude::*;

verus! {

/// Selects the notification queues to register for a table with a primary
/// key.
#[derive(Debug, Clone, Copy, PartialEq, Eq, Structural)]
pub struct TableMessages {
    /// Register the insert queue for the table.
    ///
    /// Together with `update`, also registers the combined
    /// insert-or-update queue.
    pub insert: bool,
    /// Register the update queue for the table.
    ///
    /// Together with `insert`, also registers the combined
    /// insert-or-update queue.
    pub update: bool,
    /// Register the delete queue for the table.
    pub delete: bool,
}

/// The queues that one table registration installs. The combined
/// insert-or-update queue exists only when both plain queues do.
#[derive(Debug, Clone, Copy, PartialEq, Eq, Structural)]
pub struct TableRegistrationPlan {
    /// Install the insert queue.
    pub insert: bool,
    /// Install the update queue.
    pub update: bool,
    /// Install the delete queue.
    pub delete: bool,
    /// Install the combined insert-or-update queue.
    pub insert_update: bool,
}

impl TableMessages {
    /// Selects every queue.
    pub fn all() -> (m: Self)
        ensures
            m.insert,
            m.update,
            m.delete,
    {
        TableMessages { insert: true, update: true, delete: true }
    }

    /// Selects the insert and delete queues, but no update queue.
    pub fn no_update() -> (m: Self)
        ensures
            m.insert,
            !m.update,
            m.delete,
    {
        TableMessages { insert: true, update: false, delete: true }
    }

    /// The queues these flags install: each selected queue, and the
    /// combined insert-or-update queue exactly when insert and update are
    /// both selected.
    pub fn plan(&self) -> (p: TableRegistrationPlan)
        ensures
            p.insert == self.insert,
            p.update == self.update,
            p.delete == self.delete,
            p.insert_update == (self.insert && self.update),
    {
        TableRegistrationPlan {
            insert: self.insert,
            update: self.update,
            delete: self.delete,
            insert_update: self.insert && self.update,
        }
    }
}

impl Default for TableMessages {
    /// Selects no queue.
    fn default() -> (m: Self)
        ensures
            !m.insert,
            !m.update,
            !m.delete,
    {
        TableMessages { insert: false, update: false, delete: false }
    }
}

/// Selects the notification queues to register for a table without a
/// primary key; such a table has no update callback.
#[derive(Debug, Clone, Copy, PartialEq, Eq, Structural)]
pub struct TableMessagesWithoutPrimaryKey {
    /// Register the insert queue for the table.
    pub insert: bool,
    /// Register the delete queue for the table.
    pub delete: bool,
}

impl TableMessagesWithoutPrimaryKey {
    /// Selects every available queue.
    pub fn all() -> (m: Self)
        ensures
            m.insert,
            m.delete,
    {
        TableMessagesWithoutPrimaryKey { insert: true, delete: true }
    }

    /// The queues these flags install: no update and no combined queue,
    /// since the table reports no updates.
    pub fn plan(&self) -> (p: TableRegistrationPlan)
        ensures
            p.insert == self.insert,
            !p.update,
            p.delete == self.delete,
            !p.insert_update,
    {
        TableRegistrationPlan {
            insert: self.insert,
            update: false,
            delete: self.delete,
            insert_update: false,
        }
    }
}

impl Default for TableMessagesWithoutPrimaryKey {
    /// Selects no queue.
    fn default() -> (m: Self)
        ensures
            !m.insert,
            !m.delete,
    {
        TableMessagesWithoutPrimaryKey { insert: false, delete: false }
    }
}

} // verus!
