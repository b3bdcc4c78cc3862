//! Bridges a real-time database client's row-change callbacks to a game
//! engine's per-cycle message queues.
//!
//! The database client reports row changes through callbacks on its own
//! thread; a host application consumes them once per update cycle. This
//! crate holds the logic of that bridge: the per-cycle reconciliation that
//! turns a delete/insert pair for one key into a single update notification
//! (for view-style queries that lack native update semantics), the
//! registration table that hands each row type its queue handle exactly
//! once, and the flag types that select which notifications a table
//! registers. The callback wiring itself is left to the host application.

pub mod key_map;
pub mod messages;
pub mod reconcile;
pub mod registry;
pub mod table_messages;
