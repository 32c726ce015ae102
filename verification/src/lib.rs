//! A local-first todo synchronization and conflict-resolution engine.
//!
//! The engine stores day-partitioned task records with a stable identity and
//! a per-day manual ordering, merges divergent copies of the record set under
//! a last-write-wins policy keyed on a logical modification timestamp, and
//! tracks the connection state of zero or more sync peers through an explicit
//! state machine.  Rendering, wire transport and persistence are collaborators
//! that call in through this surface; they are not part of the engine.

pub mod merge;
pub mod peer;
pub mod store;
pub mod sync;
pub mod time;
pub mod todo;
