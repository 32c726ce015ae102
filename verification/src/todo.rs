//! The task record and the engine's failure taxonomy.

use vstd::prelude::*;

verus! {

/// The fixed set of partition keys a todo can belong to.  A todo belongs to
/// exactly one day at a time.
#[derive(Clone, Copy, PartialEq, Eq, Structural, Debug)]
pub enum Day {
    Monday,
    Tuesday,
    Wednesday,
    Thursday,
    Friday,
    Saturday,
    Sunday,
}

/// The mathematical model of a task record.
#[verifier::ext_equal]
pub ghost struct TodoView {
    pub id: u64,
    pub day: Day,
    pub content: Seq<char>,
    pub position: u64,
    pub last_modified: u64,
}

/// A task record: a stable identifier assigned at creation and never reused,
/// the day partition it belongs to, free-form text, an ordering rank within
/// its day, and a logical modification timestamp in milliseconds, advanced on
/// every mutation.
pub struct Todo {
    pub id: u64,
    pub day: Day,
    pub content: String,
    pub position: u64,
    pub last_modified: u64,
}

impl View for Todo {
    type V = TodoView;

    open spec fn view(&self) -> TodoView {
        TodoView {
            id: self.id,
            day: self.day,
            content: self.content@,
            position: self.position,
            last_modified: self.last_modified,
        }
    }
}

impl DeepView for Todo {
    type V = TodoView;

    open spec fn deep_view(&self) -> TodoView {
        self@
    }
}

impl Todo {
    /// An exact copy of the record.
    pub fn duplicate(&self) -> (r: Todo)
        ensures
            r@ == self@,
    {
        Todo {
            id: self.id,
            day: self.day,
            content: self.content.clone(),
            position: self.position,
            last_modified: self.last_modified,
        }
    }
}

/// The failure taxonomy of the engine.  Storage and transport failures are
/// surfaced to the caller; none are retried internally.
#[derive(Clone, Copy, PartialEq, Eq, Structural, Debug)]
pub enum EngineError {
    /// The persistence layer failed, or the id space is exhausted.
    Storage,
    /// An operation referenced an id that does not exist.
    NotFound,
    /// The snapshot exchange with a peer failed; the round aborts cleanly.
    Transport,
    /// Synchronization was attempted before a local peer id exists.
    NoIdentity,
    /// A snapshot payload was malformed.
    Validation,
}

} // verus!
