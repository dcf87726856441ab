//! The shared termination signal read by every background worker.
use vstd::prelude::*;

verus! {

/// Signal cell shared between the UI and the worker loops. `Halt` tells
/// every worker to return at its next check; `Nothing` lets them run on.
pub enum Flag {
    Nothing,
    Halt,
}

impl Flag {
    /// True exactly on the `Halt` signal.
    pub fn is_halt(&self) -> (r: bool)
        ensures
            r == (self is Halt),
    {
        match self {
            Flag::Halt => true,
            Flag::Nothing => false,
        }
    }
}

} // verus!
