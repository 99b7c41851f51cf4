use vstd::prelude::*;

verus! {

/// An error that occurred while dispatching an event.
#[derive(Debug, Clone, Copy, PartialEq, Eq, Structural)]
pub enum TransitionError {
    /// The state machine has already fired a final transition.
    Done,
    /// No transition is registered for the current state and the event.
    InvalidTransition,
}

impl TransitionError {
    /// A human-readable description of the error.
    pub fn message(&self) -> (r: &'static str)
        ensures
            *self == TransitionError::Done ==> r@ == "state machine is done"@,
            *self == TransitionError::InvalidTransition ==> r@ == "invalid transition"@,
    {
        match self {
            TransitionError::Done => "state machine is done",
            TransitionError::InvalidTransition => "invalid transition",
        }
    }
}

} // verus!
