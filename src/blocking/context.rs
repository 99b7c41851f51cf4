use vstd::prelude::*;

verus! {

/// What the global callback sees of a transition: read-only access to its
/// states, its event and the machine's context.
#[derive(Debug)]
pub struct Context<'a, S, E, Ctx> {
    /// The state where this transition starts.
    pub from: &'a S,
    /// The state where this transition ends.
    pub to: &'a S,
    /// The event that triggers this transition.
    pub event: &'a E,
    /// The data associated with the state machine.
    pub context: &'a Ctx,
}

/// What a per-transition action sees of a transition: its states and event,
/// and mutable access to the machine's context.
#[derive(Debug)]
pub struct ContextMut<'a, S, E, Ctx> {
    /// The state where this transition starts.
    pub from: &'a S,
    /// The state where this transition ends.
    pub to: &'a S,
    /// The event that triggers this transition.
    pub event: &'a E,
    /// The mutable data associated with the state machine.
    pub context: &'a mut Ctx,
}

} // verus!
