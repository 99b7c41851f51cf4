//! An embeddable finite-state-machine engine: a table of transitions keyed by
//! `(state, event)` and a synchronous dispatcher that advances the current state,
//! runs per-transition actions and a global callback, and threads a user context.

/// Errors reported by the dispatcher.
pub mod error;

/// The transition table.
pub mod common;

/// The synchronous state machine and the pieces it is built from.
pub mod blocking;
