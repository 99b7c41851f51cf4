use super::Context;
use vstd::prelude::*;

verus! {

/// A callback run after every successful transition, with read-only access to
/// the machine's context.
///
/// Closures are not given this trait: Verus cannot show that an arbitrary
/// `FnMut` closure's precondition holds where the callback is called.
pub trait OnTransition<S, E, Ctx> {
    /// `after` is what this callback may become when it is called with the given
    /// source state, target state, event and context. By default nothing is
    /// promised; an implementation states what it does by overriding this.
    open spec fn called(&self, after: &Self, from: S, to: S, event: E, context: Ctx) -> bool {
        true
    }

    /// Called once for each successful transition, after its action.
    fn call(&mut self, cx: Context<S, E, Ctx>)
        ensures
            old(self).called(final(self), *cx.from, *cx.to, *cx.event, *cx.context),
    ;
}

/// The callback that does nothing.
impl<S, E, Ctx> OnTransition<S, E, Ctx> for () {
    open spec fn called(&self, after: &Self, from: S, to: S, event: E, context: Ctx) -> bool {
        true
    }

    fn call(&mut self, cx: Context<S, E, Ctx>) {
    }
}

} // verus!
