use super::ContextMut;
use vstd::prelude::*;

verus! {

/// An action run when one particular transition fires. It may change the
/// machine's context.
///
/// Closures are not given this trait: Verus cannot show that an arbitrary
/// `FnMut` closure's precondition holds where the action is called.
pub trait OnAction<S, E, Ctx> {
    /// `after` is what this action may become, and `context_after` what it may
    /// leave in the context, when it is called with the given source state,
    /// target state, event and context `context_before`. By default nothing is
    /// promised; an implementation states what it does by overriding this.
    open spec fn acted(
        &self,
        after: &Self,
        from: S,
        to: S,
        event: E,
        context_before: Ctx,
        context_after: Ctx,
    ) -> bool {
        true
    }

    /// Called once each time the transition fires, before the global callback.
    fn call(&mut self, cx: ContextMut<S, E, Ctx>)
        ensures
            old(self).acted(
                final(self),
                *cx.from,
                *cx.to,
                *cx.event,
                *old(cx.context),
                *final(cx.context),
            ),
    ;
}

/// The action that does nothing: it leaves the context as it was.
impl<S, E, Ctx> OnAction<S, E, Ctx> for () {
    open spec fn acted(
        &self,
        after: &Self,
        from: S,
        to: S,
        event: E,
        context_before: Ctx,
        context_after: Ctx,
    ) -> bool {
        context_after == context_before
    }

    fn call(&mut self, cx: ContextMut<S, E, Ctx>) {
    }
}

} // verus!
