use std::marker::PhantomData;
use vstd::pervasive::cloned;
use vstd::prelude::*;

verus! {

/// A transition from one state to another when an event arrives, with an
/// optional action of type `A`.
pub struct Transition<S, E, A> {
    /// The state where the transition starts.
    pub from: S,
    /// The state where the transition ends.
    pub to: S,
    /// The event that triggers the transition.
    pub event: E,
    /// Whether firing the transition ends the machine.
    pub is_final: bool,
    /// The action run when the transition fires.
    pub action: Option<A>,
}

/// A value that can be turned into a complete `Transition`.
pub trait IntoTransition<S, E, A>: Sized {
    /// Whether every part of the transition has been given.
    spec fn is_complete(&self) -> bool;

    /// The source state of the transition it describes.
    spec fn source(&self) -> S;

    /// The target state of the transition it describes.
    spec fn target(&self) -> S;

    /// The triggering event of the transition it describes.
    spec fn trigger(&self) -> E;

    /// Whether the transition it describes is final.
    spec fn ends(&self) -> bool;

    /// The action of the transition it describes.
    spec fn action_of(&self) -> Option<A>;

    /// Converts this value into a `Transition`.
    fn into_transition(self) -> (r: Transition<S, E, A>)
        requires
            self.is_complete(),
        ensures
            r.from == self.source(),
            r.to == self.target(),
            r.event == self.trigger(),
            r.is_final == self.ends(),
            r.action == self.action_of(),
    ;
}

/// Stage of a `Builder` that has only its event.
#[derive(Debug, Clone, Copy)]
pub struct Build;

/// A builder stage that no builder method produces.
#[derive(Debug, Clone, Copy)]
pub struct Ready;

/// Stage of a `Builder` that has its event and source state.
#[derive(Debug, Clone, Copy)]
pub struct HasFrom;

/// A builder stage that no builder method produces.
#[derive(Debug, Clone, Copy)]
pub struct HasTo;

/// Stage of a `Builder` that has everything a transition needs.
#[derive(Debug, Clone, Copy)]
pub struct CanBuild;

/// A staged builder of transitions: only a `CanBuild` builder, which has its
/// source, target and event, turns into a `Transition`.
pub struct Builder<S, E, A, TStep = Build> {
    from: Option<S>,
    to: Option<S>,
    event: E,
    is_final: bool,
    action: Option<A>,
    _marker: PhantomData<TStep>,
}

impl<S, E, A, TStep> Builder<S, E, A, TStep> {
    /// The source state given so far.
    pub closed spec fn spec_from(&self) -> Option<S> {
        self.from
    }

    /// The target state given so far.
    pub closed spec fn spec_to(&self) -> Option<S> {
        self.to
    }

    /// The triggering event.
    pub closed spec fn spec_event(&self) -> E {
        self.event
    }

    /// Whether the transition is marked final.
    pub closed spec fn spec_is_final(&self) -> bool {
        self.is_final
    }

    /// The attached action, if any.
    pub closed spec fn spec_action(&self) -> Option<A> {
        self.action
    }
}

impl<S, E, A> Builder<S, E, A, Build> {
    /// A transition from `from` to `to` when `event` arrives.
    pub fn new(from: S, to: S, event: E) -> (r: Builder<S, E, A, CanBuild>) where S: Clone
        ensures
            r.spec_from() == Some(from),
            r.spec_to() == Some(to),
            r.spec_event() == event,
            !r.spec_is_final(),
            r.spec_action() is None,
    {
        Builder {
            from: Some(from),
            to: Some(to),
            event,
            is_final: false,
            action: None,
            _marker: PhantomData,
        }
    }

    /// Starts a transition triggered by `event`.
    pub fn when(event: E) -> (r: Self)
        ensures
            r.spec_from() is None,
            r.spec_to() is None,
            r.spec_event() == event,
            !r.spec_is_final(),
            r.spec_action() is None,
    {
        Builder { from: None, to: None, event, is_final: false, action: None, _marker: PhantomData }
    }

    /// A transition from `state` to itself when `event` arrives.
    pub fn self_transition(event: E, state: S) -> (r: Builder<S, E, A, CanBuild>) where S: Clone
        ensures
            r.spec_from() matches Some(f) && cloned(state, f),
            r.spec_to() == Some(state),
            r.spec_event() == event,
            !r.spec_is_final(),
            r.spec_action() is None,
    {
        Builder::new(state.clone(), state, event)
    }

    /// Sets the state where the transition starts.
    pub fn from(self, state: S) -> (r: Builder<S, E, A, HasFrom>)
        ensures
            r.spec_from() == Some(state),
            r.spec_to() is None,
            r.spec_event() == self.spec_event(),
            r.spec_is_final() == self.spec_is_final(),
            r.spec_action() == self.spec_action(),
    {
        Builder {
            from: Some(state),
            to: None,
            event: self.event,
            is_final: self.is_final,
            action: self.action,
            _marker: PhantomData,
        }
    }
}

impl<S, E, A> Builder<S, E, A, HasFrom> {
    /// Sets the state where the transition ends.
    pub fn to(self, state: S) -> (r: Builder<S, E, A, CanBuild>)
        ensures
            r.spec_from() == self.spec_from(),
            r.spec_to() == Some(state),
            r.spec_event() == self.spec_event(),
            r.spec_is_final() == self.spec_is_final(),
            r.spec_action() == self.spec_action(),
    {
        Builder {
            from: self.from,
            to: Some(state),
            event: self.event,
            is_final: self.is_final,
            action: self.action,
            _marker: PhantomData,
        }
    }
}

impl<S, E, A> Builder<S, E, A, CanBuild> {
    /// Marks the transition as one that ends the machine.
    pub fn is_final(self) -> (r: Self)
        ensures
            r.spec_from() == self.spec_from(),
            r.spec_to() == self.spec_to(),
            r.spec_event() == self.spec_event(),
            r.spec_is_final(),
            r.spec_action() == self.spec_action(),
    {
        let mut b = self;
        b.is_final = true;
        b
    }

    /// Sets the action run when the transition fires.
    pub fn action(self, f: A) -> (r: Self)
        ensures
            r.spec_from() == self.spec_from(),
            r.spec_to() == self.spec_to(),
            r.spec_event() == self.spec_event(),
            r.spec_is_final() == self.spec_is_final(),
            r.spec_action() == Some(f),
    {
        let mut b = self;
        b.action = Some(f);
        b
    }
}

impl<S, E, A> IntoTransition<S, E, A> for Builder<S, E, A, CanBuild> {
    open spec fn is_complete(&self) -> bool {
        self.spec_from() is Some && self.spec_to() is Some
    }

    open spec fn source(&self) -> S {
        self.spec_from()->0
    }

    open spec fn target(&self) -> S {
        self.spec_to()->0
    }

    open spec fn trigger(&self) -> E {
        self.spec_event()
    }

    open spec fn ends(&self) -> bool {
        self.spec_is_final()
    }

    open spec fn action_of(&self) -> Option<A> {
        self.spec_action()
    }

    fn into_transition(self) -> (r: Transition<S, E, A>) {
        Transition {
            event: self.event,
            from: self.from.unwrap(),
            to: self.to.unwrap(),
            action: self.action,
            is_final: self.is_final,
        }
    }
}

/// Starts a transition triggered by `event`.
pub fn when<S, E, A>(event: E) -> (r: Builder<S, E, A, Build>)
    ensures
        r.spec_from() is None,
        r.spec_to() is None,
        r.spec_event() == event,
        !r.spec_is_final(),
        r.spec_action() is None,
{
    Builder::when(event)
}

/// A transition from `state` to itself when `event` arrives.
pub fn self_transition<S, E, A>(event: E, state: S) -> (r: Builder<S, E, A, CanBuild>) where
    S: Clone,
    ensures
        r.spec_from() matches Some(f) && cloned(state, f),
        r.spec_to() == Some(state),
        r.spec_event() == event,
        !r.spec_is_final(),
        r.spec_action() is None,
{
    Builder::self_transition(event, state)
}

} // verus!
