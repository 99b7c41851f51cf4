use super::{Context, ContextMut, IntoTransition, OnAction, OnTransition, Transition};
use crate::common::map::{
    assoc, entry_events, events_of, insert_spec, is_first, lemma_assoc_at, lemma_first_same_keys,
    lemma_first_unique, lemma_lookup_replace_same, lookup, replace_spec, states_of, Events, States,
    TransitionMap,
};
use crate::error::TransitionError;
use std::marker::PhantomData;
use vstd::pervasive::cloned;
use vstd::prelude::*;
use vstd::std_specs::cmp::PartialEqSpec;

verus! {

/// What the table holds for one `(state, event)` pair: the target state, whether
/// reaching it ends the machine, and the transition's action.
pub struct Next<S, A> {
    next: S,
    is_final: bool,
    action: Option<A>,
}

/// A transition rule as the contracts see it: target state, whether it is final,
/// and its action.
pub open spec fn rule<S, A>(to: S, is_final: bool, action: Option<A>) -> (S, bool, Option<A>) {
    (to, is_final, action)
}

spec fn next_rule<S, A>(n: Next<S, A>) -> (S, bool, Option<A>) {
    rule(n.next, n.is_final, n.action)
}

spec fn rules_of<S, E, A>(m: Seq<(S, Seq<(E, Next<S, A>)>)>) -> Seq<
    (S, Seq<(E, (S, bool, Option<A>))>),
> {
    m.map_values(
        |p: (S, Seq<(E, Next<S, A>)>)|
            (p.0, p.1.map_values(|q: (E, Next<S, A>)| (q.0, next_rule(q.1)))),
    )
}

proof fn lemma_lookup_rules<S: PartialEq, E: PartialEq, A>(
    m: Seq<(S, Seq<(E, Next<S, A>)>)>,
    event: E,
    from: S,
)
    ensures
        match lookup(m, event, from) {
            Some(n) => lookup(rules_of(m), event, from) == Some(next_rule(n)),
            None => lookup(rules_of(m), event, from) is None,
        },
{
    let r = rules_of(m);
    lemma_first_same_keys(m, r, from);
    if assoc(m, from) is Some {
        let i = choose|i: int|
            is_first(m, from, i) && assoc(m, from) == Some(m[i].1) && assoc(r, from) == Some(
                r[i].1,
            );
        lemma_first_same_keys(m[i].1, r[i].1, event);
        if assoc(m[i].1, event) is Some {
            let j = choose|j: int|
                is_first(m[i].1, event, j) && assoc(m[i].1, event) == Some(m[i].1[j].1) && assoc(
                    r[i].1,
                    event,
                ) == Some(r[i].1[j].1);
        }
    }
}

proof fn lemma_insert_rules<S: PartialEq, E, A>(
    m: Seq<(S, Seq<(E, Next<S, A>)>)>,
    event: E,
    from: S,
    n: Next<S, A>,
)
    ensures
        rules_of(insert_spec(m, event, from, n)) == insert_spec(
            rules_of(m),
            event,
            from,
            next_rule(n),
        ),
{
    let r = rules_of(m);
    lemma_first_same_keys(m, r, from);
    if exists|i: int| is_first(m, from, i) {
        let i = choose|i: int| is_first(m, from, i);
        let i2 = choose|i: int| is_first(r, from, i);
        lemma_first_unique(r, from, i, i2);
        assert(rules_of(insert_spec(m, event, from, n))[i].1 =~= insert_spec(
            r,
            event,
            from,
            next_rule(n),
        )[i].1);
        assert(rules_of(insert_spec(m, event, from, n)) =~= insert_spec(
            r,
            event,
            from,
            next_rule(n),
        ));
    } else {
        assert(rules_of(insert_spec(m, event, from, n)).last().1 =~= seq![(event, next_rule(n))]);
        assert(rules_of(insert_spec(m, event, from, n)) =~= insert_spec(
            r,
            event,
            from,
            next_rule(n),
        ));
    }
}

proof fn lemma_replace_rules<S: PartialEq, E: PartialEq, A>(
    m: Seq<(S, Seq<(E, Next<S, A>)>)>,
    event: E,
    from: S,
    n1: Next<S, A>,
)
    requires
        lookup(m, event, from) is Some,
    ensures
        rules_of(replace_spec(m, event, from, n1)) == replace_spec(
            rules_of(m),
            event,
            from,
            next_rule(n1),
        ),
{
    let r = rules_of(m);
    let i = choose|i: int| is_first(m, from, i);
    lemma_first_same_keys(m, r, from);
    let i2 = choose|i: int| is_first(r, from, i);
    lemma_first_unique(r, from, i, i2);
    let j = choose|j: int| is_first(m[i].1, event, j);
    lemma_first_same_keys(m[i].1, r[i].1, event);
    let j2 = choose|j: int| is_first(r[i].1, event, j);
    lemma_first_unique(r[i].1, event, j, j2);
    assert(rules_of(replace_spec(m, event, from, n1))[i].1 =~= replace_spec(
        r,
        event,
        from,
        next_rule(n1),
    )[i].1);
    assert(rules_of(replace_spec(m, event, from, n1)) =~= replace_spec(
        r,
        event,
        from,
        next_rule(n1),
    ));
}

proof fn lemma_events_of_rules<S, E, A>(m: Seq<(S, Seq<(E, Next<S, A>)>)>)
    ensures
        events_of(rules_of(m)) == events_of(m),
    decreases m.len(),
{
    if m.len() > 0 {
        lemma_events_of_rules(m.drop_first());
        assert(rules_of(m).drop_first() =~= rules_of(m.drop_first()));
        assert(entry_events(rules_of(m)[0].1) =~= entry_events(m[0].1));
    }
}

/// Stage of a `Machine` that is being configured.
#[derive(Debug, Clone, Copy)]
pub struct Build;

/// Stage of a `Machine` that has been started and dispatches events.
#[derive(Debug, Clone, Copy)]
pub struct Ready;

/// A finite state machine that moves between states as events arrive.
///
/// It is configured in the `Build` stage (transitions, then a global callback),
/// then started with an initial state, which brings it to the `Ready` stage.
/// Once a final transition has fired the machine is done and refuses every event.
///
/// Callbacks observe the genuine source state of a transition as `from`, not
/// the state that the machine has already moved to.
pub struct Machine<S, E, Ctx, A, F, Step = Build> {
    transitions: TransitionMap<S, E, Next<S, A>>,
    current: Option<S>,
    done: bool,
    context: Ctx,
    on_transition: Option<F>,
    _marker: PhantomData<Step>,
}

impl<S, E, Ctx, A, F, Step> Machine<S, E, Ctx, A, F, Step> {
    /// The registered transitions: for each source state, its events and the
    /// rule `(target, is_final, action)` of each.
    pub closed spec fn spec_rules(&self) -> Seq<(S, Seq<(E, (S, bool, Option<A>))>)> {
        rules_of(self.transitions@)
    }

    /// The current state; `None` before the machine is started.
    pub closed spec fn spec_current(&self) -> Option<S> {
        self.current
    }

    /// Whether a final transition has fired.
    pub closed spec fn spec_done(&self) -> bool {
        self.done
    }

    /// The user data carried by the machine.
    pub closed spec fn spec_context(&self) -> Ctx {
        self.context
    }

    /// Whether a global callback is set.
    pub closed spec fn spec_has_callback(&self) -> bool {
        self.on_transition is Some
    }

    /// The global callback, if one is set.
    pub closed spec fn spec_callback(&self) -> Option<F> {
        self.on_transition
    }
}

impl<S, E, A> Machine<S, E, (), A, (), Build> {
    /// A machine with no transitions, no callback and an empty context.
    pub fn new() -> (r: Machine<S, E, (), A, (), Build>)
        ensures
            r.spec_rules() == Seq::<(S, Seq<(E, (S, bool, Option<A>))>)>::empty(),
            r.spec_current() is None,
            !r.spec_done(),
            !r.spec_has_callback(),
            r.spec_callback() is None,
    {
        let r = Machine {
            transitions: TransitionMap::new(),
            current: None,
            done: false,
            context: (),
            on_transition: None,
            _marker: PhantomData,
        };
        assert(r.spec_rules() =~= Seq::<(S, Seq<(E, (S, bool, Option<A>))>)>::empty());
        r
    }

    /// A machine with no transitions and no callback that carries `context`.
    pub fn with_context<Ctx>(context: Ctx) -> (r: Machine<S, E, Ctx, A, (), Build>)
        ensures
            r.spec_rules() == Seq::<(S, Seq<(E, (S, bool, Option<A>))>)>::empty(),
            r.spec_current() is None,
            !r.spec_done(),
            r.spec_context() == context,
            !r.spec_has_callback(),
            r.spec_callback() is None,
    {
        let r = Machine {
            transitions: TransitionMap::new(),
            current: None,
            done: false,
            context,
            on_transition: None,
            _marker: PhantomData,
        };
        assert(r.spec_rules() =~= Seq::<(S, Seq<(E, (S, bool, Option<A>))>)>::empty());
        r
    }
}

impl<S, E, Ctx, A> Machine<S, E, Ctx, A, (), Build> where E: PartialEq, S: PartialEq {
    /// Adds a transition. A state has at most one transition per event, so the
    /// transition's `(from, event)` pair must not be registered yet.
    pub fn on_next<T: IntoTransition<S, E, A>>(self, transition: T) -> (r: Self)
        requires
            S::obeys_eq_spec(),
            E::obeys_eq_spec(),
            transition.is_complete(),
            lookup(self.spec_rules(), transition.trigger(), transition.source()) is None,
        ensures
            r.spec_rules() == insert_spec(
                self.spec_rules(),
                transition.trigger(),
                transition.source(),
                rule(transition.target(), transition.ends(), transition.action_of()),
            ),
            r.spec_current() == self.spec_current(),
            r.spec_done() == self.spec_done(),
            r.spec_context() == self.spec_context(),
            r.spec_has_callback() == self.spec_has_callback(),
            r.spec_callback() == self.spec_callback(),
    {
        let Transition { from, to, event, action, is_final } = transition.into_transition();
        let mut m = self;
        proof {
            lemma_lookup_rules(m.transitions@, event, from);
        }
        let ghost before = m.transitions@;
        let n = Next { next: to, action, is_final };
        let ghost gn = n;
        let ghost ge = event;
        let ghost gf = from;
        m.transitions.insert(event, from, n);
        proof {
            lemma_insert_rules(before, ge, gf, gn);
        }
        m
    }

    /// Sets the callback run after every successful transition.
    pub fn on_transition<F>(self, on_transition: F) -> (r: Machine<S, E, Ctx, A, F, Build>) where
        F: OnTransition<S, E, Ctx>,
        ensures
            r.spec_rules() == self.spec_rules(),
            r.spec_current() == self.spec_current(),
            !r.spec_done(),
            r.spec_context() == self.spec_context(),
            r.spec_has_callback(),
            r.spec_callback() == Some(on_transition),
    {
        Machine {
            current: self.current,
            transitions: self.transitions,
            done: false,
            context: self.context,
            on_transition: Some(on_transition),
            _marker: PhantomData,
        }
    }
}

impl<S, E, Ctx, A, F> Machine<S, E, Ctx, A, F, Build> {
    /// Starts the machine in `initial_state`.
    pub fn start(self, initial_state: S) -> (r: Machine<S, E, Ctx, A, F, Ready>)
        ensures
            r.spec_rules() == self.spec_rules(),
            r.spec_current() == Some(initial_state),
            !r.spec_done(),
            r.spec_context() == self.spec_context(),
            r.spec_has_callback() == self.spec_has_callback(),
            r.spec_callback() == self.spec_callback(),
    {
        Machine {
            current: Some(initial_state),
            transitions: self.transitions,
            done: false,
            context: self.context,
            on_transition: self.on_transition,
            _marker: PhantomData,
        }
    }
}

impl<S, E, Ctx, A, F> Machine<S, E, Ctx, A, F, Ready> where
    E: PartialEq,
    S: PartialEq + Clone,
    A: OnAction<S, E, Ctx>,
    F: OnTransition<S, E, Ctx>,
 {
    /// A fresh traversal over the source states of the registered transitions.
    pub fn states(&self) -> (r: States<'_, S, E, Next<S, A>>)
        ensures
            r.remaining() == states_of(self.spec_rules()),
    {
        proof {
            assert(states_of(self.transitions@) =~= states_of(self.spec_rules()));
        }
        self.transitions.states()
    }

    /// A fresh traversal over the events of the registered transitions.
    pub fn events(&self) -> (r: Events<'_, S, E, Next<S, A>>)
        ensures
            r.remaining() == events_of(self.spec_rules()),
    {
        proof {
            lemma_events_of_rules(self.transitions@);
        }
        self.transitions.events()
    }

    /// The current state.
    pub fn current(&self) -> (r: &S)
        requires
            self.spec_current() is Some,
        ensures
            *r == self.spec_current()->0,
    {
        self.current.as_ref().unwrap()
    }

    /// The context carried by the machine.
    pub fn context(&self) -> (r: &Ctx)
        ensures
            *r == self.spec_context(),
    {
        &self.context
    }

    /// Whether a final transition has fired.
    pub fn is_done(&self) -> (r: bool)
        ensures
            r == self.spec_done(),
    {
        self.done
    }

    /// Dispatches `event` and returns the state the machine was in before it.
    ///
    /// A done machine refuses every event with `Done`; an event with no
    /// transition from the current state is refused with `InvalidTransition`.
    /// Neither refusal changes the machine. Otherwise the machine moves to the
    /// transition's target, becomes done if the transition is final, runs the
    /// transition's action, then the global callback. The action is called with
    /// the machine's context and what it leaves there is the final context, as
    /// its `acted` predicate describes; the global callback is then called once
    /// with that context, as its `called` predicate describes.
    pub fn send(&mut self, event: E) -> (r: Result<S, TransitionError>)
        requires
            old(self).spec_current() is Some,
            S::obeys_eq_spec(),
            E::obeys_eq_spec(),
        ensures
            final(self).spec_current() is Some,
            final(self).spec_has_callback() == old(self).spec_has_callback(),
            old(self).spec_done() ==> final(self).spec_done(),
            old(self).spec_done() ==> r == Err::<S, TransitionError>(TransitionError::Done)
                && *final(self) == *old(self),
            !old(self).spec_done() && lookup(
                old(self).spec_rules(),
                event,
                old(self).spec_current()->0,
            ) is None ==> r == Err::<S, TransitionError>(TransitionError::InvalidTransition)
                && *final(self) == *old(self),
            !old(self).spec_done() ==> (lookup(
                old(self).spec_rules(),
                event,
                old(self).spec_current()->0,
            ) matches Some(t) ==> {
                &&& r == Ok::<S, TransitionError>(old(self).spec_current()->0)
                &&& cloned(t.0, final(self).spec_current()->0)
                &&& final(self).spec_done() == t.1
                &&& lookup(final(self).spec_rules(), event, old(self).spec_current()->0) matches Some(
                    u,
                ) && u.0 == t.0 && u.1 == t.1 && (u.2 is Some <==> t.2 is Some)
                    && final(self).spec_rules() == replace_spec(
                    old(self).spec_rules(),
                    event,
                    old(self).spec_current()->0,
                    u,
                ) && (t.2 matches Some(a) ==> a.acted(
                    &u.2->0,
                    old(self).spec_current()->0,
                    t.0,
                    event,
                    old(self).spec_context(),
                    final(self).spec_context(),
                ))
                &&& t.2 is None ==> final(self).spec_context() == old(self).spec_context()
                &&& old(self).spec_has_callback() ==> old(self).spec_callback()->0.called(
                    &final(self).spec_callback()->0,
                    old(self).spec_current()->0,
                    t.0,
                    event,
                    final(self).spec_context(),
                )
            }),
    {
        if self.done {
            return Err(TransitionError::Done);
        }
        let ghost rules = self.spec_rules();
        let ghost table = self.transitions@;
        let ghost cur = self.current->0;
        proof {
            lemma_lookup_rules(table, event, cur);
        }
        let found = self.transitions.get_mut(&event, self.current.as_ref().unwrap());
        match found {
            None => Err(TransitionError::InvalidTransition),
            Some(n) => {
                let ghost n0 = *n;
                let prev = self.current.take().unwrap();
                self.current = Some(n.next.clone());
                if n.is_final {
                    self.done = true;
                }
                match n.action.as_mut() {
                    Some(f) => {
                        f.call(
                            ContextMut {
                                from: &prev,
                                to: &n.next,
                                event: &event,
                                context: &mut self.context,
                            },
                        );
                    },
                    None => {},
                }
                match self.on_transition.as_mut() {
                    Some(f) => {
                        f.call(
                            Context {
                                from: &prev,
                                to: &n.next,
                                event: &event,
                                context: &self.context,
                            },
                        );
                    },
                    None => {},
                }
                proof {
                    lemma_replace_rules(table, event, cur, *n);
                    lemma_lookup_replace_same(rules, event, cur, next_rule(*n));
                }
                Ok(prev)
            },
        }
    }
}

impl<S, E, A> Default for Machine<S, E, (), A, (), Build> {
    fn default() -> (r: Self)
        ensures
            r.spec_rules() == Seq::<(S, Seq<(E, (S, bool, Option<A>))>)>::empty(),
            r.spec_current() is None,
            !r.spec_done(),
            !r.spec_has_callback(),
    {
        Self::new()
    }
}

} // verus!
