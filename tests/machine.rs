use restate::blocking::{
    Builder, Context, ContextMut, IntoTransition, Machine, OnAction, OnTransition,
};
use restate::error::TransitionError;
use std::cell::RefCell;
use std::rc::Rc;

#[derive(Debug, Clone, PartialEq, Eq)]
enum LightState {
    On,
    Off,
}

#[derive(Debug, PartialEq, Eq)]
enum LightEvent {
    TurnOn,
    TurnOff,
}

#[derive(Debug, Clone, PartialEq, Eq)]
struct Active;

#[derive(Debug, PartialEq, Eq)]
enum CountEvent {
    Increment,
    Decrement,
}

/// Adds its step to an integer context.
struct Step(i32);

impl<S, E> OnAction<S, E, i32> for Step {
    fn call(&mut self, cx: ContextMut<S, E, i32>) {
        *cx.context += self.0;
    }
}

/// Counts its calls in a variable outside the machine.
struct Tally<'v>(&'v mut i32);

impl<'v> OnTransition<(), (), ()> for Tally<'v> {
    fn call(&mut self, _cx: Context<(), (), ()>) {
        *self.0 += 1;
    }
}

impl<'v> OnAction<(), (), ()> for Tally<'v> {
    fn call(&mut self, _cx: ContextMut<(), (), ()>) {
        *self.0 += 1;
    }
}

/// Records each call, with the states it saw, in a shared log.
struct Recorder {
    name: &'static str,
    log: Rc<RefCell<Vec<String>>>,
}

impl OnAction<LightState, LightEvent, i32> for Recorder {
    fn call(&mut self, cx: ContextMut<LightState, LightEvent, i32>) {
        *cx.context += 1;
        self.log
            .borrow_mut()
            .push(format!("{} {:?}->{:?} on {:?}", self.name, cx.from, cx.to, cx.event));
    }
}

impl OnTransition<LightState, LightEvent, i32> for Recorder {
    fn call(&mut self, cx: Context<LightState, LightEvent, i32>) {
        self.log.borrow_mut().push(format!(
            "{} {:?}->{:?} on {:?} ctx {}",
            self.name, cx.from, cx.to, cx.event, cx.context
        ));
    }
}

#[test]
fn send_test() {
    let mut sm = Machine::<_, _, (), (), ()>::new()
        .on_next(Builder::new(LightState::Off, LightState::On, LightEvent::TurnOn))
        .on_next(Builder::new(LightState::On, LightState::Off, LightEvent::TurnOff))
        .start(LightState::Off);

    assert_eq!(sm.send(LightEvent::TurnOn).unwrap(), LightState::Off);
    assert_eq!(sm.send(LightEvent::TurnOff).unwrap(), LightState::On);
    assert!(sm.send(LightEvent::TurnOff).is_err());
}

#[test]
fn on_transition_test() {
    let mut value = 0;

    {
        let mut sm = Machine::<_, _, (), (), ()>::new()
            .on_next(Builder::self_transition((), ()))
            .on_transition(Tally(&mut value))
            .start(());

        sm.send(()).unwrap();
        sm.send(()).unwrap();
    }

    assert_eq!(value, 2);
}

#[test]
fn on_action_test() {
    let mut value = 0;

    {
        let mut sm = Machine::new()
            .on_next(Builder::self_transition((), ()).action(Tally(&mut value)))
            .start(());

        sm.send(()).unwrap();
        sm.send(()).unwrap();
    }

    assert_eq!(value, 2);
}

#[test]
fn with_context_test() {
    let mut sm = Machine::with_context(0)
        .on_next(Builder::self_transition(CountEvent::Increment, Active).action(Step(1)))
        .on_next(Builder::self_transition(CountEvent::Decrement, Active).action(Step(-1)))
        .start(Active);

    sm.send(CountEvent::Increment).unwrap();
    sm.send(CountEvent::Increment).unwrap();
    sm.send(CountEvent::Increment).unwrap();

    assert_eq!(*sm.context(), 3);

    sm.send(CountEvent::Decrement).unwrap();
    sm.send(CountEvent::Decrement).unwrap();

    assert_eq!(*sm.context(), 1);
}

#[test]
fn light_switch_round_trip() {
    let mut sm = Machine::<_, _, (), (), ()>::new()
        .on_next(Builder::new(LightState::Off, LightState::On, LightEvent::TurnOn))
        .on_next(Builder::new(LightState::On, LightState::Off, LightEvent::TurnOff))
        .start(LightState::Off);

    assert_eq!(sm.send(LightEvent::TurnOn), Ok(LightState::Off));
    assert_eq!(*sm.current(), LightState::On);
    assert_eq!(sm.send(LightEvent::TurnOff), Ok(LightState::On));
    assert_eq!(*sm.current(), LightState::Off);
    assert_eq!(sm.send(LightEvent::TurnOff), Err(TransitionError::InvalidTransition));
    assert_eq!(*sm.current(), LightState::Off);
    assert!(!sm.is_done());
}

#[test]
fn invalid_transition_keeps_state_and_context() {
    let log = Rc::new(RefCell::new(Vec::new()));
    let mut sm = Machine::with_context(10)
        .on_next(
            Builder::new(LightState::Off, LightState::On, LightEvent::TurnOn)
                .action(Recorder { name: "action", log: log.clone() }),
        )
        .on_transition(Recorder { name: "global", log: log.clone() })
        .start(LightState::Off);

    assert_eq!(sm.send(LightEvent::TurnOff), Err(TransitionError::InvalidTransition));
    assert_eq!(*sm.current(), LightState::Off);
    assert_eq!(*sm.context(), 10);
    assert!(log.borrow().is_empty());
}

#[test]
fn self_transition_counts_to_three() {
    let mut sm = Machine::with_context(0)
        .on_next(Builder::self_transition(CountEvent::Increment, Active).action(Step(1)))
        .start(Active);

    for _ in 0..3 {
        assert_eq!(sm.send(CountEvent::Increment), Ok(Active));
    }
    assert_eq!(*sm.context(), 3);
}

#[derive(Debug, Clone, PartialEq, Eq)]
enum Job {
    Running,
    DoneState,
}

#[test]
fn final_transition_ends_the_machine() {
    let mut sm = Machine::<_, _, (), (), ()>::new()
        .on_next(Builder::new(Job::Running, Job::DoneState, ()).is_final())
        .on_next(Builder::new(Job::DoneState, Job::Running, ()))
        .start(Job::Running);

    assert!(!sm.is_done());
    assert_eq!(sm.send(()), Ok(Job::Running));
    assert!(sm.is_done());
    assert_eq!(*sm.current(), Job::DoneState);
    assert_eq!(sm.send(()), Err(TransitionError::Done));
    assert_eq!(sm.send(()), Err(TransitionError::Done));
    assert_eq!(*sm.current(), Job::DoneState);
}

#[test]
fn previous_state_matches_current_before_send() {
    let mut sm = Machine::<_, _, (), (), ()>::new()
        .on_next(Builder::new(LightState::Off, LightState::On, LightEvent::TurnOn))
        .on_next(Builder::new(LightState::On, LightState::Off, LightEvent::TurnOff))
        .start(LightState::On);

    let before = sm.current().clone();
    assert_eq!(sm.send(LightEvent::TurnOff), Ok(before));
    let before = sm.current().clone();
    assert_eq!(sm.send(LightEvent::TurnOn), Ok(before));
}

#[test]
fn action_runs_before_global_callback_once_per_send() {
    let log = Rc::new(RefCell::new(Vec::new()));
    let mut sm = Machine::with_context(0)
        .on_next(
            Builder::new(LightState::Off, LightState::On, LightEvent::TurnOn)
                .action(Recorder { name: "action", log: log.clone() }),
        )
        .on_next(
            Builder::new(LightState::On, LightState::Off, LightEvent::TurnOff)
                .action(Recorder { name: "action", log: log.clone() }),
        )
        .on_transition(Recorder { name: "global", log: log.clone() })
        .start(LightState::Off);

    assert_eq!(sm.send(LightEvent::TurnOn), Ok(LightState::Off));
    assert_eq!(sm.send(LightEvent::TurnOn), Err(TransitionError::InvalidTransition));
    assert_eq!(sm.send(LightEvent::TurnOff), Ok(LightState::On));
    assert_eq!(
        *log.borrow(),
        vec![
            "action Off->On on TurnOn".to_string(),
            "global Off->On on TurnOn ctx 1".to_string(),
            "action On->Off on TurnOff".to_string(),
            "global On->Off on TurnOff ctx 2".to_string(),
        ]
    );
}

#[test]
fn states_and_events_are_enumerated_in_table_order() {
    let sm = Machine::<_, _, (), (), ()>::new()
        .on_next(Builder::new(LightState::Off, LightState::On, LightEvent::TurnOn))
        .on_next(Builder::new(LightState::On, LightState::Off, LightEvent::TurnOff))
        .on_next(Builder::new(LightState::Off, LightState::Off, LightEvent::TurnOff))
        .start(LightState::Off);

    let mut states = sm.states();
    assert_eq!(states.next(), Some(&LightState::Off));
    assert_eq!(states.next(), Some(&LightState::On));
    assert_eq!(states.next(), None);
    assert_eq!(states.next(), None);

    let mut events = sm.events();
    assert_eq!(events.next(), Some(&LightEvent::TurnOn));
    assert_eq!(events.next(), Some(&LightEvent::TurnOff));
    assert_eq!(events.next(), Some(&LightEvent::TurnOff));
    assert_eq!(events.next(), None);

    let mut again = sm.states();
    assert_eq!(again.next(), Some(&LightState::Off));
}

#[test]
fn builder_stages_produce_the_transition() {
    let t = restate::blocking::transition::when::<u8, char, ()>('x')
        .from(1)
        .to(2)
        .is_final()
        .into_transition();
    assert_eq!(t.from, 1);
    assert_eq!(t.to, 2);
    assert_eq!(t.event, 'x');
    assert!(t.is_final);
    assert!(t.action.is_none());

    let t = restate::blocking::self_transition::<u8, char, Step>('y', 7).action(Step(1)).into_transition();
    assert_eq!(t.from, 7);
    assert_eq!(t.to, 7);
    assert_eq!(t.event, 'y');
    assert!(!t.is_final);
    assert!(t.action.is_some());
}

#[test]
fn error_messages() {
    assert_eq!(TransitionError::Done.message(), "state machine is done");
    assert_eq!(TransitionError::InvalidTransition.message(), "invalid transition");
}
