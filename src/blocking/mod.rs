pub mod transition;
pub use transition::{self_transition, Transition, IntoTransition, Builder, HasFrom, HasTo, CanBuild};

mod on_transition;
pub use on_transition::OnTransition;

mod on_action;
pub use on_action::OnAction;

mod context;

mod machine;
pub use machine::{Machine, Next, Build, Ready, rule};
pub use context::{Context, ContextMut};
