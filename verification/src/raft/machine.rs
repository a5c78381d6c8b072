//! State machines.
use crate::datum::Duplicate;
use vstd::prelude::*;

verus! {

/// Abstraction for a state machine, to which Raft applies commands from its log
/// entries.
pub trait StateMachine: DeepView + Sized {
    /// What the log holds.
    type Command: Duplicate;

    /// What applying a command may give to the outside.
    type Output: DeepView;

    /// The state of a fresh machine.
    spec fn start() -> Self::V;

    /// The state behind a command, and what the command gives.
    spec fn applied(s: Self::V, cmd: <Self::Command as DeepView>::V) -> (
        Self::V,
        Option<<Self::Output as DeepView>::V>,
    );

    /// A fresh machine.
    fn fresh() -> (m: Self)
        ensures
            m.deep_view() == Self::start(),
    ;

    /// Applies a command.
    fn apply(&mut self, cmd: Self::Command) -> (r: Option<Self::Output>)
        ensures
            (final(self).deep_view(), r.deep_view()) == Self::applied(
                old(self).deep_view(),
                cmd.deep_view(),
            ),
    ;
}

} // verus!
