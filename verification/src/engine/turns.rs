//! When the serving loop polls, waits, steps and stops.
use vstd::prelude::*;

verus! {

/// What the loop does next.
#[derive(Debug, Clone, Copy, PartialEq, Eq, Structural)]
pub enum Turn {
    /// Take a pending command, if there is one. `stopping` once a command has
    /// asked the engine to stop.
    Drain { stopping: bool },
    /// Block until a command arrives.
    Wait,
    /// Run one step.
    Step,
    /// Leave the loop.
    Stop,
}

/// How a turn came out.
#[derive(Debug, Clone, Copy, PartialEq, Eq, Structural)]
pub enum Outcome {
    /// A command was taken and handled; `stop` where it asks the engine to stop.
    Handled { stop: bool },
    /// No command is pending.
    Empty,
    /// Nobody is left to send a command.
    Closed,
    /// A step was run.
    Stepped,
}

impl Turn {
    /// The turn that follows. Every pending command is drained before a step, so
    /// a burst of arrivals is batched into one step rather than one step each.
    /// An engine with nothing to do blocks instead of spinning through empty
    /// steps.
    pub open spec fn after(self, outcome: Outcome, idle: bool) -> Turn {
        match (self, outcome) {
            (Turn::Drain { stopping }, Outcome::Handled { stop }) => Turn::Drain {
                stopping: stopping || stop,
            },
            (Turn::Drain { stopping }, Outcome::Empty) => if stopping {
                Turn::Stop
            } else if idle {
                Turn::Wait
            } else {
                Turn::Step
            },
            (Turn::Wait, Outcome::Handled { stop }) => if stop {
                Turn::Stop
            } else {
                Turn::Drain { stopping: false }
            },
            (Turn::Wait, Outcome::Empty) => Turn::Wait,
            (Turn::Step, _) => Turn::Drain { stopping: false },
            (Turn::Drain { .. }, Outcome::Stepped) => self,
            (Turn::Wait, Outcome::Stepped) => self,
            (Turn::Stop, _) => Turn::Stop,
            (_, Outcome::Closed) => Turn::Stop,
        }
    }

    /// The first turn of a loop.
    pub fn first() -> (r: Self)
        ensures
            r == (Turn::Drain { stopping: false }),
    {
        Turn::Drain { stopping: false }
    }

    /// The turn that follows. `idle` is whether the engine has nothing to do.
    pub fn next(self, outcome: Outcome, idle: bool) -> (r: Self)
        ensures
            r == self.after(outcome, idle),
    {
        match (self, outcome) {
            (Turn::Drain { stopping }, Outcome::Handled { stop }) => Turn::Drain {
                stopping: stopping || stop,
            },
            (Turn::Drain { stopping }, Outcome::Empty) => if stopping {
                Turn::Stop
            } else if idle {
                Turn::Wait
            } else {
                Turn::Step
            },
            (Turn::Wait, Outcome::Handled { stop }) => if stop {
                Turn::Stop
            } else {
                Turn::Drain { stopping: false }
            },
            (Turn::Wait, Outcome::Empty) => Turn::Wait,
            (Turn::Step, _) => Turn::Drain { stopping: false },
            (Turn::Drain { .. }, Outcome::Stepped) => self,
            (Turn::Wait, Outcome::Stepped) => self,
            (Turn::Stop, _) => Turn::Stop,
            (_, Outcome::Closed) => Turn::Stop,
        }
    }
}

/// A step is run only with no command pending, and only where there is
/// something to run.
pub proof fn law_pending_commands_come_before_a_step(turn: Turn, outcome: Outcome, idle: bool)
    requires
        turn.after(outcome, idle) == Turn::Step,
    ensures
        outcome == Outcome::Empty,
        !idle,
{
}

/// An engine that was asked to stop runs no further step: it handles what is
/// pending and leaves the loop.
pub proof fn law_a_stop_is_not_forgotten(outcome: Outcome, idle: bool)
    ensures
        (Turn::Drain { stopping: true }).after(outcome, idle) == Turn::Stop
            || (Turn::Drain { stopping: true }).after(outcome, idle) == (Turn::Drain {
            stopping: true,
        }),
        Turn::Stop.after(outcome, idle) == Turn::Stop,
{
}

/// The loop blocks exactly where nothing is pending and there is nothing to do.
pub proof fn law_an_idle_engine_blocks(turn: Turn, outcome: Outcome, idle: bool)
    requires
        turn != Turn::Wait,
    ensures
        turn.after(outcome, idle) == Turn::Wait <==> turn == (Turn::Drain { stopping: false })
            && outcome == Outcome::Empty && idle,
{
}

/// Each outcome leads on: a command that was taken leads back to draining, and is
/// remembered where it asked to stop; a step leads back to draining; a command that
/// ends a wait leads to draining or, where it asked to stop, out of the loop; and
/// where nobody is left to send one, the loop ends.
pub proof fn law_outcomes_lead_on(stopping: bool, stop: bool, outcome: Outcome, idle: bool)
    ensures
        (Turn::Drain { stopping }).after(Outcome::Handled { stop }, idle) == (Turn::Drain {
            stopping: stopping || stop,
        }),
        (Turn::Drain { stopping: true }).after(Outcome::Empty, idle) == Turn::Stop,
        (Turn::Drain { stopping: false }).after(Outcome::Empty, true) == Turn::Wait,
        (Turn::Drain { stopping: false }).after(Outcome::Empty, false) == Turn::Step,
        (Turn::Drain { stopping }).after(Outcome::Closed, idle) == Turn::Stop,
        Turn::Wait.after(Outcome::Handled { stop: true }, idle) == Turn::Stop,
        Turn::Wait.after(Outcome::Handled { stop: false }, idle) == (Turn::Drain {
            stopping: false,
        }),
        Turn::Wait.after(Outcome::Empty, idle) == Turn::Wait,
        Turn::Wait.after(Outcome::Closed, idle) == Turn::Stop,
        Turn::Step.after(outcome, idle) == (Turn::Drain { stopping: false }),
{
}

} // verus!
