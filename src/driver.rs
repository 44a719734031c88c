//! The decisions of the driver loop: what each input event does to a running
//! session, and the session that holds the grid between ticks.

use vstd::prelude::*;
use crate::grid::{Board, Grid};

verus! {

/// The key that asks for a fresh random generation.
pub const RESET_KEY: char = ' ';

/// What the event source reports after one bounded wait.
#[derive(Clone, Copy, Debug, PartialEq, Eq, Structural)]
pub enum Event {
    /// No event came within the tick interval.
    Timeout,
    /// A key was pressed.
    Key(char),
    /// The event source failed.
    Failure,
}

#[derive(Clone, Copy, Debug, PartialEq, Eq, Structural)]
pub enum RunState {
    Running,
    Stopped,
}

/// What the loop does after a tick.
#[derive(Clone, Copy, Debug, PartialEq, Eq, Structural)]
pub enum Action {
    /// The grid advanced by one generation: render it.
    Advance,
    /// The grid was re-randomized: render it.
    Reset,
    /// The session is over.
    Quit,
    /// The session is over because the event source failed: report it.
    Fail,
}

/// Whether an action puts a new frame on the display.
pub open spec fn renders(a: Action) -> bool {
    a == Action::Advance || a == Action::Reset
}

/// The next state of the loop and its action, for a state and an event.
pub open spec fn transition(state: RunState, event: Event) -> (RunState, Action) {
    match state {
        RunState::Stopped => (RunState::Stopped, Action::Quit),
        RunState::Running => match event {
            Event::Timeout => (RunState::Running, Action::Advance),
            Event::Key(k) => if k == RESET_KEY {
                (RunState::Running, Action::Reset)
            } else {
                (RunState::Stopped, Action::Quit)
            },
            Event::Failure => (RunState::Stopped, Action::Fail),
        },
    }
}

/// Decides the next state of the loop and its action.
pub fn decide(state: RunState, event: Event) -> (r: (RunState, Action))
    ensures
        r == transition(state, event),
{
    match state {
        RunState::Stopped => (RunState::Stopped, Action::Quit),
        RunState::Running => match event {
            Event::Timeout => (RunState::Running, Action::Advance),
            Event::Key(k) => if k == RESET_KEY {
                (RunState::Running, Action::Reset)
            } else {
                (RunState::Stopped, Action::Quit)
            },
            Event::Failure => (RunState::Stopped, Action::Fail),
        },
    }
}

/// The actions that a loop in `state` takes for `events`, one per event.
pub open spec fn actions(state: RunState, events: Seq<Event>) -> Seq<Action>
    decreases events.len(),
{
    if events.len() == 0 {
        Seq::empty()
    } else {
        let (next, a) = transition(state, events[0]);
        seq![a] + actions(next, events.drop_first())
    }
}

/// The reset key keeps a running loop running and re-randomizes the grid in
/// place of a generation step.
pub proof fn lemma_reset()
    ensures
        transition(RunState::Running, Event::Key(RESET_KEY)) == (RunState::Running, Action::Reset),
{
}

/// Any key but the reset key, and a failure of the event source, stop a
/// running loop without a frame; once stopped, the loop renders nothing more,
/// whatever events follow.
pub proof fn lemma_quit(e: Event, later: Seq<Event>)
    requires
        e == Event::Failure || (e is Key && e->Key_0 != RESET_KEY),
    ensures
        transition(RunState::Running, e).0 == RunState::Stopped,
        !renders(transition(RunState::Running, e).1),
        forall|i: int|
            0 <= i < later.len() ==> !renders(#[trigger] actions(RunState::Running, seq![e] + later)[i + 1]),
{
    let rest = actions(RunState::Stopped, later);
    lemma_stopped_is_silent(later);
    assert((seq![e] + later).drop_first() =~= later);
    assert forall|i: int| 0 <= i < later.len() implies !renders(
        #[trigger] actions(RunState::Running, seq![e] + later)[i + 1],
    ) by {
        assert(actions(RunState::Running, seq![e] + later)[i + 1] == rest[i]);
    }
}

proof fn lemma_stopped_is_silent(events: Seq<Event>)
    ensures
        actions(RunState::Stopped, events).len() == events.len(),
        forall|i: int| 0 <= i < events.len() ==> !renders(#[trigger] actions(RunState::Stopped, events)[i]),
    decreases events.len(),
{
    if events.len() > 0 {
        lemma_stopped_is_silent(events.drop_first());
        let rest = actions(RunState::Stopped, events.drop_first());
        assert forall|i: int| 0 <= i < events.len() implies !renders(
            #[trigger] actions(RunState::Stopped, events)[i],
        ) by {
            if i > 0 {
                assert(actions(RunState::Stopped, events)[i] == rest[i - 1]);
            }
        }
    }
}

/// A game session: the current generation and whether the loop still runs.
pub struct GameOfLife {
    grid: Grid,
    state: RunState,
}

impl GameOfLife {
    /// The grid is well formed, as `Grid::wf` states it of the board.
    pub open spec fn wf(&self) -> bool {
        &&& self.board().wf()
        &&& self.board().cols * self.board().rows <= usize::MAX
    }

    pub closed spec fn board(&self) -> Board {
        self.grid@
    }

    pub closed spec fn state(&self) -> RunState {
        self.state
    }

    /// A running session on a `cols` by `rows` grid, with a random first
    /// generation.
    pub fn new(cols: usize, rows: usize) -> (g: GameOfLife)
        requires
            cols * rows <= usize::MAX,
        ensures
            g.wf(),
            g.state() == RunState::Running,
            g.board().cols == cols,
            g.board().rows == rows,
    {
        let mut grid = Grid::new(cols, rows);
        grid.randomize();
        GameOfLife { grid, state: RunState::Running }
    }

    /// Handles one event: a timeout advances the grid by the survival rule,
    /// the reset key re-randomizes it without advancing, and any other key or
    /// a failure of the event source stops the session.
    pub fn tick(&mut self, event: Event) -> (a: Action)
        requires
            old(self).wf(),
        ensures
            final(self).wf(),
            (final(self).state(), a) == transition(old(self).state(), event),
            a == Action::Advance ==> final(self).board() == old(self).board().life(),
            a == Action::Reset ==> final(self).board().cols == old(self).board().cols
                && final(self).board().rows == old(self).board().rows,
            !renders(a) ==> final(self).board() == old(self).board(),
    {
        let (next, a) = decide(self.state, event);
        match a {
            Action::Advance => self.grid.step(),
            Action::Reset => self.grid.randomize(),
            _ => {},
        }
        self.state = next;
        a
    }

    /// The current generation.
    pub fn grid(&self) -> (g: &Grid)
        ensures
            g@ == self.board(),
            self.wf() ==> g.wf(),
    {
        &self.grid
    }

    pub fn is_running(&self) -> (r: bool)
        ensures
            r == (self.state() == RunState::Running),
    {
        self.state == RunState::Running
    }
}

} // verus!
