//! The fixed order of work within a tick, and what ends the loop.
//!
//! The loop that drives the simulation performs one phase at a time and
//! reports how it went; the schedule answers with the phase to perform next.
//! A numeric fault degrades the tick in which it happens: the remaining
//! phases still run, but that tick sends no snapshot. A consumer that has gone
//! away stops the loop for good.
use vstd::prelude::*;

verus! {

/// The phases of a tick, in the order in which they run.
#[derive(Clone, Copy, PartialEq, Eq, Debug, Structural)]
pub enum Phase {
    Spawn,
    Integrate,
    Boundary,
    Obstacle,
    Grid,
    Collide,
    Metrics,
    Snapshot,
    Pace,
}

/// How the phase that was just performed went.
#[derive(Clone, Copy, PartialEq, Eq, Debug, Structural)]
pub enum Outcome {
    /// The phase did its work.
    Done,
    /// The phase met a numeric fault that it could not mend.
    Fault,
    /// The consumer of the snapshots has gone away.
    Disconnected,
}

/// The number of phases in a tick.
pub const PHASES: u8 = 9;

/// The place of a phase within the tick, counted from zero.
pub open spec fn ordinal(phase: Phase) -> int {
    match phase {
        Phase::Spawn => 0,
        Phase::Integrate => 1,
        Phase::Boundary => 2,
        Phase::Obstacle => 3,
        Phase::Grid => 4,
        Phase::Collide => 5,
        Phase::Metrics => 6,
        Phase::Snapshot => 7,
        Phase::Pace => 8,
    }
}

/// The phase that follows `phase`; after pacing, the next tick spawns.
pub open spec fn successor(phase: Phase) -> Phase {
    match phase {
        Phase::Spawn => Phase::Integrate,
        Phase::Integrate => Phase::Boundary,
        Phase::Boundary => Phase::Obstacle,
        Phase::Obstacle => Phase::Grid,
        Phase::Grid => Phase::Collide,
        Phase::Collide => Phase::Metrics,
        Phase::Metrics => Phase::Snapshot,
        Phase::Snapshot => Phase::Pace,
        Phase::Pace => Phase::Spawn,
    }
}

/// `successor` applied `n` times.
pub open spec fn advance_by(phase: Phase, n: nat) -> Phase
    decreases n,
{
    if n == 0 {
        phase
    } else {
        advance_by(successor(phase), (n - 1) as nat)
    }
}

impl Phase {
    /// The place of the phase within the tick, counted from zero.
    pub fn index(self) -> (i: u8)
        ensures
            i == ordinal(self),
            i < PHASES,
    {
        match self {
            Phase::Spawn => 0,
            Phase::Integrate => 1,
            Phase::Boundary => 2,
            Phase::Obstacle => 3,
            Phase::Grid => 4,
            Phase::Collide => 5,
            Phase::Metrics => 6,
            Phase::Snapshot => 7,
            Phase::Pace => 8,
        }
    }

    /// The phase that follows this one; after pacing, the next tick spawns.
    pub fn next(self) -> (phase: Phase)
        ensures
            phase == successor(self),
    {
        match self {
            Phase::Spawn => Phase::Integrate,
            Phase::Integrate => Phase::Boundary,
            Phase::Boundary => Phase::Obstacle,
            Phase::Obstacle => Phase::Grid,
            Phase::Grid => Phase::Collide,
            Phase::Collide => Phase::Metrics,
            Phase::Metrics => Phase::Snapshot,
            Phase::Snapshot => Phase::Pace,
            Phase::Pace => Phase::Spawn,
        }
    }
}

/// Where the loop stands: the phase to perform, whether the current tick has
/// met a fault, and whether the loop has stopped.
#[derive(Clone, Copy, PartialEq, Eq, Debug, Structural)]
pub struct Schedule {
    pub phase: Phase,
    pub degraded: bool,
    pub stopped: bool,
}

/// The schedule after `phase` of `state` has been performed with `outcome`.
pub open spec fn after(state: Schedule, outcome: Outcome) -> Schedule {
    if state.stopped {
        state
    } else if outcome == Outcome::Disconnected {
        Schedule { phase: state.phase, degraded: state.degraded, stopped: true }
    } else {
        let degraded = state.degraded || outcome == Outcome::Fault;
        let next = successor(state.phase);
        if next == Phase::Spawn {
            Schedule { phase: Phase::Spawn, degraded: false, stopped: false }
        } else if next == Phase::Snapshot && degraded {
            Schedule { phase: Phase::Pace, degraded: true, stopped: false }
        } else {
            Schedule { phase: next, degraded, stopped: false }
        }
    }
}

/// The schedule after a run of outcomes, the first outcome first.
pub open spec fn after_all(state: Schedule, outcomes: Seq<Outcome>) -> Schedule
    decreases outcomes.len(),
{
    if outcomes.len() == 0 {
        state
    } else {
        after_all(after(state, outcomes.first()), outcomes.drop_first())
    }
}

impl Schedule {
    /// A loop about to begin its first tick.
    pub fn new() -> (start: Schedule)
        ensures
            start == (Schedule { phase: Phase::Spawn, degraded: false, stopped: false }),
    {
        Schedule { phase: Phase::Spawn, degraded: false, stopped: false }
    }

    /// The phase to perform now, or nothing once the loop has stopped.
    pub fn current(&self) -> (phase: Option<Phase>)
        ensures
            self.stopped ==> phase.is_none(),
            !self.stopped ==> phase == Some(self.phase),
    {
        if self.stopped {
            None
        } else {
            Some(self.phase)
        }
    }

    /// Takes note of how the current phase went and returns the phase to
    /// perform next, or nothing once the loop has stopped.
    pub fn advance(&mut self, outcome: Outcome) -> (phase: Option<Phase>)
        ensures
            *final(self) == after(*old(self), outcome),
            final(self).stopped ==> phase.is_none(),
            !final(self).stopped ==> phase == Some(final(self).phase),
    {
        if self.stopped {
            return None;
        }
        match outcome {
            Outcome::Disconnected => {
                self.stopped = true;
                None
            },
            Outcome::Done | Outcome::Fault => {
                let degraded = self.degraded || outcome == Outcome::Fault;
                let next = self.phase.next();
                if next == Phase::Spawn {
                    self.phase = Phase::Spawn;
                    self.degraded = false;
                } else if next == Phase::Snapshot && degraded {
                    self.phase = Phase::Pace;
                    self.degraded = true;
                } else {
                    self.phase = next;
                    self.degraded = degraded;
                }
                Some(self.phase)
            },
        }
    }
}

/// The phases follow each other round a cycle of nine: each step moves one
/// place on, and the ninth returns to the phase it set out from.
pub proof fn lemma_phase_cycle(phase: Phase)
    ensures
        ordinal(successor(phase)) == (ordinal(phase) + 1) % 9,
        advance_by(phase, 9) == phase,
        forall|n: nat| 0 < n < 9 ==> advance_by(phase, n) != phase,
{
    lemma_steps(phase, 9);
    lemma_ordinal_names(advance_by(phase, 9), phase);
    assert forall|n: nat| 0 < n < 9 implies advance_by(phase, n) != phase by {
        lemma_steps(phase, n);
    }
}

/// Two phases at the same place in the tick are the same phase.
pub proof fn lemma_ordinal_names(first: Phase, second: Phase)
    requires
        ordinal(first) == ordinal(second),
    ensures
        first == second,
{
}

/// `n` steps move a phase `n` places round the cycle.
pub proof fn lemma_steps(phase: Phase, n: nat)
    ensures
        ordinal(advance_by(phase, n)) == (ordinal(phase) + n) % 9,
    decreases n,
{
    if n > 0 {
        lemma_steps(successor(phase), (n - 1) as nat);
    }
}

/// A stopped loop stays stopped and performs nothing more, whatever it is
/// told.
pub proof fn lemma_stopped_stays(state: Schedule, outcomes: Seq<Outcome>)
    requires
        state.stopped,
    ensures
        after_all(state, outcomes) == state,
    decreases outcomes.len(),
{
    if outcomes.len() > 0 {
        lemma_stopped_stays(state, outcomes.drop_first());
    }
}

/// The snapshot phase is only ever reached in a tick that has met no fault:
/// a degraded tick sends nothing.
pub proof fn lemma_degraded_sends_nothing(state: Schedule, outcome: Outcome)
    requires
        !state.stopped,
        after(state, outcome).phase == Phase::Snapshot,
        !after(state, outcome).stopped,
    ensures
        !state.degraded,
        outcome == Outcome::Done,
        state.phase == Phase::Metrics,
        !after(state, outcome).degraded,
{
}

/// A tick in which every phase does its work performs each phase exactly
/// once, in order, and leaves the loop at the start of the next tick: the
/// obstacle in particular is stepped once per tick, however many particles
/// touched it.
pub proof fn lemma_clean_tick(k: nat)
    requires
        k <= 9,
    ensures
        k < 9 ==> after_all(
            Schedule { phase: Phase::Spawn, degraded: false, stopped: false },
            Seq::new(k, |i: int| Outcome::Done),
        ) == (Schedule { phase: advance_by(Phase::Spawn, k), degraded: false, stopped: false }),
        k < 9 ==> ordinal(advance_by(Phase::Spawn, k)) == k,
        k == 9 ==> after_all(
            Schedule { phase: Phase::Spawn, degraded: false, stopped: false },
            Seq::new(k, |i: int| Outcome::Done),
        ) == (Schedule { phase: Phase::Spawn, degraded: false, stopped: false }),
{
    let start = Schedule { phase: Phase::Spawn, degraded: false, stopped: false };
    lemma_run(start, k);
    lemma_steps(Phase::Spawn, k);
    if k == 9 {
        lemma_ordinal_names(advance_by(Phase::Spawn, 9), Phase::Spawn);
    }
}

/// After `k` clean phases from the start of a tick the loop has moved `k`
/// places on.
proof fn lemma_run(state: Schedule, k: nat)
    requires
        !state.stopped,
        !state.degraded,
        ordinal(state.phase) + k <= 9,
    ensures
        after_all(state, Seq::new(k, |i: int| Outcome::Done)) == (Schedule {
            phase: advance_by(state.phase, k),
            degraded: false,
            stopped: false,
        }),
    decreases k,
{
    let run = Seq::new(k, |i: int| Outcome::Done);
    if k > 0 {
        assert(run.first() == Outcome::Done);
        assert(run.drop_first() =~= Seq::new((k - 1) as nat, |i: int| Outcome::Done));
        let next = after(state, Outcome::Done);
        if successor(state.phase) == Phase::Spawn {
            assert(k == 1);
            assert(after_all(next, Seq::new(0, |i: int| Outcome::Done)) == next);
            reveal_with_fuel(advance_by, 2);
        } else {
            lemma_run(next, (k - 1) as nat);
        }
    }
}

} // verus!
