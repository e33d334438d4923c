//! The phrase cycle of the frame loop: each phrase holds, recedes, and the
//! next one comes forward. The loop times the phases; this module decides
//! what follows.

use vstd::prelude::*;

verus! {

/// Where the phrase cycle stands.
#[derive(Clone, Copy, Debug, PartialEq, Eq, Structural)]
pub enum CyclePhase {
    /// The phrase rests in place.
    Hold,
    /// The phrase fades out and recedes.
    Exit,
    /// The next phrase fades in and comes forward.
    Enter,
}

/// What a frame reports to the cycle.
#[derive(Clone, Copy, Debug, PartialEq, Eq, Structural)]
pub enum CycleEvent {
    /// The intro is still playing: the cycle is held at its start.
    Intro,
    /// The cycle runs; `expired` says the current phase has run its length.
    Running { expired: bool },
}

/// What the frame loop does after a step of the cycle.
#[derive(Clone, Copy, Debug, PartialEq, Eq, Structural)]
pub struct CycleStep {
    /// The phase from now on.
    pub phase: CyclePhase,
    /// Start timing the phase afresh from this frame.
    pub restart_clock: bool,
    /// Swap in the next phrase (the old one has just gone out of sight).
    pub swap: bool,
}

/// The phase that follows `p`.
pub open spec fn following(p: CyclePhase) -> CyclePhase {
    match p {
        CyclePhase::Hold => CyclePhase::Exit,
        CyclePhase::Exit => CyclePhase::Enter,
        CyclePhase::Enter => CyclePhase::Hold,
    }
}

/// One frame of the phrase cycle. During the intro the cycle stays in hold
/// and its clock keeps restarting; afterwards a phase that has run its
/// length hands over to the next one (hold, exit, enter, hold, …) and
/// restarts the clock, and the change from exit to enter swaps the phrase.
pub fn cycle_step(phase: CyclePhase, event: CycleEvent) -> (r: CycleStep)
    ensures
        event is Intro ==> r == (CycleStep { phase: CyclePhase::Hold, restart_clock: true, swap: false }),
        event matches CycleEvent::Running { expired } && !expired ==> r == (CycleStep {
            phase,
            restart_clock: false,
            swap: false,
        }),
        event matches CycleEvent::Running { expired } && expired ==> r == (CycleStep {
            phase: following(phase),
            restart_clock: true,
            swap: phase is Exit,
        }),
{
    match event {
        CycleEvent::Intro => CycleStep { phase: CyclePhase::Hold, restart_clock: true, swap: false },
        CycleEvent::Running { expired } => {
            if !expired {
                CycleStep { phase, restart_clock: false, swap: false }
            } else {
                match phase {
                    CyclePhase::Hold => CycleStep { phase: CyclePhase::Exit, restart_clock: true, swap: false },
                    CyclePhase::Exit => CycleStep { phase: CyclePhase::Enter, restart_clock: true, swap: true },
                    CyclePhase::Enter => CycleStep { phase: CyclePhase::Hold, restart_clock: true, swap: false },
                }
            }
        },
    }
}

/// The phrase after phrase `index` in a list of `count`, wrapping round.
pub fn next_index(index: usize, count: usize) -> (r: usize)
    requires
        count > 0,
        index < usize::MAX,
    ensures
        r == (index + 1) % (count as int),
        r < count,
{
    (index + 1) % count
}

/// Law: from any phase, three expired phases in a row come back to it, and
/// exactly one of the three swaps the phrase.
pub proof fn law_cycle_returns(p: CyclePhase)
    ensures
        following(following(following(p))) == p,
        (p is Exit) as int + (following(p) is Exit) as int + (following(following(p)) is Exit) as int == 1,
{
}

} // verus!
