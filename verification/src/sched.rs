//! The poll loop's state machine: what one cycle decides, and how the
//! loop state moves on the events that can reach it.
//!
//! The surrounding program runs the loop: it acquires a snapshot,
//! calls `plan_cycle`, performs the returned action (emit the tree,
//! report, or exit), and waits for the polling interval with the
//! cancellation notification racing the timer.  Everything decided
//! here is pure and verified; the waiting and the delivery are not
//! decisions and stay outside.

use vstd::prelude::*;
use crate::record::{ProcessRecord, snap_view, snap_has};
use crate::guard::{spec_orphaned, is_orphaned};
use crate::tree::{ProcessNode, spec_build, build_process_tree};

verus! {

/// The loop's state.  `Running` polls; `Stopping` is reached when a
/// cancellation arrived and the current wait unwinds; `Stopped` is
/// terminal.
#[derive(Clone, Copy, PartialEq, Eq, Structural, Debug)]
pub enum LoopState {
    Running,
    Stopping,
    Stopped,
}

/// What can happen to the loop during one cycle: the user cancelled
/// (at any time, including mid-wait), the polling interval elapsed
/// with no cancellation, or the guard found the monitor orphaned.
#[derive(Clone, Copy, PartialEq, Eq, Structural, Debug)]
pub enum LoopEvent {
    Cancelled,
    IntervalElapsed,
    OrphanDetected,
}

/// What one cycle asks the surrounding program to do.
pub enum CycleOutcome {
    /// Report the orphan diagnostic and exit successfully, taking no
    /// further snapshot.
    ExitOrphaned,
    /// Deliver this tree on the structured output.
    Emit(ProcessNode),
    /// Report that no process carries the target identifier, then
    /// keep polling.
    ReportMissing,
}

/// Where the loop goes on an event.  Cancellation always takes a
/// running loop out of its cycle at once: no further polling follows.
pub open spec fn spec_next_state(st: LoopState, ev: LoopEvent) -> LoopState {
    match st {
        LoopState::Running => match ev {
            LoopEvent::Cancelled => LoopState::Stopping,
            LoopEvent::IntervalElapsed => LoopState::Running,
            LoopEvent::OrphanDetected => LoopState::Stopped,
        },
        LoopState::Stopping => LoopState::Stopped,
        LoopState::Stopped => LoopState::Stopped,
    }
}

/// The loop's transition function.
pub fn next_state(st: LoopState, ev: LoopEvent) -> (r: LoopState)
    ensures
        r == spec_next_state(st, ev),
{
    match st {
        LoopState::Running => match ev {
            LoopEvent::Cancelled => LoopState::Stopping,
            LoopEvent::IntervalElapsed => LoopState::Running,
            LoopEvent::OrphanDetected => LoopState::Stopped,
        },
        LoopState::Stopping => LoopState::Stopped,
        LoopState::Stopped => LoopState::Stopped,
    }
}

/// Whether the loop takes another cycle in this state.
pub fn continues(st: LoopState) -> (r: bool)
    ensures
        r == (st is Running),
{
    match st {
        LoopState::Running => true,
        LoopState::Stopping => false,
        LoopState::Stopped => false,
    }
}

/// Decides one cycle from its snapshot: exit if the monitor is
/// orphaned (checked first, so an orphaned monitor never builds a
/// tree); otherwise emit the target's tree when the target is
/// present, and report it missing when it is not.  A missing target
/// never stops the loop: it may appear in a later snapshot.
pub fn plan_cycle(snapshot: &Vec<ProcessRecord>, own_pid: u32, init_pid: u32, target: u32) -> (r:
    CycleOutcome)
    ensures
        ({
            let sv = snap_view(snapshot@);
            &&& (r is ExitOrphaned <==> spec_orphaned(sv, own_pid, init_pid))
            &&& (r is Emit <==> !spec_orphaned(sv, own_pid, init_pid) && snap_has(sv, target))
            &&& (r matches CycleOutcome::Emit(n) ==> Option::Some(n@) == spec_build(sv, target))
            &&& (r is ReportMissing <==> !spec_orphaned(sv, own_pid, init_pid) && !snap_has(
                sv,
                target,
            ))
        }),
{
    if is_orphaned(snapshot, own_pid, init_pid) {
        CycleOutcome::ExitOrphaned
    } else {
        match build_process_tree(snapshot, target) {
            Option::Some(node) => CycleOutcome::Emit(node),
            Option::None => CycleOutcome::ReportMissing,
        }
    }
}

} // verus!
