//! The ways in which a scheduling call can fail.
use vstd::prelude::*;

verus! {

#[derive(Clone, Copy, Debug, PartialEq, Eq, Structural)]
pub enum ScheduleError {
    /// The task graph has a cycle, so no task order exists.
    Cycle,
    /// The topology has no device to run tasks on.
    EmptyTopology,
    /// A task is pinned to a device that the topology does not have.
    PinOutOfRange,
    /// A task's finish time is infinite or not a number: the devices it
    /// depends on cannot reach each other.
    Unreachable,
    /// A task was given a finish time before its device became free.
    FinishBeforeAvailable,
}

} // verus!
