//! The rounds that a module's task repeats: each round is a fixed sequence of stages (ask
//! for an item, read it, pass it on, ...). A failed stage ends the round early; at the end
//! of every round the task stops if it has been told to, and otherwise starts over.

use vstd::prelude::*;

verus! {

/// The stage to run after stage `stage` of a round of `stages` stages, given whether it
/// succeeded and whether the task has been told to stop; `None` when the task stops.
pub fn round_next(stage: usize, stages: usize, ok: bool, stop: bool) -> (r: Option<usize>)
    requires
        stage < stages,
    ensures
        r == if ok && stage + 1 < stages {
            Some((stage + 1) as usize)
        } else if stop {
            None
        } else {
            Some(0usize)
        },
{
    if ok && stage + 1 < stages {
        Some(stage + 1)
    } else if stop {
        None
    } else {
        Some(0)
    }
}

} // verus!
