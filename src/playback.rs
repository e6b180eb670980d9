//! The decisions of animation playback. The clock values themselves are
//! floating point and stay with the caller, who hands in the outcome of each
//! comparison.

use vstd::prelude::*;

verus! {

/// What one advance of a playing animation instance does with its clip-local time.
#[derive(Debug, Clone, Copy, PartialEq, Eq, Structural)]
pub enum TimeStep {
    /// The time is kept as computed and the instance goes on playing.
    Pass,
    /// The time wraps around the clip's duration and the instance goes on playing.
    Wrap,
    /// The time is clamped to the clip's duration and the instance stops.
    Finish,
}

/// A clip without duration passes its time through; a looping clip wraps;
/// any other clip finishes once its time reaches the duration.
pub open spec fn step_for(has_duration: bool, looping: bool, reached_end: bool) -> TimeStep {
    if !has_duration {
        TimeStep::Pass
    } else if looping {
        TimeStep::Wrap
    } else if reached_end {
        TimeStep::Finish
    } else {
        TimeStep::Pass
    }
}

/// How a playing instance advances: `has_duration` says whether the clip's
/// duration is positive, `reached_end` whether the new local time is at or past it.
pub fn time_step(has_duration: bool, looping: bool, reached_end: bool) -> (r: TimeStep)
    ensures
        r == step_for(has_duration, looping, reached_end),
        r == TimeStep::Finish <==> (has_duration && !looping && reached_end),
{
    if has_duration {
        if looping {
            TimeStep::Wrap
        } else if reached_end {
            TimeStep::Finish
        } else {
            TimeStep::Pass
        }
    } else {
        TimeStep::Pass
    }
}

} // verus!
