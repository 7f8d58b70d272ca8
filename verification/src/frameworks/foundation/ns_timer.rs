//! `NSTimer`: the decisions taken when the run loop looks at a timer.
//! Times themselves are floating-point seconds and come from the clock,
//! so they are compared by the caller and handed in as answers.
use vstd::prelude::*;

verus! {

/// What is done with a timer that the run loop looks at.
#[derive(Clone, Copy, PartialEq, Eq, Structural)]
pub enum TimerAction {
    /// The timer is already running its callback: nothing, and no next
    /// firing time (a timer is never entered twice).
    AlreadyRunning,
    /// The timer was invalidated: nothing, and no next firing time.
    Invalidated,
    /// The timer is not due yet: nothing; it stays due at the same time.
    NotYetDue,
    /// A repeating timer is due: it is rescheduled, then fired.
    FireAndReschedule,
    /// A one-shot timer is due: it is taken off its run loop and left with
    /// no firing time, then fired.
    FireAndRemove,
}

/// The action for a timer, from whether it is running its callback,
/// whether it has a firing time, whether that time has come, and whether
/// it repeats.
pub open spec fn timer_action_spec(running: bool, has_due_by: bool, due_now: bool, repeats: bool) -> TimerAction {
    if running {
        TimerAction::AlreadyRunning
    } else if !has_due_by {
        TimerAction::Invalidated
    } else if !due_now {
        TimerAction::NotYetDue
    } else if repeats {
        TimerAction::FireAndReschedule
    } else {
        TimerAction::FireAndRemove
    }
}

/// The decisions of the run loop's timer handling.
pub fn timer_action(running: bool, has_due_by: bool, due_now: bool, repeats: bool) -> (a: TimerAction)
    ensures
        a == timer_action_spec(running, has_due_by, due_now, repeats),
{
    if running {
        TimerAction::AlreadyRunning
    } else if !has_due_by {
        TimerAction::Invalidated
    } else if !due_now {
        TimerAction::NotYetDue
    } else if repeats {
        TimerAction::FireAndReschedule
    } else {
        TimerAction::FireAndRemove
    }
}

} // verus!
