//! Saying something to the runner.
//!
//! The host's log is invisible in normal use, so a warning that went only there
//! would reach the runner as a timer that silently did not start. A timer
//! variable is shown on screen by a text component, and stays out of the
//! runner's splits file.
use vstd::prelude::*;

use crate::text::owned;
use crate::timer::TimerEvent;

verus! {

/// The variable's name, and what goes in the text component's second box.
/// Specific, so that it cannot collide with a variable the runner added by hand.
pub open spec fn variable() -> Seq<char> {
    "Timberborn Autosplitter"@
}

/// Whether `event` shows `message` to the runner.
pub open spec fn shows(event: TimerEvent, message: Seq<char>) -> bool {
    event matches TimerEvent::SetVariable { key, value } && key@ == variable() && value@ == message
}

/// Shows `message` to the runner; an empty one takes down what was shown.
///
/// Reserved for what actually affects the run: a status line that usually says
/// something is a status line nobody reads.
pub fn event(message: &str) -> (event: TimerEvent)
    ensures
        shows(event, message@),
{
    TimerEvent::SetVariable { key: owned("Timberborn Autosplitter"), value: owned(message) }
}

} // verus!
