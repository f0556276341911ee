//! The input events the frame loop consumes, and the decision they drive.
//!
//! The surrounding frame loop polls a window library for events, translates
//! them into these plain values, and acts on the decisions: stop running
//! when quitting is requested, and move the camera by each wheel delta.

use vstd::prelude::*;

verus! {

/// One input event of a frame.
#[derive(Clone, Copy, PartialEq, Eq, Structural, Debug)]
pub enum InputEvent {
    /// The window was asked to close.
    Quit,
    /// The escape key went down.
    EscapeKeyDown,
    /// The mouse wheel moved; the delta is added to the camera's
    /// z-coordinate by the caller.
    MouseWheel { delta: i32 },
    /// Any other event; ignored.
    Other,
}

/// Whether one event asks the application to stop.
pub open spec fn event_requests_quit(e: InputEvent) -> bool {
    e is Quit || e is EscapeKeyDown
}

/// Whether a frame's events ask the application to stop: a quit signal or
/// an escape key press among them does.
pub fn wants_quit(events: &Vec<InputEvent>) -> (q: bool)
    ensures
        q == exists|i: int|
            0 <= i < events@.len() && event_requests_quit(#[trigger] events@[i]),
{
    let n = events.len();
    let mut i: usize = 0;
    while i < n
        invariant
            0 <= i <= n == events@.len(),
            forall|k: int| 0 <= k < i ==> !event_requests_quit(#[trigger] events@[k]),
        decreases n - i,
    {
        let quit = match events[i] {
            InputEvent::Quit => true,
            InputEvent::EscapeKeyDown => true,
            _ => false,
        };
        if quit {
            return true;
        }
        i = i + 1;
    }
    false
}

} // verus!
