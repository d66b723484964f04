//! The steps of the server's polling loop: each step says whether the loop
//! goes on to the next step, starts over, or stops.

use vstd::prelude::*;

verus! {

/// What a step of the loop asks for.
#[derive(Debug, Clone, Copy, PartialEq, Eq, Hash, Structural)]
pub enum Action {
    /// Go on to the next step.
    Continue,
    /// Start again from the first step.
    Restart,
    /// Stop the loop.
    Quit,
}

/// The step that ends the loop once the quit signal is set.
pub fn quit_upon(signal: bool) -> (r: Action)
    ensures
        r == (if signal {
            Action::Quit
        } else {
            Action::Continue
        }),
{
    if signal {
        Action::Quit
    } else {
        Action::Continue
    }
}

/// The world-update step: after `due` world updates fell due (and were
/// run), start over; with none due, go on.
pub fn consider_world_update(due: u64) -> (r: Action)
    ensures
        r == (if due > 0 {
            Action::Restart
        } else {
            Action::Continue
        }),
{
    if due > 0 {
        Action::Restart
    } else {
        Action::Continue
    }
}

/// What a read from the listening socket gave.
#[derive(Debug, Clone, Copy, PartialEq, Eq, Hash, Structural)]
pub enum Received {
    Empty,
    Terminating,
    Success,
}

/// The network step: a message was applied, so start over; nothing came, so
/// go on; the socket is closing, so stop.
pub fn network_listen(received: Received) -> (r: Action)
    ensures
        r == match received {
            Received::Empty => Action::Continue,
            Received::Terminating => Action::Quit,
            Received::Success => Action::Restart,
        },
{
    match received {
        Received::Empty => Action::Continue,
        Received::Terminating => Action::Quit,
        Received::Success => Action::Restart,
    }
}

/// The generation step: a queued message was handled, so start over; the
/// queue was empty, so go on.
pub fn consider_gaia_update(handled: bool) -> (r: Action)
    ensures
        r == (if handled {
            Action::Restart
        } else {
            Action::Continue
        }),
{
    if handled {
        Action::Restart
    } else {
        Action::Continue
    }
}

} // verus!
