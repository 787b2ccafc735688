//! Supervisor state machine: decides how the proxy process terminates.
//!
//! The supervisor wires three proxied channels (client to server, server to
//! client, server diagnostics) and waits for the first of four events: one
//! of the channels finishing, or the child process exiting. The first event
//! moves the machine from `Running` to `Terminated` and fixes the exit code:
//! the child's own code when the child exited, 1 when its status is
//! unavailable or waiting for it failed, and 0 when a channel finished first.

use vstd::prelude::*;

verus! {

/// One of the three proxied channels.
#[derive(Clone, Copy, PartialEq, Eq, Structural, Debug)]
pub enum ChannelId {
    /// Bytes flowing from the client into the child's stdin.
    ClientToServer,
    /// Bytes flowing from the child's stdout back to the client.
    ServerToClient,
    /// The child's stderr, echoed for diagnostics.
    ServerDiagnostics,
}

/// The first event that ends the running phase.
pub enum SupervisorEvent {
    /// A channel's read loop finished (EOF or a transport error).
    ChannelFinished { channel: ChannelId },
    /// The child process exited; `code` is `None` when the exit status
    /// carries no code (for example, the child was killed by a signal).
    ChildExited { code: Option<i32> },
    /// Waiting for the child failed outright.
    ChildWaitFailed,
}

/// Lifecycle of the supervisor.
pub enum SupervisorState {
    /// Log sinks are being opened and the child is not yet spawned.
    Starting,
    /// The three channels and the child-exit wait are racing.
    Running,
    /// The race is decided; the process exits with `exit_code`.
    Terminated { exit_code: i32 },
}

/// The exit code that a terminating event dictates.
pub open spec fn exit_code_of(ev: SupervisorEvent) -> int {
    match ev {
        SupervisorEvent::ChannelFinished { .. } => 0,
        SupervisorEvent::ChildExited { code } => match code {
            Some(c) => c as int,
            None => 1,
        },
        SupervisorEvent::ChildWaitFailed => 1,
    }
}

impl SupervisorState {
    /// A fresh supervisor that has not yet spawned the child.
    pub fn new() -> (s: Self)
        ensures
            s is Starting,
    {
        SupervisorState::Starting
    }

    /// The child is spawned and the channels are wired: start the race.
    pub fn start(&mut self)
        requires
            *old(self) is Starting,
        ensures
            *final(self) is Running,
    {
        *self = SupervisorState::Running;
    }

    /// The first of the four raced operations finished: terminate, with
    /// the exit code the event dictates. No later event is consulted.
    pub fn on_event(&mut self, ev: &SupervisorEvent)
        requires
            *old(self) is Running,
        ensures
            *final(self) matches SupervisorState::Terminated { exit_code }
                && exit_code == exit_code_of(*ev),
    {
        let code: i32 = match ev {
            SupervisorEvent::ChannelFinished { .. } => 0,
            SupervisorEvent::ChildExited { code } => match code {
                Some(c) => *c,
                None => 1,
            },
            SupervisorEvent::ChildWaitFailed => 1,
        };
        *self = SupervisorState::Terminated { exit_code: code };
    }

    /// The decided exit code of a terminated supervisor.
    pub fn exit_code(&self) -> (r: i32)
        requires
            *self matches SupervisorState::Terminated { .. },
        ensures
            *self matches SupervisorState::Terminated { exit_code } && r == exit_code,
    {
        match self {
            SupervisorState::Terminated { exit_code } => *exit_code,
            _ => 0,
        }
    }
}

} // verus!
