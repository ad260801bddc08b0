//! The start barrier of a command and the supervision of its processes.

use vstd::prelude::*;

verus! {

/// How long a process has between being asked to end and being killed.
pub const TERMINATE_GRACE_MS: u64 = 250;

/// A signal for a process group.
#[derive(Clone, Copy, Debug, PartialEq, Eq, Structural)]
pub enum GroupSignal {
    Terminate,
    Kill,
}

/// What stands between a command's spawn and its program.
#[derive(Clone, Copy, Debug, PartialEq, Eq, Structural)]
pub enum LaunchBarrier {
    Pending,
    Released,
    Cancelled,
}

/// Opens the barrier, unless the command was cancelled first.
pub fn release_barrier(barrier: &mut LaunchBarrier) -> (released: bool)
    ensures
        released == (*old(barrier) == LaunchBarrier::Pending),
        *final(barrier) == if released {
            LaunchBarrier::Released
        } else {
            *old(barrier)
        },
{
    if *barrier == LaunchBarrier::Pending {
        *barrier = LaunchBarrier::Released;
        true
    } else {
        false
    }
}

/// Keeps the barrier from opening, unless it is open already.
pub fn cancel_barrier(barrier: &mut LaunchBarrier)
    ensures
        *final(barrier) == if *old(barrier) == LaunchBarrier::Pending {
            LaunchBarrier::Cancelled
        } else {
            *old(barrier)
        },
{
    if *barrier == LaunchBarrier::Pending {
        *barrier = LaunchBarrier::Cancelled;
    }
}

/// What is known of a running command's end.
#[derive(Clone, Copy, Debug, PartialEq, Eq, Structural)]
pub struct Supervisor {
    /// How long the command may run.
    pub timeout_ms: Option<u64>,
    pub timed_out: bool,
    pub cancelled: bool,
    /// When the command was asked to end.
    pub terminating_since: Option<u64>,
}

/// The supervisor after a look at a running command, `elapsed` milliseconds
/// after its start.
pub open spec fn supervised(supervisor: Supervisor, elapsed: u64, cancel: bool) -> Supervisor {
    let timed_out = supervisor.timed_out || (supervisor.timeout_ms is Some && elapsed
        >= supervisor.timeout_ms->Some_0);
    Supervisor {
        timeout_ms: supervisor.timeout_ms,
        timed_out,
        cancelled: cancel,
        terminating_since: if (timed_out || cancel) && supervisor.terminating_since is None {
            Some(elapsed)
        } else {
            supervisor.terminating_since
        },
    }
}

/// The signal that a look at a running command calls for: a request to end when
/// its time is up or it was cancelled, and a kill once the grace has passed.
pub open spec fn supervision_signal(supervisor: Supervisor, elapsed: u64, cancel: bool) -> Option<
    GroupSignal,
> {
    let next = supervised(supervisor, elapsed, cancel);
    match supervisor.terminating_since {
        None => if next.terminating_since is Some {
            Some(GroupSignal::Terminate)
        } else {
            None
        },
        Some(since) => if elapsed - since >= TERMINATE_GRACE_MS {
            Some(GroupSignal::Kill)
        } else {
            None
        },
    }
}

impl Supervisor {
    /// Nothing is known yet.
    pub fn new(timeout_ms: Option<u64>) -> (supervisor: Supervisor)
        ensures
            supervisor == (Supervisor {
                timeout_ms,
                timed_out: false,
                cancelled: false,
                terminating_since: None,
            }),
    {
        Supervisor { timeout_ms, timed_out: false, cancelled: false, terminating_since: None }
    }

    /// Looks at a running command.
    pub fn poll(&mut self, elapsed: u64, cancel: bool) -> (signal: Option<GroupSignal>)
        ensures
            *final(self) == supervised(*old(self), elapsed, cancel),
            signal == supervision_signal(*old(self), elapsed, cancel),
    {
        if let Some(timeout) = self.timeout_ms {
            if elapsed >= timeout {
                self.timed_out = true;
            }
        }
        self.cancelled = cancel;
        match self.terminating_since {
            None => {
                if self.timed_out || self.cancelled {
                    self.terminating_since = Some(elapsed);
                    Some(GroupSignal::Terminate)
                } else {
                    None
                }
            },
            Some(since) => {
                if elapsed >= since && elapsed - since >= TERMINATE_GRACE_MS {
                    Some(GroupSignal::Kill)
                } else {
                    None
                }
            },
        }
    }
}

/// How far the ending of processes has come.
#[derive(Clone, Copy, Debug, PartialEq, Eq, Structural)]
pub enum Escalation {
    /// Nothing was sent.
    Fresh,
    /// They were asked to end.
    Asked,
    /// They were killed.
    Killed,
    /// They are gone, or nothing more can be done.
    Over,
}

/// What the ending of processes comes to next, given whether any is alive and
/// for how long the present stage has lasted.
pub open spec fn escalated(stage: Escalation, alive: bool, waited: u64) -> (
    Escalation,
    Option<GroupSignal>,
) {
    match stage {
        Escalation::Fresh => if alive {
            (Escalation::Asked, Some(GroupSignal::Terminate))
        } else {
            (Escalation::Over, None)
        },
        Escalation::Asked => if !alive {
            (Escalation::Over, None)
        } else if waited >= TERMINATE_GRACE_MS {
            (Escalation::Killed, Some(GroupSignal::Kill))
        } else {
            (Escalation::Asked, None)
        },
        Escalation::Killed => if !alive || waited >= TERMINATE_GRACE_MS {
            (Escalation::Over, None)
        } else {
            (Escalation::Killed, None)
        },
        Escalation::Over => (Escalation::Over, None),
    }
}

/// Decides what the ending of processes comes to next.
pub fn escalate(stage: Escalation, alive: bool, waited: u64) -> (next: (
    Escalation,
    Option<GroupSignal>,
))
    ensures
        next == escalated(stage, alive, waited),
{
    match stage {
        Escalation::Fresh => if alive {
            (Escalation::Asked, Some(GroupSignal::Terminate))
        } else {
            (Escalation::Over, None)
        },
        Escalation::Asked => if !alive {
            (Escalation::Over, None)
        } else if waited >= TERMINATE_GRACE_MS {
            (Escalation::Killed, Some(GroupSignal::Kill))
        } else {
            (Escalation::Asked, None)
        },
        Escalation::Killed => if !alive || waited >= TERMINATE_GRACE_MS {
            (Escalation::Over, None)
        } else {
            (Escalation::Killed, None)
        },
        Escalation::Over => (Escalation::Over, None),
    }
}

/// A process is killed only after it was asked to end and had its grace.
pub proof fn a_kill_follows_a_request(stage: Escalation, alive: bool, waited: u64)
    requires
        escalated(stage, alive, waited).1 == Some(GroupSignal::Kill),
    ensures
        stage == Escalation::Asked,
        alive,
        waited >= TERMINATE_GRACE_MS,
{
}

} // verus!
