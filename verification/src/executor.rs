//! The one command that the broker runs at a time, and who may do what to it.

use vstd::prelude::*;
use vstd::string::*;

use crate::denial_collector::{CollectorState, DenialCollector};
use crate::lifecycle::{cancel_barrier, release_barrier, LaunchBarrier};
use crate::pid_tracker::ProcessGuard;
use crate::protocol::ErrorCode;
use crate::text::{joined, same_text};

verus! {

/// How long the broker waits at its end for its command, in milliseconds.
pub const SHUTDOWN_WAIT_MS: u64 = 3_000;

/// The command that runs.
#[derive(Debug)]
pub struct CommandControl {
    pub id: String,
    /// Tells this command from others with the same ID.
    pub token: u64,
    pub cancel: bool,
    pub pid: i32,
    pub root: Option<ProcessGuard>,
    /// Whether bytes can be written to the command.
    pub stdin_open: bool,
    pub launch: LaunchBarrier,
}

/// The command that runs.
pub struct ControlModel {
    pub id: Seq<char>,
    pub token: u64,
    pub cancel: bool,
    pub pid: i32,
    pub root: Option<ProcessGuard>,
    pub stdin_open: bool,
    pub launch: LaunchBarrier,
}

impl View for CommandControl {
    type V = ControlModel;

    open spec fn view(&self) -> ControlModel {
        ControlModel {
            id: self.id@,
            token: self.token,
            cancel: self.cancel,
            pid: self.pid,
            root: self.root,
            stdin_open: self.stdin_open,
            launch: self.launch,
        }
    }
}

/// What the broker knows of its command, and the collector of its denials.
pub struct Runtime {
    pub active: Option<CommandControl>,
    pub next_token: u64,
    pub denial_collector: Option<DenialCollector>,
}

/// What the broker knows of its command, and the collector of its denials.
pub struct RuntimeState {
    pub active: Option<ControlModel>,
    pub next_token: u64,
    pub denial_collector: Option<CollectorState>,
}

impl View for Runtime {
    type V = RuntimeState;

    open spec fn view(&self) -> RuntimeState {
        RuntimeState {
            active: match self.active {
                Some(active) => Some(active@),
                None => None,
            },
            next_token: self.next_token,
            denial_collector: match self.denial_collector {
                Some(collector) => Some(collector@),
                None => None,
            },
        }
    }
}

/// The command just after it was accepted.
pub open spec fn fresh_control(id: Seq<char>, token: u64) -> ControlModel {
    ControlModel {
        id,
        token,
        cancel: false,
        pid: 0,
        root: None,
        stdin_open: false,
        launch: LaunchBarrier::Pending,
    }
}

impl ControlModel {
    /// The command after it was asked to end.
    pub open spec fn cancelled(self) -> ControlModel {
        ControlModel {
            cancel: true,
            launch: if self.launch == LaunchBarrier::Pending {
                LaunchBarrier::Cancelled
            } else {
                self.launch
            },
            ..self
        }
    }

    /// The command without a process.
    pub open spec fn cleared(self) -> ControlModel {
        ControlModel { pid: 0, root: None, stdin_open: false, ..self }
    }
}

impl RuntimeState {
    /// Whether a command with this token runs.
    pub open spec fn is_held_by(self, token: u64) -> bool {
        match self.active {
            Some(active) => active.token == token,
            None => false,
        }
    }

    /// The runtime with its command changed.
    pub open spec fn with(self, control: ControlModel) -> RuntimeState {
        RuntimeState { active: Some(control), ..self }
    }

    /// What there is to say against starting a command.
    pub open spec fn start_problem(self, id: Seq<char>) -> Option<(ErrorCode, Seq<char>)> {
        match self.active {
            Some(active) => Some(
                if active.id == id {
                    (ErrorCode::DuplicateCommandId, "duplicate active command ID: "@ + id)
                } else {
                    (
                        ErrorCode::InvalidRequest,
                        "protocol v4 permits one active command per broker"@,
                    )
                },
            ),
            None => None,
        }
    }

    /// The runtime after a command was started.
    pub open spec fn started(self, id: Seq<char>) -> RuntimeState {
        RuntimeState {
            active: Some(fresh_control(id, self.next_token)),
            next_token: if self.next_token == u64::MAX {
                0
            } else {
                (self.next_token + 1) as u64
            },
            ..self
        }
    }

    /// The runtime after its command was asked to end.
    pub open spec fn cancelled(self) -> RuntimeState {
        match self.active {
            Some(active) => self.with(active.cancelled()),
            None => self,
        }
    }

    /// What there is to say against ending a command.
    pub open spec fn cancel_problem(self, id: Seq<char>) -> Option<(ErrorCode, Seq<char>)> {
        match self.active {
            Some(active) if active.id != id => Some(
                (ErrorCode::NotFound, "command is not active: "@ + id),
            ),
            _ => None,
        }
    }

    /// What there is to say against writing to a command.
    pub open spec fn stdin_problem(self, id: Seq<char>) -> Option<(ErrorCode, Seq<char>)> {
        match self.active {
            Some(active) if active.id == id => if active.stdin_open {
                None
            } else {
                Some((ErrorCode::InvalidRequest, "command stdin is not open: "@ + id))
            },
            _ => Some((ErrorCode::NotFound, "command is not active: "@ + id)),
        }
    }

    /// The process group to signal: that of the command's root, as long as the
    /// process that now has its ID is the root.
    pub open spec fn signalled_group(self, now: Option<ProcessGuard>) -> Option<i32> {
        match self.active {
            Some(active) if active.pid > 0 && active.root is Some && now == active.root => Some(
                active.pid,
            ),
            _ => None,
        }
    }

    /// The runtime after the command with this token has ended.
    pub open spec fn finished(self, token: u64) -> RuntimeState {
        if self.is_held_by(token) {
            RuntimeState { active: None, ..self }
        } else {
            self
        }
    }
}

/// An error as the protocol tells of it.
pub open spec fn problem_model<T>(result: Result<T, (ErrorCode, String)>) -> Option<
    (ErrorCode, Seq<char>),
> {
    match result {
        Ok(_) => None,
        Err((code, message)) => Some((code, message@)),
    }
}

/// What to do at the end of the broker.
#[derive(Clone, Copy, Debug, PartialEq, Eq, Structural)]
pub enum IdleStep {
    /// No command runs.
    Idle,
    /// The command has had its time: kill its processes and wait no longer.
    Kill,
    /// Wait for the command, for at most so many milliseconds.
    Wait(u64),
}

/// What to do at the end of the broker.
pub open spec fn idle_step(busy: bool, now: u64, deadline: u64) -> IdleStep {
    if !busy {
        IdleStep::Idle
    } else if now >= deadline {
        IdleStep::Kill
    } else {
        IdleStep::Wait((deadline - now) as u64)
    }
}

impl Runtime {
    /// A runtime without a command that collects no denials.
    pub fn new() -> (runtime: Runtime)
        ensures
            runtime@ == (RuntimeState { active: None, next_token: 0, denial_collector: None }),
    {
        Runtime::new_with_collector(None)
    }

    /// A runtime without a command.
    pub fn new_with_collector(denial_collector: Option<DenialCollector>) -> (runtime: Runtime)
        ensures
            runtime@ == (RuntimeState {
                active: None,
                next_token: 0,
                denial_collector: match denial_collector {
                    Some(collector) => Some(collector@),
                    None => None,
                },
            }),
    {
        Runtime { active: None, next_token: 0, denial_collector }
    }

    /// Accepts a command, unless one runs, and hands out its token.
    pub fn start(&mut self, id: &str) -> (started: Result<u64, (ErrorCode, String)>)
        ensures
            problem_model(started) == old(self)@.start_problem(id@),
            match started {
                Ok(token) => token == old(self)@.next_token && final(self)@ == old(self)@.started(
                    id@,
                ),
                Err(_) => final(self)@ == old(self)@,
            },
    {
        if let Some(active) = &self.active {
            return Err(
                if same_text(active.id.as_str(), id) {
                    (ErrorCode::DuplicateCommandId, joined("duplicate active command ID: ", id))
                } else {
                    (
                        ErrorCode::InvalidRequest,
                        "protocol v4 permits one active command per broker".to_owned(),
                    )
                },
            );
        }
        let token = self.next_token;
        self.active = Some(
            CommandControl {
                id: id.to_owned(),
                token,
                cancel: false,
                pid: 0,
                root: None,
                stdin_open: false,
                launch: LaunchBarrier::Pending,
            },
        );
        self.next_token = if token == u64::MAX {
            0
        } else {
            token + 1
        };
        Ok(token)
    }

    /// Asks the command with this ID to end. It is no error if none runs: it may have
    /// ended meanwhile. The result says whether there are processes to signal.
    pub fn cancel(&mut self, id: &str) -> (cancelled: Result<bool, (ErrorCode, String)>)
        ensures
            problem_model(cancelled) == old(self)@.cancel_problem(id@),
            match cancelled {
                Ok(signal) => signal == old(self)@.active is Some && final(self)@
                    == old(self)@.cancelled(),
                Err(_) => final(self)@ == old(self)@,
            },
    {
        match &self.active {
            Some(active) => {
                if !same_text(active.id.as_str(), id) {
                    return Err((ErrorCode::NotFound, joined("command is not active: ", id)));
                }
            },
            None => {
                return Ok(false);
            },
        }
        Ok(self.shutdown())
    }

    /// Says whether bytes can be written to the command with this ID.
    pub fn write_stdin(&self, id: &str) -> (writable: Result<(), (ErrorCode, String)>)
        ensures
            problem_model(writable) == self@.stdin_problem(id@),
    {
        match &self.active {
            Some(active) => {
                if !same_text(active.id.as_str(), id) {
                    return Err((ErrorCode::NotFound, joined("command is not active: ", id)));
                }
                if active.stdin_open {
                    Ok(())
                } else {
                    Err((ErrorCode::InvalidRequest, joined("command stdin is not open: ", id)))
                }
            },
            None => Err((ErrorCode::NotFound, joined("command is not active: ", id))),
        }
    }

    /// Asks the command that runs, if any, to end, and says whether there is one.
    pub fn shutdown(&mut self) -> (signal: bool)
        ensures
            signal == old(self)@.active is Some,
            final(self)@ == old(self)@.cancelled(),
    {
        match self.active.take() {
            Some(active) => {
                let mut active = active;
                let mut launch = active.launch;
                cancel_barrier(&mut launch);
                active.cancel = true;
                active.launch = launch;
                self.active = Some(active);
                true
            },
            None => false,
        }
    }

    /// What to do while the broker waits at its end for its command.
    pub fn wait_for_idle(&self, now: u64, deadline: u64) -> (step: IdleStep)
        ensures
            step == idle_step(self@.active is Some, now, deadline),
    {
        if self.active.is_none() {
            IdleStep::Idle
        } else if now >= deadline {
            IdleStep::Kill
        } else {
            IdleStep::Wait(deadline - now)
        }
    }

    /// The process group to signal, given the process that now has the root's ID.
    pub fn signal_group(&self, now: Option<ProcessGuard>) -> (group: Option<i32>)
        ensures
            group == self@.signalled_group(now),
    {
        match &self.active {
            Some(active) => match active.root {
                Some(root) => if active.pid > 0 && root.is_current(now) {
                    Some(active.pid)
                } else {
                    None
                },
                None => None,
            },
            None => None,
        }
    }

    /// Whether the command with this token was asked to end.
    pub fn is_cancelled(&self, token: u64) -> (cancelled: bool)
        ensures
            cancelled == (self@.is_held_by(token) && self@.active->0.cancel),
    {
        match &self.active {
            Some(active) => active.token == token && active.cancel,
            None => false,
        }
    }

    /// Notes the process ID of the command.
    pub fn set_process(&mut self, token: u64, pid: i32)
        ensures
            final(self)@ == (if old(self)@.is_held_by(token) {
                old(self)@.with(ControlModel { pid, ..old(self)@.active->0 })
            } else {
                old(self)@
            }),
    {
        if let Some(active) = self.active.take() {
            let mut active = active;
            if active.token == token {
                active.pid = pid;
            }
            self.active = Some(active);
        }
    }

    /// Notes the identity of the command's root.
    pub fn set_root(&mut self, token: u64, root: ProcessGuard)
        ensures
            final(self)@ == (if old(self)@.is_held_by(token) {
                old(self)@.with(ControlModel { root: Some(root), ..old(self)@.active->0 })
            } else {
                old(self)@
            }),
    {
        if let Some(active) = self.active.take() {
            let mut active = active;
            if active.token == token {
                active.root = Some(root);
            }
            self.active = Some(active);
        }
    }

    /// Lets bytes be written to the command.
    pub fn open_stdin(&mut self, token: u64)
        ensures
            final(self)@ == (if old(self)@.is_held_by(token) {
                old(self)@.with(ControlModel { stdin_open: true, ..old(self)@.active->0 })
            } else {
                old(self)@
            }),
    {
        if let Some(active) = self.active.take() {
            let mut active = active;
            if active.token == token {
                active.stdin_open = true;
            }
            self.active = Some(active);
        }
    }

    /// Releases the command's program, unless the command was asked to end before.
    pub fn release(&mut self, token: u64) -> (released: bool)
        ensures
            released == (old(self)@.is_held_by(token) && old(self)@.active->0.launch
                == LaunchBarrier::Pending),
            final(self)@ == (if released {
                old(self)@.with(
                    ControlModel { launch: LaunchBarrier::Released, ..old(self)@.active->0 },
                )
            } else {
                old(self)@
            }),
    {
        match self.active.take() {
            Some(active) => {
                let mut active = active;
                let mut released = false;
                if active.token == token {
                    let mut launch = active.launch;
                    released = release_barrier(&mut launch);
                    active.launch = launch;
                }
                self.active = Some(active);
                released
            },
            None => false,
        }
    }

    /// Forgets the process of the command.
    pub fn clear_process(&mut self, token: u64)
        ensures
            final(self)@ == (if old(self)@.is_held_by(token) {
                old(self)@.with(old(self)@.active->0.cleared())
            } else {
                old(self)@
            }),
    {
        if let Some(active) = self.active.take() {
            let mut active = active;
            if active.token == token {
                active.pid = 0;
                active.root = None;
                active.stdin_open = false;
            }
            self.active = Some(active);
        }
    }

    /// Forgets the command with this token.
    pub fn clear_active(&mut self, token: u64)
        ensures
            final(self)@ == old(self)@.finished(token),
    {
        let held = match &self.active {
            Some(active) => active.token == token,
            None => false,
        };
        if held {
            self.active = None;
        }
    }
}

/// A command that is asked to end before its program was released is never
/// released, and one whose program was released is marked as asked to end.
pub proof fn a_cancelled_command_is_not_released(runtime: RuntimeState)
    requires
        runtime.active is Some,
    ensures
        runtime.cancelled().active is Some,
        runtime.cancelled().active->0.cancel,
        runtime.cancelled().active->0.launch != LaunchBarrier::Pending,
        runtime.cancelled().cancelled() == runtime.cancelled(),
{
}

/// Only one command runs at a time: where one was started, no other is until it has
/// ended, and then the next one may be.
pub proof fn one_command_runs_at_a_time(runtime: RuntimeState, id: Seq<char>, other: Seq<char>)
    requires
        runtime.start_problem(id) is None,
    ensures
        runtime.started(id).is_held_by(runtime.next_token),
        runtime.started(id).start_problem(other) is Some,
        runtime.started(id).finished(runtime.next_token).start_problem(other) is None,
        runtime.started(id).cancelled().start_problem(other) is Some,
{
}

/// What ended earlier frees no command that runs now: its token is another one.
pub proof fn an_old_token_frees_no_command(runtime: RuntimeState, id: Seq<char>, token: u64)
    requires
        runtime.active is None,
        token != runtime.next_token,
    ensures
        runtime.started(id).finished(token) == runtime.started(id),
{
}

/// A command whose process was forgotten is not signalled and not written to.
pub proof fn a_forgotten_process_is_left_alone(
    runtime: RuntimeState,
    now: Option<ProcessGuard>,
    id: Seq<char>,
)
    requires
        runtime.active is Some,
    ensures
        runtime.with(runtime.active->0.cleared()).signalled_group(now) is None,
        runtime.with(runtime.active->0.cleared()).stdin_problem(id) is Some,
{
}

} // verus!
