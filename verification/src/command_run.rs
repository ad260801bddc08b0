//! The steps of one command, from its preparation to its last event.

use vstd::prelude::*;
use vstd::string::*;

use crate::facts::models;
use crate::lifecycle::{supervised, supervision_signal, GroupSignal, Supervisor};
use crate::protocol::{Denial, DenialModel, ErrorCode, EventModel, ServerEvent};
use crate::text::joined4;

verus! {

/// How far a command has come.
#[derive(Clone, Copy, Debug, PartialEq, Eq, Structural)]
pub enum Stage {
    Preparing,
    Spawning,
    Observing,
    Tracking,
    Rooting,
    Releasing,
    Announcing,
    Running,
    Settling,
    Ended,
}

/// What the host reports of a step.
#[derive(Debug)]
pub enum Report {
    /// The sandbox was prepared, or the policy rules the command out.
    Prepared(Result<(), String>),
    /// The sandbox was spawned under a process ID.
    Spawned(Result<u32, String>),
    /// Denials are being attributed to the command.
    Observed(Result<(), String>),
    /// The command's processes are being tracked.
    Followed(Result<(), String>),
    /// The identity of the command's root process was noted.
    Rooted(bool),
    /// The launch barrier was released, or the command was cancelled first.
    Released(bool),
    /// The client was told of the start.
    Announced(bool),
    /// The command was found running, so many milliseconds after its start.
    Polled { elapsed: u64, cancel: bool },
    /// The command's state could not be read.
    Lost,
    /// The command ended.
    Exited { code: Option<i32>, signal: Option<i32>, cancel: bool },
    /// Its processes, streams and denials were brought to an end.
    Settled { truncated: bool, denials: Vec<Denial> },
}

/// What the host reports of a step.
pub enum ReportModel {
    Prepared(Result<(), Seq<char>>),
    Spawned(Result<u32, Seq<char>>),
    Observed(Result<(), Seq<char>>),
    Followed(Result<(), Seq<char>>),
    Rooted(bool),
    Released(bool),
    Announced(bool),
    Polled { elapsed: u64, cancel: bool },
    Lost,
    Exited { code: Option<i32>, signal: Option<i32>, cancel: bool },
    Settled { truncated: bool, denials: Seq<DenialModel> },
}

impl View for Report {
    type V = ReportModel;

    open spec fn view(&self) -> ReportModel {
        match *self {
            Report::Prepared(result) => ReportModel::Prepared(crate::facts::failure(result)),
            Report::Spawned(result) => ReportModel::Spawned(crate::facts::failure(result)),
            Report::Observed(result) => ReportModel::Observed(crate::facts::failure(result)),
            Report::Followed(result) => ReportModel::Followed(crate::facts::failure(result)),
            Report::Rooted(noted) => ReportModel::Rooted(noted),
            Report::Released(released) => ReportModel::Released(released),
            Report::Announced(sent) => ReportModel::Announced(sent),
            Report::Polled { elapsed, cancel } => ReportModel::Polled { elapsed, cancel },
            Report::Lost => ReportModel::Lost,
            Report::Exited { code, signal, cancel } => ReportModel::Exited { code, signal, cancel },
            Report::Settled { truncated, denials } => ReportModel::Settled {
                truncated,
                denials: models(denials@),
            },
        }
    }
}

/// What the host has to do next.
#[derive(Debug, PartialEq, Eq)]
pub enum Effect {
    /// Spawn the sandbox.
    Spawn,
    /// Start to attribute denials to the command.
    BeginDenials,
    /// Start to track the command's processes.
    Track,
    /// Note the identity of the command's root process.
    RecordRoot,
    /// Release the launch barrier, unless the command was cancelled.
    ReleaseBarrier,
    /// Let the command's program run, and start to read its streams.
    OpenBarrier,
    /// Look at the command again in a moment.
    Wait,
    /// Signal the command's process group.
    Signal(GroupSignal),
    /// Wait for the command without looking at it.
    Reap,
    /// End the sandbox before its program ran.
    TerminateChild,
    /// End what is left of the command's process group.
    CleanupGroup,
    /// End the processes that were tracked.
    CleanupTracked,
    /// Forget the denials of the command.
    AbortDenials,
    /// Bring the streams to an end.
    FinishStreams,
    /// Collect the denials of the command.
    FinishDenials,
    /// Forget the command's process.
    ClearProcess,
    /// Tell the client.
    Emit(ServerEvent),
}

/// What the host has to do next.
pub enum EffectModel {
    Spawn,
    BeginDenials,
    Track,
    RecordRoot,
    ReleaseBarrier,
    OpenBarrier,
    Wait,
    Signal(GroupSignal),
    Reap,
    TerminateChild,
    CleanupGroup,
    CleanupTracked,
    AbortDenials,
    FinishStreams,
    FinishDenials,
    ClearProcess,
    Emit(EventModel),
}

impl View for Effect {
    type V = EffectModel;

    open spec fn view(&self) -> EffectModel {
        match *self {
            Effect::Spawn => EffectModel::Spawn,
            Effect::BeginDenials => EffectModel::BeginDenials,
            Effect::Track => EffectModel::Track,
            Effect::RecordRoot => EffectModel::RecordRoot,
            Effect::ReleaseBarrier => EffectModel::ReleaseBarrier,
            Effect::OpenBarrier => EffectModel::OpenBarrier,
            Effect::Wait => EffectModel::Wait,
            Effect::Signal(signal) => EffectModel::Signal(signal),
            Effect::Reap => EffectModel::Reap,
            Effect::TerminateChild => EffectModel::TerminateChild,
            Effect::CleanupGroup => EffectModel::CleanupGroup,
            Effect::CleanupTracked => EffectModel::CleanupTracked,
            Effect::AbortDenials => EffectModel::AbortDenials,
            Effect::FinishStreams => EffectModel::FinishStreams,
            Effect::FinishDenials => EffectModel::FinishDenials,
            Effect::ClearProcess => EffectModel::ClearProcess,
            Effect::Emit(event) => EffectModel::Emit(event@),
        }
    }
}

/// One command on its way.
#[derive(Debug)]
pub struct CommandRun {
    pub id: String,
    /// The program of the sandbox.
    pub program: String,
    /// Whether denials are collected.
    pub collects_denials: bool,
    pub stage: Stage,
    pub pid: u32,
    pub supervisor: Supervisor,
    pub code: Option<i32>,
    pub signal: Option<i32>,
}

/// One command on its way.
pub struct RunState {
    pub id: Seq<char>,
    pub program: Seq<char>,
    pub collects_denials: bool,
    pub stage: Stage,
    pub pid: u32,
    pub supervisor: Supervisor,
    pub code: Option<i32>,
    pub signal: Option<i32>,
}

impl View for CommandRun {
    type V = RunState;

    open spec fn view(&self) -> RunState {
        RunState {
            id: self.id@,
            program: self.program@,
            collects_denials: self.collects_denials,
            stage: self.stage,
            pid: self.pid,
            supervisor: self.supervisor,
            code: self.code,
            signal: self.signal,
        }
    }
}

impl RunState {
    /// The run at another stage.
    pub open spec fn at(self, stage: Stage) -> RunState {
        RunState { stage, ..self }
    }

    /// The event that a command failed before its start.
    pub open spec fn error(self, code: ErrorCode, message: Seq<char>) -> EffectModel {
        EffectModel::Emit(EventModel::Error { id: Some(self.id), code, message })
    }

    /// The last event of a command that was started.
    pub open spec fn exit(self, truncated: bool) -> EffectModel {
        EffectModel::Emit(
            EventModel::Exit {
                id: self.id,
                code: self.code,
                signal: self.signal,
                timed_out: self.supervisor.timed_out,
                cancelled: self.supervisor.cancelled,
                output_truncated: truncated,
            },
        )
    }
}

/// What undoes a start after its processes were tracked.
pub open spec fn undo() -> Seq<EffectModel> {
    seq![
        EffectModel::TerminateChild,
        EffectModel::CleanupTracked,
        EffectModel::AbortDenials,
        EffectModel::ClearProcess,
    ]
}

/// The steps of a command up to its release.
pub open spec fn start_advanced(run: RunState, report: ReportModel) -> (RunState, Seq<EffectModel>) {
    let ended = run.at(Stage::Ended);
    let failed = ErrorCode::CommandStartFailed;
    match (run.stage, report) {
        (Stage::Preparing, ReportModel::Prepared(result)) => match result {
            Ok(_) => (run.at(Stage::Spawning), seq![EffectModel::Spawn]),
            Err(message) => (ended, seq![run.error(ErrorCode::PolicyRejected, message)]),
        },
        (Stage::Spawning, ReportModel::Spawned(result)) => match result {
            Ok(pid) => {
                let spawned = RunState { pid, ..run };
                if run.collects_denials {
                    (spawned.at(Stage::Observing), seq![EffectModel::BeginDenials])
                } else {
                    (spawned.at(Stage::Tracking), seq![EffectModel::Track])
                }
            },
            Err(error) => (
                ended,
                seq![run.error(failed, "cannot start "@ + run.program + ": "@ + error)],
            ),
        },
        (Stage::Observing, ReportModel::Observed(result)) => match result {
            Ok(_) => (run.at(Stage::Tracking), seq![EffectModel::Track]),
            Err(message) => (
                ended,
                seq![
                    EffectModel::TerminateChild,
                    EffectModel::ClearProcess,
                    run.error(failed, message),
                ],
            ),
        },
        (Stage::Tracking, ReportModel::Followed(result)) => match result {
            Ok(_) => (run.at(Stage::Rooting), seq![EffectModel::RecordRoot]),
            Err(message) => (
                ended,
                seq![
                    EffectModel::TerminateChild,
                    EffectModel::AbortDenials,
                    EffectModel::ClearProcess,
                    run.error(failed, message),
                ],
            ),
        },
        (Stage::Rooting, ReportModel::Rooted(noted)) => if noted {
            (run.at(Stage::Releasing), seq![EffectModel::ReleaseBarrier])
        } else {
            (ended, undo().push(run.error(failed, "process identity lock is poisoned"@)))
        },
        (Stage::Releasing, ReportModel::Released(released)) => if released {
            (
                run.at(Stage::Announcing),
                seq![EffectModel::Emit(EventModel::Started { id: run.id, pid: run.pid })],
            )
        } else {
            (
                ended,
                undo().push(run.error(ErrorCode::Cancelled, "command was cancelled before launch"@)),
            )
        },
        _ => (run, Seq::empty()),
    }
}

/// The steps of a command: where it then stands, and what the host has to do. A
/// report that does not belong to the stage changes nothing.
pub open spec fn advanced(run: RunState, report: ReportModel) -> (RunState, Seq<EffectModel>) {
    match (run.stage, report) {
        (Stage::Announcing, ReportModel::Announced(sent)) => if sent {
            (run.at(Stage::Running), seq![EffectModel::OpenBarrier])
        } else {
            (run.at(Stage::Ended), undo())
        },
        (Stage::Running, ReportModel::Polled { elapsed, cancel }) => (
            RunState { supervisor: supervised(run.supervisor, elapsed, cancel), ..run },
            match supervision_signal(run.supervisor, elapsed, cancel) {
                Some(signal) => seq![EffectModel::Signal(signal), EffectModel::Wait],
                None => seq![EffectModel::Wait],
            },
        ),
        (Stage::Running, ReportModel::Lost) => (
            run,
            seq![EffectModel::Signal(GroupSignal::Kill), EffectModel::Reap],
        ),
        (Stage::Running, ReportModel::Exited { code, signal, cancel }) => {
            let settling = RunState {
                stage: Stage::Settling,
                code,
                signal,
                supervisor: Supervisor {
                    cancelled: run.supervisor.cancelled || cancel,
                    ..run.supervisor
                },
                ..run
            };
            let effects = seq![
                EffectModel::CleanupGroup,
                EffectModel::CleanupTracked,
                EffectModel::FinishStreams,
            ];
            if run.collects_denials {
                (settling, effects.push(EffectModel::FinishDenials))
            } else {
                (settling, effects)
            }
        },
        (Stage::Settling, ReportModel::Settled { truncated, denials }) => {
            let ended = run.at(Stage::Ended);
            if run.collects_denials {
                (
                    ended,
                    seq![
                        EffectModel::Emit(
                            EventModel::Denials { id: run.id, items: denials, complete: false },
                        ),
                        EffectModel::ClearProcess,
                        run.exit(truncated),
                    ],
                )
            } else {
                (ended, seq![EffectModel::ClearProcess, run.exit(truncated)])
            }
        },
        _ => start_advanced(run, report),
    }
}

impl CommandRun {
    /// A command whose sandbox is being prepared.
    pub fn new(id: String, program: String, collects_denials: bool, timeout_ms: Option<u64>) -> (run:
        CommandRun)
        ensures
            run@ == (RunState {
                id: id@,
                program: program@,
                collects_denials,
                stage: Stage::Preparing,
                pid: 0,
                supervisor: Supervisor {
                    timeout_ms,
                    timed_out: false,
                    cancelled: false,
                    terminating_since: None,
                },
                code: None,
                signal: None,
            }),
    {
        CommandRun {
            id,
            program,
            collects_denials,
            stage: Stage::Preparing,
            pid: 0,
            supervisor: Supervisor::new(timeout_ms),
            code: None,
            signal: None,
        }
    }

    fn error_effect(&self, code: ErrorCode, message: String) -> (effect: Effect)
        ensures
            effect@ == self@.error(code, message@),
    {
        Effect::Emit(ServerEvent::Error { id: Some(self.id.clone()), code, message })
    }

    fn push_undo(effects: &mut Vec<Effect>)
        ensures
            models(final(effects)@) == models(old(effects)@) + undo(),
    {
        effects.push(Effect::TerminateChild);
        effects.push(Effect::CleanupTracked);
        effects.push(Effect::AbortDenials);
        effects.push(Effect::ClearProcess);
        assert(models(effects@) =~= models(old(effects)@) + undo());
    }

    fn advance_start(&mut self, report: Report) -> (effects: Vec<Effect>)
        ensures
            start_advanced(old(self)@, report@) == (final(self)@, models(effects@)),
    {
        let mut effects: Vec<Effect> = Vec::new();
        let ghost before = self@;
        match (self.stage, report) {
            (Stage::Preparing, Report::Prepared(result)) => match result {
                Ok(_) => {
                    self.stage = Stage::Spawning;
                    effects.push(Effect::Spawn);
                },
                Err(message) => {
                    effects.push(self.error_effect(ErrorCode::PolicyRejected, message));
                    self.stage = Stage::Ended;
                },
            },
            (Stage::Spawning, Report::Spawned(result)) => match result {
                Ok(pid) => {
                    self.pid = pid;
                    if self.collects_denials {
                        self.stage = Stage::Observing;
                        effects.push(Effect::BeginDenials);
                    } else {
                        self.stage = Stage::Tracking;
                        effects.push(Effect::Track);
                    }
                },
                Err(error) => {
                    let message = joined4(
                        "cannot start ",
                        self.program.as_str(),
                        ": ",
                        error.as_str(),
                    );
                    effects.push(self.error_effect(ErrorCode::CommandStartFailed, message));
                    self.stage = Stage::Ended;
                },
            },
            (Stage::Observing, Report::Observed(result)) => match result {
                Ok(_) => {
                    self.stage = Stage::Tracking;
                    effects.push(Effect::Track);
                },
                Err(message) => {
                    effects.push(Effect::TerminateChild);
                    effects.push(Effect::ClearProcess);
                    effects.push(self.error_effect(ErrorCode::CommandStartFailed, message));
                    self.stage = Stage::Ended;
                },
            },
            (Stage::Tracking, Report::Followed(result)) => match result {
                Ok(_) => {
                    self.stage = Stage::Rooting;
                    effects.push(Effect::RecordRoot);
                },
                Err(message) => {
                    effects.push(Effect::TerminateChild);
                    effects.push(Effect::AbortDenials);
                    effects.push(Effect::ClearProcess);
                    effects.push(self.error_effect(ErrorCode::CommandStartFailed, message));
                    self.stage = Stage::Ended;
                },
            },
            (Stage::Rooting, Report::Rooted(noted)) => {
                if noted {
                    self.stage = Stage::Releasing;
                    effects.push(Effect::ReleaseBarrier);
                } else {
                    Self::push_undo(&mut effects);
                    let message = "process identity lock is poisoned".to_owned();
                    effects.push(self.error_effect(ErrorCode::CommandStartFailed, message));
                    self.stage = Stage::Ended;
                }
            },
            (Stage::Releasing, Report::Released(released)) => {
                if released {
                    self.stage = Stage::Announcing;
                    effects.push(
                        Effect::Emit(ServerEvent::Started { id: self.id.clone(), pid: self.pid }),
                    );
                } else {
                    Self::push_undo(&mut effects);
                    let message = "command was cancelled before launch".to_owned();
                    effects.push(self.error_effect(ErrorCode::Cancelled, message));
                    self.stage = Stage::Ended;
                }
            },
            _ => {},
        }
        assert(models(effects@) =~= start_advanced(before, report@).1);
        effects
    }

    /// Takes the next step of the command.
    pub fn advance(&mut self, report: Report) -> (effects: Vec<Effect>)
        ensures
            advanced(old(self)@, report@) == (final(self)@, models(effects@)),
    {
        let mut effects: Vec<Effect> = Vec::new();
        let ghost before = self@;
        let ghost given = report@;
        match (self.stage, report) {
            (Stage::Announcing, Report::Announced(sent)) => {
                if sent {
                    self.stage = Stage::Running;
                    effects.push(Effect::OpenBarrier);
                } else {
                    self.stage = Stage::Ended;
                    Self::push_undo(&mut effects);
                }
            },
            (Stage::Running, Report::Polled { elapsed, cancel }) => {
                let mut supervisor = self.supervisor;
                let signal = supervisor.poll(elapsed, cancel);
                self.supervisor = supervisor;
                if let Some(signal) = signal {
                    effects.push(Effect::Signal(signal));
                }
                effects.push(Effect::Wait);
            },
            (Stage::Running, Report::Lost) => {
                effects.push(Effect::Signal(GroupSignal::Kill));
                effects.push(Effect::Reap);
            },
            (Stage::Running, Report::Exited { code, signal, cancel }) => {
                self.stage = Stage::Settling;
                self.code = code;
                self.signal = signal;
                let mut supervisor = self.supervisor;
                supervisor.cancelled = supervisor.cancelled || cancel;
                self.supervisor = supervisor;
                effects.push(Effect::CleanupGroup);
                effects.push(Effect::CleanupTracked);
                effects.push(Effect::FinishStreams);
                if self.collects_denials {
                    effects.push(Effect::FinishDenials);
                }
            },
            (Stage::Settling, Report::Settled { truncated, denials }) => {
                self.stage = Stage::Ended;
                if self.collects_denials {
                    effects.push(
                        Effect::Emit(
                            ServerEvent::Denials {
                                id: self.id.clone(),
                                items: denials,
                                complete: false,
                            },
                        ),
                    );
                }
                effects.push(Effect::ClearProcess);
                effects.push(
                    Effect::Emit(
                        ServerEvent::Exit {
                            id: self.id.clone(),
                            code: self.code,
                            signal: self.signal,
                            timed_out: self.supervisor.timed_out,
                            cancelled: self.supervisor.cancelled,
                            output_truncated: truncated,
                        },
                    ),
                );
            },
            (_, report) => {
                return self.advance_start(report);
            },
        }
        assert(models(effects@) =~= advanced(before, given).1);
        effects
    }
}

/// The events among what the host has to do.
pub open spec fn events_of(effects: Seq<EffectModel>) -> Seq<EventModel>
    decreases effects.len(),
{
    if effects.len() == 0 {
        Seq::empty()
    } else {
        match effects.last() {
            EffectModel::Emit(event) => events_of(effects.drop_last()).push(event),
            _ => events_of(effects.drop_last()),
        }
    }
}

/// A run after some reports, and the events that it gave out on the way.
pub open spec fn history(run: RunState, reports: Seq<ReportModel>) -> (RunState, Seq<EventModel>)
    decreases reports.len(),
{
    if reports.len() == 0 {
        (run, Seq::empty())
    } else {
        let (before, events) = history(run, reports.drop_last());
        let (after, effects) = advanced(before, reports.last());
        (after, events + events_of(effects))
    }
}

/// Whether the events given out fit the stage of a run.
pub open spec fn events_fit(run: RunState, events: Seq<EventModel>) -> bool {
    let started = EventModel::Started { id: run.id, pid: run.pid };
    match run.stage {
        Stage::Announcing | Stage::Running | Stage::Settling => events == seq![started],
        Stage::Ended => {
            ||| events.len() == 1 && events[0] is Error && events[0]->Error_id == Some(run.id)
            ||| events == seq![started]
            ||| !run.collects_denials && events.len() == 2 && events[0] == started
                && events[1] is Exit && events[1]->Exit_id == run.id
            ||| run.collects_denials && events.len() == 3 && events[0] == started
                && events[1] is Denials && events[1]->Denials_id == run.id && events[2] is Exit
                && events[2]->Exit_id == run.id
        },
        _ => events.len() == 0,
    }
}

proof fn lemma_events_of(effects: Seq<EffectModel>)
    ensures
        effects.len() > 0 && !(effects.last() is Emit) ==> events_of(effects) == events_of(
            effects.drop_last(),
        ),
        effects.len() > 0 && effects.last() is Emit ==> events_of(effects) == events_of(
            effects.drop_last(),
        ).push(effects.last()->Emit_0),
        effects.len() == 0 ==> events_of(effects) == Seq::<EventModel>::empty(),
{
}

proof fn lemma_quiet(effects: Seq<EffectModel>)
    requires
        forall|i: int| 0 <= i < effects.len() ==> !(#[trigger] effects[i] is Emit),
    ensures
        events_of(effects) == Seq::<EventModel>::empty(),
    decreases effects.len(),
{
    if effects.len() > 0 {
        lemma_quiet(effects.drop_last());
    }
}

proof fn lemma_one_event(effects: Seq<EffectModel>)
    requires
        effects.len() > 0,
        effects.last() is Emit,
        forall|i: int| 0 <= i < effects.len() - 1 ==> !(#[trigger] effects[i] is Emit),
    ensures
        events_of(effects) == seq![effects.last()->Emit_0],
{
    lemma_quiet(effects.drop_last());
    assert(events_of(effects) =~= seq![effects.last()->Emit_0]);
}

proof fn lemma_events_fit(run: RunState, events: Seq<EventModel>, report: ReportModel)
    requires
        events_fit(run, events),
    ensures
        events_fit(
            advanced(run, report).0,
            events + events_of(advanced(run, report).1),
        ),
{
    let (after, effects) = advanced(run, report);
    let given = events_of(effects);
    if effects.len() == 0 {
        assert(events + given =~= events);
    } else if !(effects.last() is Emit) {
        lemma_quiet(effects);
        assert(events + given =~= events);
    } else if effects.len() == 3 && effects[0] is Emit {
        let rest = effects.drop_last();
        lemma_events_of(effects);
        lemma_events_of(rest);
        lemma_one_event(rest.drop_last());
        assert(given =~= seq![effects[0]->Emit_0, effects[2]->Emit_0]);
        assert(events + given =~= seq![events[0], effects[0]->Emit_0, effects[2]->Emit_0]);
    } else {
        lemma_one_event(effects);
        assert(given =~= seq![effects.last()->Emit_0]);
        if events.len() == 0 {
            assert(events + given =~= seq![effects.last()->Emit_0]);
        } else {
            assert(events + given =~= seq![events[0], effects.last()->Emit_0]);
        }
    }
}

/// Whatever the host reports, and in whatever order, a command gives out its
/// events in order: either one error and nothing else, or first that it was
/// started and at the end, once, that it exited, with its denials just before that
/// where they are collected. After the exit or the error nothing follows, nor where
/// the client could not be told of the start.
pub proof fn events_come_in_order(run: RunState, reports: Seq<ReportModel>)
    requires
        run.stage == Stage::Preparing,
    ensures
        events_fit(history(run, reports).0, history(run, reports).1),
        history(run, reports).0.id == run.id,
    decreases reports.len(),
{
    if reports.len() > 0 {
        events_come_in_order(run, reports.drop_last());
        let (before, events) = history(run, reports.drop_last());
        lemma_events_fit(before, events, reports.last());
    }
}

/// A run that ended stays as it is, and the host has nothing more to do for it.
pub proof fn an_ended_run_stays_ended(run: RunState, report: ReportModel)
    requires
        run.stage == Stage::Ended,
    ensures
        advanced(run, report) == (run, Seq::<EffectModel>::empty()),
{
}

} // verus!
