//! What a request is answered, and what becomes of the command that runs.

use vstd::prelude::*;

use crate::broker::{answer, AnswerModel, RequestModel};
use crate::executor::{ControlModel, RuntimeState};
use crate::facts::{HaltModel, Host};
use crate::lifecycle::LaunchBarrier;
use crate::outside::base64_bytes;
use crate::pid_tracker::ProcessGuard;
use crate::protocol::{CommandRequest, ErrorCode, EventModel};
use crate::readiness::{trial_problem, Trial};
use crate::seatbelt::Deny;
use crate::validation::validated;

verus! {

/// Whether an answer is an error on a command.
pub open spec fn is_error(
    answered: AnswerModel,
    id: Seq<char>,
    code: ErrorCode,
    message: Seq<char>,
) -> bool {
    answered == AnswerModel::Reply(EventModel::Error { id: Some(id), code, message })
}

/// A request to run a command is answered by running it exactly where the sandbox works,
/// the request is accepted and no command runs; the command then runs under its own ID
/// and a token of its own, neither cancelled nor released. Where another command runs,
/// the answer says whether it has the same ID.
pub proof fn commands_run_when_nothing_is_against_it(
    request: CommandRequest,
    runtime: RuntimeState,
    can_exec: bool,
    backend: Seq<char>,
    hard: Seq<Deny>,
    host: Host,
)
    ensures
        ({
            let (after, answered) = answer(
                RequestModel::Exec(request),
                runtime,
                can_exec,
                backend,
                hard,
                host,
            );
            let decision = validated(host, request, hard);
            &&& answered is Run <==> can_exec && decision is Ok && runtime.active is None
            &&& answered is Run ==> {
                &&& answered->Run_request == decision->Ok_0
                &&& answered->token == runtime.next_token
                &&& after.active == Some(
                    ControlModel {
                        id: request.id,
                        token: answered->token,
                        cancel: false,
                        pid: 0,
                        root: None,
                        stdin_open: false,
                        launch: LaunchBarrier::Pending,
                    },
                )
                &&& after.next_token != runtime.next_token
                &&& after.denial_collector == runtime.denial_collector
            }
            &&& !(answered is Run) ==> after == runtime
            &&& can_exec && decision is Ok && runtime.active is Some && runtime.active->0.id
                == request.id ==> is_error(
                answered,
                request.id,
                ErrorCode::DuplicateCommandId,
                "duplicate active command ID: "@ + request.id,
            )
            &&& can_exec && decision is Ok && runtime.active is Some && runtime.active->0.id
                != request.id ==> is_error(
                answered,
                request.id,
                ErrorCode::InvalidRequest,
                "protocol v4 permits one active command per broker"@,
            )
            &&& can_exec ==> (decision matches Err(HaltModel::Refused(reason)) ==> is_error(
                answered,
                request.id,
                ErrorCode::InvalidRequest,
                reason,
            ))
            &&& can_exec ==> (decision matches Err(HaltModel::Probe(probes)) ==> answered
                == AnswerModel::Probe(probes))
        }),
{
}

/// A request to cancel is answered for the command that runs, or for none: the command
/// is then marked, and one that was not yet let go never will be. A request for another
/// command is an error and changes nothing.
pub proof fn cancelling_marks_the_command(
    id: Seq<char>,
    runtime: RuntimeState,
    can_exec: bool,
    backend: Seq<char>,
    hard: Seq<Deny>,
    host: Host,
)
    ensures
        ({
            let (after, answered) = answer(
                RequestModel::Cancel(id),
                runtime,
                can_exec,
                backend,
                hard,
                host,
            );
            match runtime.active {
                None => answered == AnswerModel::Cancel { signal: false } && after == runtime,
                Some(active) => if active.id == id {
                    &&& answered == AnswerModel::Cancel { signal: true }
                    &&& after.active is Some
                    &&& after.active->0.cancel
                    &&& after.active->0.id == id
                    &&& after.active->0.token == active.token
                    &&& after.active->0.pid == active.pid
                    &&& after.active->0.root == active.root
                    &&& after.active->0.stdin_open == active.stdin_open
                    &&& after.active->0.launch != LaunchBarrier::Pending
                    &&& active.launch == LaunchBarrier::Pending ==> after.active->0.launch
                        == LaunchBarrier::Cancelled
                    &&& active.launch != LaunchBarrier::Pending ==> after.active->0.launch
                        == active.launch
                    &&& after.next_token == runtime.next_token
                    &&& after.denial_collector == runtime.denial_collector
                } else {
                    &&& is_error(
                        answered,
                        id,
                        ErrorCode::NotFound,
                        "command is not active: "@ + id,
                    )
                    &&& after == runtime
                },
            }
        }),
{
}

/// Bytes for a command are written exactly where they can be decoded and the command of
/// that ID runs with its input open, and they are the decoded bytes; nothing else
/// changes.
pub proof fn bytes_go_to_the_command_they_are_for(
    id: Seq<char>,
    data_base64: Seq<char>,
    runtime: RuntimeState,
    can_exec: bool,
    backend: Seq<char>,
    hard: Seq<Deny>,
    host: Host,
)
    ensures
        ({
            let (after, answered) = answer(
                RequestModel::WriteStdin(id, data_base64),
                runtime,
                can_exec,
                backend,
                hard,
                host,
            );
            let runs = runtime.active is Some && runtime.active->0.id == id;
            let decoded = base64_bytes(data_base64);
            &&& after == runtime
            &&& decoded is Ok && runs && runtime.active->0.stdin_open ==> answered
                == AnswerModel::Write { id, data: decoded->Ok_0 }
            &&& decoded is Ok && runs && !runtime.active->0.stdin_open ==> is_error(
                answered,
                id,
                ErrorCode::InvalidRequest,
                "command stdin is not open: "@ + id,
            )
            &&& decoded is Ok && !runs ==> is_error(
                answered,
                id,
                ErrorCode::NotFound,
                "command is not active: "@ + id,
            )
            &&& decoded is Err ==> is_error(
                answered,
                id,
                ErrorCode::InvalidRequest,
                "invalid stdin base64: "@ + decoded->Err_0,
            )
        }),
{
}

/// A request to shut down is answered by shutting down, and by that alone.
pub proof fn only_a_shutdown_shuts_down(
    request: RequestModel,
    runtime: RuntimeState,
    can_exec: bool,
    backend: Seq<char>,
    hard: Seq<Deny>,
    host: Host,
)
    ensures
        answer(request, runtime, can_exec, backend, hard, host).1 == AnswerModel::Shutdown
            <==> request == RequestModel::Shutdown,
{
}

/// A process group is signalled exactly where the command has a process, its root was
/// noted, and what now has the root's ID is that root.
pub proof fn only_the_noted_root_is_signalled(runtime: RuntimeState, now: Option<ProcessGuard>)
    ensures
        runtime.signalled_group(now) is Some <==> {
            &&& runtime.active is Some
            &&& runtime.active->0.pid > 0
            &&& runtime.active->0.root is Some
            &&& runtime.active->0.root == now
        },
        runtime.signalled_group(now) is Some ==> runtime.signalled_group(now)->0
            == runtime.active->0.pid,
{
}

/// A command that ended is forgotten, by its own token alone; everything else stays.
pub proof fn a_command_is_forgotten_by_its_token(runtime: RuntimeState, token: u64)
    ensures
        runtime.active is Some && runtime.active->0.token == token ==> runtime.finished(
            token,
        ).active is None,
        runtime.active is Some && runtime.active->0.token != token ==> runtime.finished(token)
            == runtime,
        runtime.finished(token).next_token == runtime.next_token,
        runtime.finished(token).denial_collector == runtime.denial_collector,
{
}

/// A command whose process was forgotten keeps everything else.
pub proof fn only_the_process_is_forgotten(runtime: RuntimeState)
    requires
        runtime.active is Some,
    ensures
        runtime.active->0.cleared() == (ControlModel {
            id: runtime.active->0.id,
            token: runtime.active->0.token,
            cancel: runtime.active->0.cancel,
            pid: 0,
            root: None,
            stdin_open: false,
            launch: runtime.active->0.launch,
        }),
        forall|token: u64| #[trigger]
            runtime.is_held_by(token) <==> runtime.active->0.token == token,
{
}

/// A sandbox is ready exactly where its trial ended in success.
pub proof fn a_sandbox_is_ready_after_its_trial(backend: Seq<char>, trial: Trial)
    ensures
        trial_problem(backend, trial) is None <==> (trial matches Trial::Ended { success, .. }
            && success),
{
}

} // verus!
