//! What the broker answers to a request.

use vstd::prelude::*;
use vstd::string::*;

use crate::command::Platform;
use crate::executor::{Runtime, RuntimeState};
use crate::facts::{models, Facts, Halt, HaltModel, Host, Probe, ProbeModel};
use crate::outside::{base64_bytes, base64_decode};
use crate::protocol::{
    ClientRequest, CommandRequest, ErrorCode, EventModel, ServerEvent, MAX_FRAME_BYTES,
    PROTOCOL_VERSION,
};
use crate::seatbelt::{Deny, HardPolicy};
use crate::text::{joined, joined3};
use crate::validation::{validate_exec, validated, Validated, ValidatedExec};

verus! {

/// A request of the client.
pub enum RequestModel {
    Exec(CommandRequest),
    Cancel(Seq<char>),
    WriteStdin(Seq<char>, Seq<char>),
    Shutdown,
}

impl View for ClientRequest {
    type V = RequestModel;

    open spec fn view(&self) -> RequestModel {
        match *self {
            ClientRequest::Exec(request) => RequestModel::Exec(request@),
            ClientRequest::Cancel { id } => RequestModel::Cancel(id@),
            ClientRequest::WriteStdin { id, data_base64 } => RequestModel::WriteStdin(
                id@,
                data_base64@,
            ),
            ClientRequest::Shutdown => RequestModel::Shutdown,
        }
    }
}

/// What there is to do about a request.
pub enum Answer {
    /// End the broker.
    Shutdown,
    /// Run the command.
    Run { request: ValidatedExec, token: u64 },
    /// Signal the processes of the command, where there is one.
    Cancel { signal: bool },
    /// Write the bytes to the command.
    Write { id: String, data: Vec<u8> },
    /// Tell the client.
    Reply(ServerEvent),
    /// Find out the missing facts and ask again.
    Probe(Vec<Probe>),
}

/// What there is to do about a request.
pub enum AnswerModel {
    Shutdown,
    Run { request: Validated, token: u64 },
    Cancel { signal: bool },
    Write { id: Seq<char>, data: Seq<u8> },
    Reply(EventModel),
    Probe(Seq<ProbeModel>),
}

impl View for Answer {
    type V = AnswerModel;

    open spec fn view(&self) -> AnswerModel {
        match *self {
            Answer::Shutdown => AnswerModel::Shutdown,
            Answer::Run { request, token } => AnswerModel::Run { request: request@, token },
            Answer::Cancel { signal } => AnswerModel::Cancel { signal },
            Answer::Write { id, data } => AnswerModel::Write { id: id@, data: data@ },
            Answer::Reply(event) => AnswerModel::Reply(event@),
            Answer::Probe(probes) => AnswerModel::Probe(models(probes@)),
        }
    }
}

/// An error reply to a command's request.
pub open spec fn error_reply(id: Seq<char>, code: ErrorCode, message: Seq<char>) -> AnswerModel {
    AnswerModel::Reply(EventModel::Error { id: Some(id), code, message })
}

/// What there is to do about a request to run a command, and the runtime then.
pub open spec fn exec_answer(
    request: CommandRequest,
    runtime: RuntimeState,
    can_exec: bool,
    backend: Seq<char>,
    hard: Seq<Deny>,
    host: Host,
) -> (RuntimeState, AnswerModel) {
    if !can_exec {
        (
            runtime,
            error_reply(
                request.id,
                ErrorCode::BackendUnavailable,
                "the "@ + backend + " backend is unavailable; command blocked"@,
            ),
        )
    } else {
        match validated(host, request, hard) {
            Ok(accepted) => match runtime.start_problem(accepted.id) {
                None => (
                    runtime.started(accepted.id),
                    AnswerModel::Run { request: accepted, token: runtime.next_token },
                ),
                Some((code, message)) => (runtime, error_reply(accepted.id, code, message)),
            },
            Err(HaltModel::Refused(reason)) => (
                runtime,
                error_reply(request.id, ErrorCode::InvalidRequest, reason),
            ),
            Err(HaltModel::Probe(probes)) => (runtime, AnswerModel::Probe(probes)),
        }
    }
}

/// What there is to do about a request, and the runtime then.
pub open spec fn answer(
    request: RequestModel,
    runtime: RuntimeState,
    can_exec: bool,
    backend: Seq<char>,
    hard: Seq<Deny>,
    host: Host,
) -> (RuntimeState, AnswerModel) {
    match request {
        RequestModel::Shutdown => (runtime, AnswerModel::Shutdown),
        RequestModel::Exec(request) => exec_answer(request, runtime, can_exec, backend, hard, host),
        RequestModel::Cancel(id) => match runtime.cancel_problem(id) {
            None => (
                runtime.cancelled(),
                AnswerModel::Cancel { signal: runtime.active is Some },
            ),
            Some((code, message)) => (runtime, error_reply(id, code, message)),
        },
        RequestModel::WriteStdin(id, data_base64) => (
            runtime,
            stdin_answer(id, base64_bytes(data_base64), runtime),
        ),
    }
}

/// What there is to do about bytes for a command, as they were decoded.
pub open spec fn stdin_answer(
    id: Seq<char>,
    decoded: Result<Seq<u8>, Seq<char>>,
    runtime: RuntimeState,
) -> AnswerModel {
    match decoded {
        Err(error) => error_reply(
            id,
            ErrorCode::InvalidRequest,
            "invalid stdin base64: "@ + error,
        ),
        Ok(data) => match runtime.stdin_problem(id) {
            None => AnswerModel::Write { id, data },
            Some((code, message)) => error_reply(id, code, message),
        },
    }
}

/// The error reply to a command's request.
pub fn send_error(id: &str, code: ErrorCode, message: String) -> (answer: Answer)
    ensures
        answer@ == error_reply(id@, code, message@),
{
    Answer::Reply(ServerEvent::Error { id: Some(id.to_owned()), code, message })
}

/// What there is to do about bytes for a command, as they were decoded.
pub fn answer_stdin(id: &str, decoded: Result<Vec<u8>, String>, runtime: &Runtime) -> (answer: Answer)
    ensures
        answer@ == stdin_answer(
            id@,
            match decoded {
                Ok(data) => Ok(data@),
                Err(error) => Err(error@),
            },
            runtime@,
        ),
{
    match decoded {
        Err(error) => send_error(
            id,
            ErrorCode::InvalidRequest,
            joined("invalid stdin base64: ", error.as_str()),
        ),
        Ok(data) => match runtime.write_stdin(id) {
            Ok(_) => Answer::Write { id: id.to_owned(), data },
            Err((code, message)) => send_error(id, code, message),
        },
    }
}

/// The error reply where bytes could not be written to a command.
pub fn stdin_write_failed(id: &str, error: &str) -> (event: ServerEvent)
    ensures
        event@ == (EventModel::Error {
            id: Some(id@),
            code: ErrorCode::InvalidRequest,
            message: "cannot write command stdin: "@ + error@,
        }),
{
    ServerEvent::Error {
        id: Some(id.to_owned()),
        code: ErrorCode::InvalidRequest,
        message: joined("cannot write command stdin: ", error),
    }
}

/// Answers a request.
pub fn handle_request(
    request: &ClientRequest,
    runtime: &mut Runtime,
    can_exec: bool,
    backend_name: &str,
    hard_policy: &HardPolicy,
    facts: &Facts,
) -> (answered: Answer)
    ensures
        (final(runtime)@, answered@) == answer(
            request@,
            old(runtime)@,
            can_exec,
            backend_name@,
            hard_policy@,
            facts@,
        ),
{
    match request {
        ClientRequest::Shutdown => Answer::Shutdown,
        ClientRequest::Exec(request) => {
            if !can_exec {
                return send_error(
                    request.id.as_str(),
                    ErrorCode::BackendUnavailable,
                    joined3("the ", backend_name, " backend is unavailable; command blocked"),
                );
            }
            match validate_exec(request, hard_policy, facts) {
                Ok(accepted) => match runtime.start(accepted.id.as_str()) {
                    Ok(token) => Answer::Run { request: accepted, token },
                    Err((code, message)) => send_error(accepted.id.as_str(), code, message),
                },
                Err(Halt::Refused(reason)) => send_error(
                    request.id.as_str(),
                    ErrorCode::InvalidRequest,
                    reason,
                ),
                Err(Halt::Probe(probes)) => Answer::Probe(probes),
            }
        },
        ClientRequest::Cancel { id } => match runtime.cancel(id.as_str()) {
            Ok(signal) => Answer::Cancel { signal },
            Err((code, message)) => send_error(id.as_str(), code, message),
        },
        ClientRequest::WriteStdin { id, data_base64 } => {
            let decoded = base64_decode(data_base64.as_str());
            answer_stdin(id.as_str(), decoded, runtime)
        },
    }
}

/// The name of a platform's sandbox.
pub open spec fn sandbox_name(platform: Platform) -> Seq<char> {
    match platform {
        Platform::Macos => "seatbelt"@,
        Platform::Linux => "bubblewrap"@,
        Platform::Other => "native"@,
    }
}

/// The name of a platform's sandbox.
pub fn backend_name(platform: Platform) -> (name: String)
    ensures
        name@ == sandbox_name(platform),
{
    match platform {
        Platform::Macos => "seatbelt".to_owned(),
        Platform::Linux => "bubblewrap".to_owned(),
        Platform::Other => "native".to_owned(),
    }
}

/// The first event of the broker.
pub fn ready_event(platform_name: &str, platform: Platform, can_exec: bool) -> (event: ServerEvent)
    ensures
        event@ == (EventModel::Ready {
            version: PROTOCOL_VERSION,
            platform: platform_name@,
            backend: if can_exec {
                sandbox_name(platform)
            } else {
                "unavailable"@
            },
            can_exec,
            max_frame_bytes: MAX_FRAME_BYTES as u64,
        }),
{
    ServerEvent::Ready {
        version: PROTOCOL_VERSION,
        platform: platform_name.to_owned(),
        backend: if can_exec {
            backend_name(platform)
        } else {
            "unavailable".to_owned()
        },
        can_exec,
        max_frame_bytes: MAX_FRAME_BYTES as u64,
    }
}

/// Without a working sandbox no command runs: each request to run one is answered
/// with an error.
pub proof fn nothing_runs_without_a_sandbox(
    request: CommandRequest,
    runtime: RuntimeState,
    backend: Seq<char>,
    hard: Seq<Deny>,
    host: Host,
)
    ensures
        answer(RequestModel::Exec(request), runtime, false, backend, hard, host) == (
            runtime,
            error_reply(
                request.id,
                ErrorCode::BackendUnavailable,
                "the "@ + backend + " backend is unavailable; command blocked"@,
            ),
        ),
{
}

/// A request that is answered with an error, or that needs more facts, leaves the
/// runtime as it was.
pub proof fn refused_requests_change_nothing(
    request: RequestModel,
    runtime: RuntimeState,
    can_exec: bool,
    backend: Seq<char>,
    hard: Seq<Deny>,
    host: Host,
)
    ensures
        ({
            let (after, answered) = answer(request, runtime, can_exec, backend, hard, host);
            answered is Reply || answered is Probe ==> after == runtime
        }),
{
}

/// A command runs only where its request was accepted as a whole, the sandbox works
/// and no other command runs.
pub proof fn only_validated_commands_run(
    request: RequestModel,
    runtime: RuntimeState,
    can_exec: bool,
    backend: Seq<char>,
    hard: Seq<Deny>,
    host: Host,
)
    ensures
        answer(request, runtime, can_exec, backend, hard, host).1 matches AnswerModel::Run {
            request: accepted,
            ..
        } ==> can_exec && runtime.active is None && request is Exec && validated(
            host,
            request->Exec_0,
            hard,
        ) == Ok::<Validated, HaltModel>(accepted),
{
}

} // verus!
