//! Frames, output and the runtime of the broker.

use pi_sandbox_broker::broker::{
    answer_stdin, backend_name, ready_event, send_error, stdin_write_failed, Answer,
};
use pi_sandbox_broker::command::Platform;
use pi_sandbox_broker::command_run::{CommandRun, Effect, Report, Stage};
use pi_sandbox_broker::executor::{IdleStep, Runtime};
use pi_sandbox_broker::framing::{frame_length, read_frame, write_frame, FrameError};
use pi_sandbox_broker::lifecycle::{escalate, Escalation, GroupSignal, LaunchBarrier, Supervisor};
use pi_sandbox_broker::output::{claim_output, forward_chunk, OutputMeter, OutputStream};
use pi_sandbox_broker::pid_tracker::{ProcessGuard, StartTime};
use pi_sandbox_broker::protocol::{Denial, ErrorCode, ServerEvent, MAX_FRAME_BYTES};

fn guard(pid: i32, ticks: u64) -> ProcessGuard {
    ProcessGuard { pid, start: StartTime::Ticks(ticks) }
}

#[test]
fn frames_do_not_depend_on_newlines() {
    let body = b"{\"message\":\"line one\nline two\"}".to_vec();
    let mut bytes = Vec::new();
    write_frame(&mut bytes, &body).expect("write frame");
    let (decoded, next) = read_frame(&bytes, 0).expect("read frame").expect("one frame");
    assert_eq!(body, decoded);
    assert_eq!(next, bytes.len());
}

#[test]
fn rejects_oversized_frames_before_allocating_the_body() {
    let size = u32::try_from(MAX_FRAME_BYTES + 1).expect("test frame size");
    let error = read_frame(&size.to_be_bytes().to_vec(), 0).expect_err("oversized frame must fail");
    assert!(matches!(error, FrameError::TooLarge(_)));
}

#[test]
fn clean_eof_has_no_frame() {
    let frame = read_frame(&Vec::<u8>::new(), 0).expect("clean EOF");
    assert_eq!(frame, None);
}

#[test]
fn partial_length_is_a_protocol_error() {
    let error = read_frame(&vec![0_u8, 0], 0).expect_err("partial frame length must fail");
    assert!(matches!(error, FrameError::Io(_)));
}

#[test]
fn frames_follow_each_other() {
    let mut bytes = Vec::new();
    write_frame(&mut bytes, &b"one".to_vec()).expect("first");
    write_frame(&mut bytes, &b"second".to_vec()).expect("second");
    assert_eq!(bytes[..7], [0, 0, 0, 3, b'o', b'n', b'e']);
    let (first, next) = read_frame(&bytes, 0).expect("read").expect("first");
    let (second, end) = read_frame(&bytes, next).expect("read").expect("second");
    assert_eq!((first, second), (b"one".to_vec(), b"second".to_vec()));
    assert_eq!(end, bytes.len());
}

#[test]
fn empty_and_partial_frames_fail() {
    assert!(matches!(read_frame(&vec![0, 0, 0, 0], 0), Err(FrameError::Empty)));
    assert!(matches!(read_frame(&vec![0, 0, 0, 2, b'x'], 0), Err(FrameError::Io(_))));
    let mut bytes = Vec::new();
    assert!(matches!(write_frame(&mut bytes, &Vec::new()), Err(FrameError::Empty)));
    assert!(matches!(
        write_frame(&mut bytes, &vec![b' '; MAX_FRAME_BYTES + 1]),
        Err(FrameError::TooLarge(size)) if size == MAX_FRAME_BYTES + 1
    ));
    assert!(bytes.is_empty());
    assert!(write_frame(&mut bytes, &vec![b' '; MAX_FRAME_BYTES]).is_ok());
}

#[test]
fn frame_errors_say_what_is_wrong() {
    assert_eq!(FrameError::Empty.message(), "empty frame");
    assert_eq!(FrameError::TooLarge(7).message(), "frame size 7 exceeds 1048576");
    assert_eq!(FrameError::Io("broken".to_owned()).message(), "frame I/O failed: broken");
    assert_eq!(FrameError::Json("bad".to_owned()).message(), "invalid frame JSON: bad");
    assert!(matches!(frame_length(&[0, 0, 1, 2]), Ok(258)));
}

#[test]
fn output_claim_never_exceeds_limit() {
    let mut used = 0;
    assert_eq!(claim_output(&mut used, 5, 3), 3);
    assert_eq!(claim_output(&mut used, 5, 4), 2);
    assert_eq!(claim_output(&mut used, 5, 1), 0);
    assert_eq!(used, 5);
}

#[test]
fn output_chunks_are_encoded_and_capped() {
    let mut meter = OutputMeter { used: 0, limit: 8, truncated: false };
    let mut stream = OutputStream::new(true);
    let first = forward_chunk(&mut meter, &stream, "one", b"hello\n").expect("chunk");
    assert_eq!(
        first,
        ServerEvent::Stdout {
            id: "one".to_owned(),
            sequence: 0,
            data_base64: "aGVsbG8K".to_owned(),
        }
    );
    stream.sent();
    let second = forward_chunk(&mut meter, &stream, "one", b"more").expect("cut chunk");
    assert_eq!(
        second,
        ServerEvent::Stdout { id: "one".to_owned(), sequence: 1, data_base64: "bW8=".to_owned() }
    );
    assert!(meter.truncated);
    assert_eq!(forward_chunk(&mut meter, &OutputStream::new(false), "one", b"x"), None);
    assert_eq!(meter.used, 8);
}

#[test]
fn cancel_is_idempotent_after_a_command_is_gone() {
    let mut runtime = Runtime::new();
    assert!(runtime.cancel("already-finished").is_ok());
}

#[test]
fn one_command_runs_at_a_time() {
    let mut runtime = Runtime::new();
    let token = runtime.start("one").expect("start");
    assert_eq!(
        runtime.start("one"),
        Err((ErrorCode::DuplicateCommandId, "duplicate active command ID: one".to_owned()))
    );
    assert_eq!(
        runtime.start("two"),
        Err((
            ErrorCode::InvalidRequest,
            "protocol v4 permits one active command per broker".to_owned()
        ))
    );
    runtime.clear_active(token + 1);
    assert!(runtime.start("two").is_err());
    runtime.clear_active(token);
    assert!(runtime.start("two").is_ok());
}

#[test]
fn cancellation_is_for_the_command_that_runs() {
    let mut runtime = Runtime::new();
    let token = runtime.start("one").expect("start");
    assert_eq!(
        runtime.cancel("two"),
        Err((ErrorCode::NotFound, "command is not active: two".to_owned()))
    );
    assert!(!runtime.is_cancelled(token));
    assert_eq!(runtime.cancel("one"), Ok(true));
    assert!(runtime.is_cancelled(token));
    assert!(!runtime.release(token));
    let mut released = Runtime::new();
    let token = released.start("one").expect("start");
    assert!(released.release(token));
    assert!(released.shutdown());
    let active = released.active.as_ref().expect("active");
    assert_eq!(active.launch, LaunchBarrier::Released);
    assert!(active.cancel);
}

#[test]
fn stdin_is_open_for_interactive_commands_only() {
    let mut runtime = Runtime::new();
    assert_eq!(
        runtime.write_stdin("one"),
        Err((ErrorCode::NotFound, "command is not active: one".to_owned()))
    );
    let token = runtime.start("one").expect("start");
    assert_eq!(
        runtime.write_stdin("one"),
        Err((ErrorCode::InvalidRequest, "command stdin is not open: one".to_owned()))
    );
    runtime.open_stdin(token);
    assert!(runtime.write_stdin("one").is_ok());
    runtime.clear_process(token);
    assert!(runtime.write_stdin("one").is_err());
}

#[test]
fn only_the_noted_root_is_signalled() {
    let mut runtime = Runtime::new();
    let token = runtime.start("one").expect("start");
    runtime.set_process(token, 77);
    assert_eq!(runtime.signal_group(Some(guard(77, 5))), None);
    runtime.set_root(token, guard(77, 5));
    assert_eq!(runtime.signal_group(Some(guard(77, 5))), Some(77));
    assert_eq!(runtime.signal_group(Some(guard(77, 6))), None);
    assert_eq!(runtime.signal_group(None), None);
    runtime.clear_process(token);
    assert_eq!(runtime.signal_group(Some(guard(77, 5))), None);
}

#[test]
fn the_broker_waits_for_its_command_at_the_end() {
    let mut runtime = Runtime::new();
    assert_eq!(runtime.wait_for_idle(10, 100), IdleStep::Idle);
    runtime.start("one").expect("start");
    assert_eq!(runtime.wait_for_idle(10, 100), IdleStep::Wait(90));
    assert_eq!(runtime.wait_for_idle(100, 100), IdleStep::Kill);
}

fn advance_to_running(run: &mut CommandRun) {
    assert_eq!(run.advance(Report::Prepared(Ok(()))), vec![Effect::Spawn]);
    let first = run.advance(Report::Spawned(Ok(42)));
    if run.collects_denials {
        assert_eq!(first, vec![Effect::BeginDenials]);
        assert_eq!(run.advance(Report::Observed(Ok(()))), vec![Effect::Track]);
    } else {
        assert_eq!(first, vec![Effect::Track]);
    }
    assert_eq!(run.advance(Report::Followed(Ok(()))), vec![Effect::RecordRoot]);
    assert_eq!(run.advance(Report::Rooted(true)), vec![Effect::ReleaseBarrier]);
    assert_eq!(
        run.advance(Report::Released(true)),
        vec![Effect::Emit(ServerEvent::Started { id: "one".to_owned(), pid: 42 })]
    );
    assert_eq!(run.advance(Report::Announced(true)), vec![Effect::OpenBarrier]);
}

fn run(collects_denials: bool) -> CommandRun {
    CommandRun::new("one".to_owned(), "/usr/bin/bwrap".to_owned(), collects_denials, Some(1_000))
}

#[test]
fn a_command_tells_of_its_start_and_its_exit() {
    let mut run = run(true);
    advance_to_running(&mut run);
    assert_eq!(run.advance(Report::Polled { elapsed: 10, cancel: false }), vec![Effect::Wait]);
    assert_eq!(
        run.advance(Report::Exited { code: Some(3), signal: None, cancel: false }),
        vec![
            Effect::CleanupGroup,
            Effect::CleanupTracked,
            Effect::FinishStreams,
            Effect::FinishDenials
        ]
    );
    let denial = Denial { operation: "file-read-data".to_owned(), path: None, process: None };
    assert_eq!(
        run.advance(Report::Settled { truncated: true, denials: vec![denial.clone()] }),
        vec![
            Effect::Emit(ServerEvent::Denials {
                id: "one".to_owned(),
                items: vec![denial],
                complete: false
            }),
            Effect::ClearProcess,
            Effect::Emit(ServerEvent::Exit {
                id: "one".to_owned(),
                code: Some(3),
                signal: None,
                timed_out: false,
                cancelled: false,
                output_truncated: true,
            })
        ]
    );
    assert_eq!(run.stage, Stage::Ended);
    assert!(run.advance(Report::Lost).is_empty());
}

#[test]
fn a_command_that_takes_too_long_is_ended() {
    let mut run = run(false);
    advance_to_running(&mut run);
    assert_eq!(
        run.advance(Report::Polled { elapsed: 1_000, cancel: false }),
        vec![Effect::Signal(GroupSignal::Terminate), Effect::Wait]
    );
    assert_eq!(run.advance(Report::Polled { elapsed: 1_249, cancel: false }), vec![Effect::Wait]);
    assert_eq!(
        run.advance(Report::Polled { elapsed: 1_250, cancel: false }),
        vec![Effect::Signal(GroupSignal::Kill), Effect::Wait]
    );
    run.advance(Report::Exited { code: None, signal: Some(9), cancel: true });
    let effects = run.advance(Report::Settled { truncated: false, denials: vec![] });
    assert_eq!(
        effects,
        vec![
            Effect::ClearProcess,
            Effect::Emit(ServerEvent::Exit {
                id: "one".to_owned(),
                code: None,
                signal: Some(9),
                timed_out: true,
                cancelled: true,
                output_truncated: false,
            })
        ]
    );
}

#[test]
fn a_command_that_cannot_start_tells_of_it_once() {
    let error = |code, message: &str| {
        Effect::Emit(ServerEvent::Error {
            id: Some("one".to_owned()),
            code,
            message: message.to_owned(),
        })
    };
    let mut refused = run(false);
    assert_eq!(
        refused.advance(Report::Prepared(Err("no right".to_owned()))),
        vec![error(ErrorCode::PolicyRejected, "no right")]
    );
    let mut unspawned = run(false);
    unspawned.advance(Report::Prepared(Ok(())));
    assert_eq!(
        unspawned.advance(Report::Spawned(Err("not found".to_owned()))),
        vec![error(ErrorCode::CommandStartFailed, "cannot start /usr/bin/bwrap: not found")]
    );
    let mut cancelled = run(false);
    cancelled.advance(Report::Prepared(Ok(())));
    cancelled.advance(Report::Spawned(Ok(42)));
    cancelled.advance(Report::Followed(Ok(())));
    cancelled.advance(Report::Rooted(true));
    assert_eq!(
        cancelled.advance(Report::Released(false)),
        vec![
            Effect::TerminateChild,
            Effect::CleanupTracked,
            Effect::AbortDenials,
            Effect::ClearProcess,
            error(ErrorCode::Cancelled, "command was cancelled before launch")
        ]
    );
    let mut untracked = run(true);
    untracked.advance(Report::Prepared(Ok(())));
    untracked.advance(Report::Spawned(Ok(42)));
    untracked.advance(Report::Observed(Ok(())));
    assert_eq!(
        untracked.advance(Report::Followed(Err("gone".to_owned()))),
        vec![
            Effect::TerminateChild,
            Effect::AbortDenials,
            Effect::ClearProcess,
            error(ErrorCode::CommandStartFailed, "gone")
        ]
    );
    assert!(untracked.advance(Report::Followed(Ok(()))).is_empty());
}

#[test]
fn a_lost_command_is_killed_and_reaped() {
    let mut run = run(false);
    advance_to_running(&mut run);
    assert_eq!(
        run.advance(Report::Lost),
        vec![Effect::Signal(GroupSignal::Kill), Effect::Reap]
    );
    assert_eq!(run.stage, Stage::Running);
}

#[test]
fn processes_are_asked_before_they_are_killed() {
    assert_eq!(
        escalate(Escalation::Fresh, true, 0),
        (Escalation::Asked, Some(GroupSignal::Terminate))
    );
    assert_eq!(escalate(Escalation::Asked, true, 249), (Escalation::Asked, None));
    assert_eq!(
        escalate(Escalation::Asked, true, 250),
        (Escalation::Killed, Some(GroupSignal::Kill))
    );
    assert_eq!(escalate(Escalation::Killed, false, 0), (Escalation::Over, None));
    assert_eq!(escalate(Escalation::Fresh, false, 0), (Escalation::Over, None));
}

#[test]
fn a_cancelled_command_is_asked_to_end_once() {
    let mut supervisor = Supervisor::new(None);
    assert_eq!(supervisor.poll(5, false), None);
    assert_eq!(supervisor.poll(25, true), Some(GroupSignal::Terminate));
    assert_eq!(supervisor.poll(45, true), None);
    assert!(supervisor.cancelled && !supervisor.timed_out);
}

#[test]
fn the_ready_event_names_the_sandbox() {
    assert_eq!(
        ready_event("linux", Platform::Linux, true),
        ServerEvent::Ready {
            version: 4,
            platform: "linux".to_owned(),
            backend: "bubblewrap".to_owned(),
            can_exec: true,
            max_frame_bytes: 1_048_576,
        }
    );
    assert!(matches!(
        ready_event("macos", Platform::Macos, false),
        ServerEvent::Ready { backend, can_exec: false, .. } if backend == "unavailable"
    ));
    assert_eq!(backend_name(Platform::Macos), "seatbelt");
    assert_eq!(backend_name(Platform::Other), "native");
}

fn error_of(answer: Answer) -> (Option<String>, ErrorCode, String) {
    match answer {
        Answer::Reply(ServerEvent::Error { id, code, message }) => (id, code, message),
        _ => panic!("the answer is no error"),
    }
}

#[test]
fn stdin_answers_depend_on_the_decoded_bytes() {
    let mut runtime = Runtime::new();
    let token = runtime.start("one").expect("start");
    runtime.open_stdin(token);
    assert!(matches!(
        answer_stdin("one", Ok(vec![1, 2]), &runtime),
        Answer::Write { id, data } if id == "one" && data == vec![1, 2]
    ));
    assert_eq!(
        error_of(answer_stdin("one", Err("bad padding".to_owned()), &runtime)),
        (
            Some("one".to_owned()),
            ErrorCode::InvalidRequest,
            "invalid stdin base64: bad padding".to_owned()
        )
    );
    assert_eq!(error_of(answer_stdin("two", Ok(vec![]), &runtime)).1, ErrorCode::NotFound);
    assert_eq!(
        error_of(send_error("one", ErrorCode::NotFound, "gone".to_owned())),
        (Some("one".to_owned()), ErrorCode::NotFound, "gone".to_owned())
    );
    assert!(matches!(
        stdin_write_failed("one", "closed"),
        ServerEvent::Error { message, .. } if message == "cannot write command stdin: closed"
    ));
}
