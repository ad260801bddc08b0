//! Denials of the Seatbelt log and the processes of a command.

use std::collections::{HashSet, VecDeque};

use pi_sandbox_broker::denial_collector::{
    collect_command_denials, says_ready, ActiveCommand, DenialCollector, LogStream, LoggedDenial,
    MAX_COMMAND_ITEMS, MAX_RECENT_ITEMS,
};
use pi_sandbox_broker::denial_log::{
    exact_absolute_path, parse_fields, parse_log_line, parse_message, BoundedLine,
};
use pi_sandbox_broker::lifecycle::{Escalation, GroupSignal};
use pi_sandbox_broker::numbers::{parse_i32, parse_u64};
use pi_sandbox_broker::pid_tracker::{
    cleanup, list_child_pids, signal_current, Candidate, ChildList, ChildrenStep, PidTracker,
    ProcessGuard, ProcessInfo, RootWatch, StartTime, TrackerEvent, TrackerStep,
    MAX_TRACKED_PROCESSES,
};
use pi_sandbox_broker::protocol::Denial;
use pi_sandbox_broker::words::{nth_word_behind_bracket, part_at_space, trim};

#[test]
fn parses_exact_filesystem_denial() {
    let message = "Sandbox: issues(1234) deny(1) file-write-create /Users/test/issues/db.sqlite";
    let (pid, denial, _) = parse_message(message).expect("parse denial");
    assert_eq!(pid, 1234);
    assert_eq!(denial.operation, "file-write-create");
    assert_eq!(denial.path.as_deref(), Some("/Users/test/issues/db.sqlite"));
    assert_eq!(denial.process.as_deref(), Some("issues"));
}

#[test]
fn rejects_invalid_pids_and_paths_for_non_file_operations() {
    assert!(parse_message("Sandbox: tool(0) deny(1) file-read-data /state").is_none());
    let (_, denial, _) = parse_message("Sandbox: tool(7) deny(1) network-outbound /state")
        .expect("parse non-file denial");
    assert_eq!(denial.operation, "network-outbound");
    assert_eq!(denial.path, None);
}

#[test]
fn bounded_reader_discards_oversized_line_and_recovers() {
    let input = format!("{}\nok\n", "x".repeat(32)).into_bytes();
    let mut reader = BoundedLine::new(8);
    let (read, line) = reader.read_bounded_line(&input);
    assert_eq!(line, Some(Vec::new()));
    let (_, line) = reader.read_bounded_line(&input[read..]);
    assert_eq!(line, Some(b"ok\n".to_vec()));
}

#[test]
fn lines_do_not_depend_on_how_the_stream_is_cut() {
    let mut reader = BoundedLine::new(8);
    assert_eq!(reader.read_bounded_line(b"ab"), (2, None));
    assert_eq!(reader.read_bounded_line(b"cd\nef"), (3, Some(b"abcd\n".to_vec())));
    assert_eq!(reader.read_bounded_line(b"ef"), (2, None));
    assert_eq!(reader.finish(), Some(b"ef".to_vec()));
    assert_eq!(reader.finish(), None);
    assert_eq!(reader.read_bounded_line(b"12345"), (5, None));
    assert_eq!(reader.read_bounded_line(b"6789"), (4, None));
    assert_eq!(reader.finish(), Some(Vec::new()));
    assert_eq!(reader.read_bounded_line(b"1234567\n"), (8, Some(b"1234567\n".to_vec())));
}

#[test]
fn command_filter_uses_window_and_observed_pids() {
    let denial = Denial {
        operation: "file-write-create".to_owned(),
        path: Some("/state/db".to_owned()),
        process: Some("issues".to_owned()),
    };
    let recent = VecDeque::from([
        LoggedDenial { sequence: 1, pid: 7, denial: denial.clone(), bytes: 10 },
        LoggedDenial { sequence: 2, pid: 8, denial: denial.clone(), bytes: 10 },
    ]);
    let active = ActiveCommand {
        id: "one".to_owned(),
        start_sequence: 2,
        pids: HashSet::from([7, 8]),
    };
    assert_eq!(collect_command_denials(&recent, &active), vec![denial]);
}

#[test]
fn stale_pid_observer_cannot_change_the_next_command() {
    let mut collector = DenialCollector::start(LogStream::Ready).expect("collector");
    let old = collector.begin("old").expect("old command");
    collector.abort("old");
    let new = collector.begin("new").expect("new command");
    old.observe(&mut collector, 7);
    assert!(collector.active().expect("active command").pids.is_empty());
    new.observe(&mut collector, 0);
    assert!(collector.active().expect("active command").pids.is_empty());
    new.observe(&mut collector, 7);
    assert_eq!(collector.active().expect("active command").pids, HashSet::from([7]));
}

#[test]
fn command_results_are_deduplicated_and_item_capped() {
    let mut recent = VecDeque::new();
    for sequence in 0..200_u64 {
        recent.push_back(logged(sequence, &format!("/state/{sequence}")));
    }
    recent.push_back(logged(0, "/state/0"));
    let active =
        ActiveCommand { id: "one".to_owned(), start_sequence: 0, pids: HashSet::from([7]) };
    let result = collect_command_denials(&recent, &active);
    assert_eq!(result.len(), MAX_COMMAND_ITEMS);
    assert_eq!(result[0].path.as_deref(), Some("/state/0"));
}

fn logged(sequence: u64, path: &str) -> LoggedDenial {
    LoggedDenial {
        sequence,
        pid: 7,
        denial: Denial {
            operation: "file-write-create".to_owned(),
            path: Some(path.to_owned()),
            process: Some("tool".to_owned()),
        },
        bytes: 24,
    }
}

#[test]
fn command_results_are_capped_by_their_size() {
    let mut first = logged(0, "/a");
    first.bytes = 65_000;
    let mut second = logged(1, "/b");
    second.bytes = 600;
    let mut third = logged(2, "/c");
    third.bytes = 536;
    let recent = VecDeque::from([first, second, third]);
    let active =
        ActiveCommand { id: "one".to_owned(), start_sequence: 0, pids: HashSet::from([7]) };
    let paths: Vec<Option<String>> =
        collect_command_denials(&recent, &active).into_iter().map(|denial| denial.path).collect();
    assert_eq!(paths, vec![Some("/a".to_owned()), Some("/c".to_owned())]);
}

#[test]
fn denials_are_taken_from_the_log_of_the_command() {
    let line = |pid: u32, path: &str| {
        format!(
            "{{\"eventMessage\":\"Sandbox: tool({pid}) deny(1) file-read-data {path}\"}}"
        )
        .into_bytes()
    };
    let mut collector = DenialCollector::start(LogStream::Ready).expect("collector");
    assert!(!collector.take_line(&line(7, "/before")));
    let observer = collector.begin("one").expect("command");
    assert_eq!(
        collector.begin("two").map(|_| ()),
        Err("denial collector already has an active command".to_owned())
    );
    observer.observe(&mut collector, 7);
    assert!(collector.take_line(b"Filtering the log data using \"x\"\n"));
    assert!(!collector.take_line(&line(7, "/state")));
    assert!(!collector.take_line(&line(8, "/other")));
    assert!(!collector.take_line(b"not json"));
    assert!(collector.finish("two").is_empty());
    let items = collector.finish("one");
    assert_eq!(items.len(), 1);
    assert_eq!(items[0].path.as_deref(), Some("/state"));
    assert!(collector.finish("one").is_empty());
}

#[test]
fn only_the_newest_denials_are_kept() {
    let mut collector = DenialCollector::start(LogStream::Ready).expect("collector");
    let observer = collector.begin("one").expect("command");
    observer.observe(&mut collector, 7);
    for number in 0..(MAX_RECENT_ITEMS + 5) {
        let line = format!(
            "{{\"eventMessage\":\"Sandbox: t(7) deny(1) file-read-data /state/{number}\"}}"
        );
        collector.take_line(line.as_bytes());
    }
    let items = collector.finish("one");
    assert_eq!(items[0].path.as_deref(), Some("/state/5"));
}

#[test]
fn a_log_stream_that_is_not_ready_has_no_collector() {
    let problem = |stream| DenialCollector::start(stream).map(|_| ()).expect_err("problem");
    assert_eq!(problem(LogStream::Unsupported), "Seatbelt denial collection requires macOS");
    assert_eq!(
        problem(LogStream::SpawnFailed("gone".to_owned())),
        "cannot start Seatbelt denial collector: gone"
    );
    assert_eq!(
        problem(LogStream::StdoutMissing),
        "Seatbelt denial collector stdout is unavailable"
    );
    assert_eq!(
        problem(LogStream::StderrMissing),
        "Seatbelt denial collector stderr is unavailable"
    );
    assert_eq!(
        problem(LogStream::ReaderFailed("full".to_owned())),
        "cannot start denial collector reader: full"
    );
    assert_eq!(
        problem(LogStream::DiagnosticsFailed("full".to_owned())),
        "cannot start denial collector diagnostics: full"
    );
    assert_eq!(problem(LogStream::NotReady), "Seatbelt denial collector readiness timed out");
    assert!(says_ready(b"Filtering the log data using "));
    assert!(!says_ready(b"Filtering the log data"));
}

#[test]
fn messages_are_parsed_field_by_field() {
    let (pid, denial, bytes) =
        parse_fields(" tool ", "12", "file-read-data \"/a b\"").expect("denial");
    assert_eq!((pid, bytes), (12, 22));
    assert_eq!(denial.path.as_deref(), Some("/a b"));
    assert_eq!(denial.process.as_deref(), Some("tool"));
    assert!(parse_fields("  ", "12", "file-read-data /a").is_none());
    assert!(parse_fields(&"p".repeat(257), "12", "file-read-data /a").is_none());
    assert!(parse_fields("tool", "12", &"o".repeat(129)).is_none());
    assert!(parse_fields("tool", "12", &"o".repeat(128)).is_some());
    assert!(parse_fields("tool", "2147483648", "file-read-data /a").is_none());
    assert!(parse_fields("tool", "-1", "file-read-data /a").is_none());
    assert!(parse_message("Sandbox: tool deny(1) file-read-data /a").is_none());
    assert!(parse_log_line(b"{\"eventMessage\":7}").is_none());
    assert!(parse_log_line(
        b"{\"eventMessage\":\"Sandbox: tool(7) deny(1) file-read-data /a\"}"
    )
    .is_some());
}

#[test]
fn denied_paths_are_absolute() {
    assert_eq!(exact_absolute_path(" '/a' "), Some("/a".to_owned()));
    assert_eq!(exact_absolute_path("\"/a"), None);
    assert_eq!(exact_absolute_path("\""), None);
    assert_eq!(exact_absolute_path("a"), None);
    assert_eq!(exact_absolute_path("/a\0b"), None);
    assert_eq!(exact_absolute_path(&format!("/{}", "x".repeat(4_096))), None);
    assert!(exact_absolute_path(&format!("/{}", "x".repeat(4_095))).is_some());
}

#[test]
fn words_and_numbers_are_read() {
    assert_eq!(trim(" \t a b \u{3000}"), "a b");
    assert_eq!(part_at_space("a b c"), Some(("a".to_owned(), "b c".to_owned())));
    assert_eq!(part_at_space("abc"), None);
    assert_eq!(nth_word_behind_bracket("1 (a) b) x  y", 1), Some("y".to_owned()));
    assert_eq!(nth_word_behind_bracket("1 (a) b) x  y", 2), None);
    assert_eq!(nth_word_behind_bracket("1 a", 0), None);
    assert_eq!(parse_u64("+18446744073709551615"), Some(u64::MAX));
    assert_eq!(parse_u64("18446744073709551616"), None);
    assert_eq!(parse_u64("-1"), None);
    assert_eq!(parse_u64(""), None);
    assert_eq!(parse_i32("-2147483648"), Some(i32::MIN));
    assert_eq!(parse_i32("2147483648"), None);
    assert_eq!(parse_i32("+"), None);
    assert_eq!(parse_i32("1x"), None);
}

fn stat(ticks: u64) -> Option<String> {
    Some(format!(
        "41 (sh (x) y) S 1 41 41 0 -1 4194304 100 0 0 0 1 2 3 4 20 0 1 0 {ticks} 100 200"
    ))
}

#[test]
fn current_process_identity_is_stable() {
    let guard = ProcessGuard::read(41, &stat(987_654)).expect("read current identity");
    assert_eq!(guard.start, StartTime::Ticks(987_654));
    assert!(guard.is_current(ProcessGuard::read(41, &stat(987_654))));
    let other = ProcessGuard { pid: 41, start: StartTime::Ticks(987_655) };
    assert!(!other.is_current(ProcessGuard::read(41, &stat(987_654))));
    assert_eq!(ProcessGuard::read(0, &stat(1)), None);
    assert_eq!(ProcessGuard::read(41, &None), None);
    assert_eq!(ProcessGuard::read(41, &Some("41 (sh) S 1".to_owned())), None);
}

fn clock(pid: i32, microseconds: u64) -> ProcessGuard {
    ProcessGuard { pid, start: StartTime::Clock { seconds: 5, microseconds } }
}

#[test]
fn process_identity_rejects_a_different_start_time() {
    let current = clock(9, 1);
    let wrong = clock(9, 2);
    assert!(current.is_current(Some(current)));
    assert!(!wrong.is_current(Some(current)));
}

fn tracker() -> PidTracker {
    let root = clock(9, 1);
    PidTracker::start_observed(9, RootWatch::Watched { root, now: Some(root) }, None)
        .expect("start tracker")
}

#[test]
fn tracker_collects_an_ordinary_child() {
    let root = clock(9, 1);
    let child = clock(10, 2);
    let info = Some(ProcessInfo { identity: child, parent_pid: 9 });
    let mut tracker = tracker();
    assert_eq!(
        tracker.handle(TrackerEvent::Process { ident: 9, error: false, fork: true, exit: false }),
        TrackerStep::AddChildren(9)
    );
    assert_eq!(tracker.add_children(9, Some(root)), ChildrenStep::List(root));
    tracker.add_pid(10, root);
    let candidate = tracker.next_candidate().expect("candidate");
    assert_eq!(candidate, Candidate { pid: 10, parent: root });
    assert_eq!(tracker.examine(candidate, Some(root), info), Some(child));
    assert!(tracker.confirm(candidate, child, Some(root), info));
    assert_eq!(tracker.examine(candidate, Some(root), info), None);
    assert_eq!(tracker.refresh(), vec![9, 10]);
    assert_eq!(
        tracker.handle(TrackerEvent::Process { ident: 10, error: false, fork: false, exit: true }),
        TrackerStep::Nothing
    );
    assert_eq!(tracker.refresh(), vec![9]);
    assert_eq!(tracker.handle(TrackerEvent::Stop), TrackerStep::Stop);
    assert!(tracker.next_candidate().is_none());
    let seen = tracker.into_seen();
    assert!(seen.iter().any(|identity| identity.pid == 10));
}

#[test]
fn changed_processes_are_not_followed() {
    let root = clock(9, 1);
    let child = clock(10, 2);
    let candidate = Candidate { pid: 10, parent: root };
    let info = Some(ProcessInfo { identity: child, parent_pid: 9 });
    let stranger = Some(ProcessInfo { identity: child, parent_pid: 1 });
    let mut tracker = tracker();
    assert_eq!(tracker.examine(candidate, Some(clock(9, 3)), info), None);
    assert_eq!(tracker.examine(candidate, Some(root), stranger), None);
    assert_eq!(tracker.examine(candidate, Some(root), None), None);
    assert!(!tracker.confirm(candidate, child, Some(root), stranger));
    assert!(!tracker.confirm(candidate, child, None, info));
    assert_eq!(tracker.add_children(9, Some(clock(9, 3))), ChildrenStep::Gone);
    assert_eq!(tracker.add_children(9, Some(root)), ChildrenStep::Unknown);
    assert_eq!(tracker.into_seen(), vec![root]);
}

#[test]
fn no_more_than_so_many_processes_are_followed() {
    let root = clock(9, 1);
    let mut tracker = tracker();
    for number in 0..(MAX_TRACKED_PROCESSES as i32 + 3) {
        let child = clock(100 + number, 2);
        let candidate = Candidate { pid: child.pid, parent: root };
        let info = Some(ProcessInfo { identity: child, parent_pid: 9 });
        tracker.confirm(candidate, child, Some(root), info);
    }
    assert_eq!(tracker.into_seen().len(), MAX_TRACKED_PROCESSES);
}

#[test]
fn roots_that_cannot_be_followed_are_refused() {
    let root = clock(9, 1);
    let problem = |pid, watch| {
        PidTracker::start_observed(pid, watch, None).map(|_| ()).expect_err("problem")
    };
    assert_eq!(problem(0, RootWatch::Unidentified), "cannot track an invalid root PID");
    assert_eq!(problem(9, RootWatch::Unidentified), "cannot identify command root PID 9");
    assert_eq!(
        problem(9, RootWatch::QueueFailed("full".to_owned())),
        "cannot create process tracker: full"
    );
    assert_eq!(
        problem(9, RootWatch::StopEventFailed("full".to_owned())),
        "cannot register process tracker stop event: full"
    );
    assert_eq!(
        problem(9, RootWatch::WatchFailed("gone".to_owned())),
        "cannot watch command root PID 9: gone"
    );
    assert_eq!(
        problem(9, RootWatch::Watched { root, now: None }),
        "command root PID 9 changed during tracker setup"
    );
    assert_eq!(
        PidTracker::start(-3, None).map(|_| ()),
        Err("cannot identify Linux sandbox process -3".to_owned())
    );
    assert_eq!(PidTracker::start(9, Some(root)).expect("tracker").root_guard(), root);
}

#[test]
fn cleanup_signals_an_observed_child() {
    let identities = vec![clock(9, 1), clock(10, 2), clock(11, 3)];
    let now = vec![Some(clock(9, 1)), None, Some(clock(11, 4))];
    assert_eq!(signal_current(&identities, &now), vec![9]);
    assert_eq!(
        cleanup(Escalation::Fresh, &identities, &now, 0),
        (Escalation::Asked, Some(GroupSignal::Terminate), vec![9])
    );
    assert_eq!(
        cleanup(Escalation::Asked, &identities, &now, 250),
        (Escalation::Killed, Some(GroupSignal::Kill), vec![9])
    );
    assert_eq!(
        cleanup(Escalation::Asked, &identities, &vec![None, None, None], 20),
        (Escalation::Over, None, vec![])
    );
}

#[test]
fn child_lists_are_asked_for_again_when_full() {
    assert_eq!(list_child_pids(16, 0), ChildList::Empty);
    assert_eq!(list_child_pids(16, -1), ChildList::Empty);
    assert_eq!(list_child_pids(16, 15), ChildList::Complete(15));
    assert_eq!(list_child_pids(16, 16), ChildList::Retry(32));
    assert_eq!(list_child_pids(16, 100), ChildList::Retry(116));
    assert_eq!(list_child_pids(3_000, 3_000), ChildList::Retry(4_096));
    assert_eq!(list_child_pids(4_096, 5_000), ChildList::Complete(4_096));
}

#[test]
fn observers_are_told_of_followed_processes() {
    let root = clock(9, 1);
    let mut collector = DenialCollector::start(LogStream::Ready).expect("collector");
    let observer = collector.begin("one").expect("command");
    let watch = RootWatch::Watched { root, now: Some(root) };
    let observed = PidTracker::start_observed(9, watch, Some(observer)).expect("tracker");
    observed.observe(&mut collector, 9);
    tracker().observe(&mut collector, 10);
    assert_eq!(collector.active().expect("active").pids, HashSet::from([9]));
}
