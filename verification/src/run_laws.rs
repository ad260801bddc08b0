//! What the events and effects of a command say of what the host reported.

use vstd::prelude::*;

use crate::command_run::{advanced, events_of, history, EffectModel, ReportModel, RunState, Stage};
use crate::lifecycle::{GroupSignal, Supervisor};
use crate::protocol::{ErrorCode, EventModel};

verus! {

/// Whether a look at the command found that its time was up.
pub open spec fn overdue(report: ReportModel, timeout_ms: Option<u64>) -> bool {
    report matches ReportModel::Polled { elapsed, .. } && timeout_ms matches Some(timeout)
        && elapsed >= timeout
}

/// Whether a look at the command found that it was cancelled.
pub open spec fn withdrawn(report: ReportModel) -> bool {
    report matches ReportModel::Polled { cancel, .. } && cancel
}

/// Whether the last look at the command between two reports found that it was
/// cancelled.
#[verifier::opaque]
pub open spec fn last_withdrawn(reports: Seq<ReportModel>, from: int, to: int) -> bool {
    exists|k: int|
        from < k < to && withdrawn(#[trigger] reports[k]) && forall|j: int|
            k < j < to ==> !(#[trigger] reports[j] is Polled)
}

/// Whether some look at the command between two reports found that its time was up.
#[verifier::opaque]
pub open spec fn once_overdue(
    reports: Seq<ReportModel>,
    from: int,
    to: int,
    timeout_ms: Option<u64>,
) -> bool {
    exists|k: int| from < k < to && overdue(#[trigger] reports[k], timeout_ms)
}

/// Whether the first look between two reports that found the command to be ended was
/// the one at place `k`.
pub open spec fn first_called(
    reports: Seq<ReportModel>,
    from: int,
    to: int,
    timeout_ms: Option<u64>,
    k: int,
) -> bool {
    &&& from < k < to
    &&& overdue(reports[k], timeout_ms) || withdrawn(reports[k])
    &&& forall|j: int|
        from < j < k ==> !overdue(#[trigger] reports[j], timeout_ms) && !withdrawn(reports[j])
}

/// Whether the first look between two reports that found the command to be ended came
/// at the given time, none where there was no such look.
#[verifier::opaque]
pub open spec fn called(
    reports: Seq<ReportModel>,
    from: int,
    to: int,
    timeout_ms: Option<u64>,
    since: Option<u64>,
) -> bool {
    match since {
        None => forall|j: int|
            from < j < to ==> !overdue(#[trigger] reports[j], timeout_ms) && !withdrawn(reports[j]),
        Some(time) => exists|k: int|
            #[trigger] first_called(reports, from, to, timeout_ms, k) && reports[k]->elapsed
                == time,
    }
}

/// A command that nothing was reported of.
pub open spec fn is_fresh(run: RunState) -> bool {
    &&& run.stage == Stage::Preparing
    &&& run.supervisor == Supervisor {
        timeout_ms: run.supervisor.timeout_ms,
        timed_out: false,
        cancelled: false,
        terminating_since: None,
    }
}

/// The places of the reports that a command was spawned, that its start was announced,
/// and that it exited.
pub struct Places {
    pub spawned: int,
    pub announced: int,
    pub exited: int,
}

/// What a run knows of the reports that brought it to its stage.
pub open spec fn remembers(
    run: RunState,
    reports: Seq<ReportModel>,
    now: RunState,
    places: Places,
) -> bool {
    let timeout = run.supervisor.timeout_ms;
    let p = places.spawned;
    let a = places.announced;
    let e = places.exited;
    let quiet = !now.supervisor.timed_out && !now.supervisor.cancelled
        && now.supervisor.terminating_since is None;
    let spawned = 0 <= p < reports.len() && reports[p] == ReportModel::Spawned(
        Ok::<u32, Seq<char>>(now.pid),
    );
    &&& now.id == run.id
    &&& now.program == run.program
    &&& now.collects_denials == run.collects_denials
    &&& now.supervisor.timeout_ms == timeout
    &&& match now.stage {
        Stage::Preparing | Stage::Spawning => quiet,
        Stage::Observing | Stage::Tracking | Stage::Rooting | Stage::Releasing => quiet && spawned,
        Stage::Announcing => quiet && spawned,
        Stage::Running => {
            let n = reports.len() as int;
            &&& spawned
            &&& p < a < n && reports[a] == ReportModel::Announced(true)
            &&& forall|j: int| a < j < n ==> !(#[trigger] reports[j] is Exited)
            &&& now.supervisor.timed_out <==> once_overdue(reports, a, n, timeout)
            &&& now.supervisor.cancelled <==> last_withdrawn(reports, a, n)
            &&& called(reports, a, n, timeout, now.supervisor.terminating_since)
        },
        Stage::Settling => {
            &&& spawned
            &&& p < a < e < reports.len() && reports[a] == ReportModel::Announced(true)
            &&& forall|j: int| a < j < e ==> !(#[trigger] reports[j] is Exited)
            &&& reports[e] is Exited
            &&& now.code == reports[e]->code
            &&& now.signal == reports[e]->signal
            &&& now.supervisor.timed_out <==> once_overdue(reports, a, e, timeout)
            &&& now.supervisor.cancelled <==> reports[e]->Exited_cancel || last_withdrawn(
                reports,
                a,
                e,
            )
        },
        Stage::Ended => true,
    }
}

proof fn lemma_more(
    reports: Seq<ReportModel>,
    last: ReportModel,
    from: int,
    timeout: Option<u64>,
)
    requires
        0 <= from < reports.len(),
    ensures
        once_overdue(reports.push(last), from, reports.len() + 1int, timeout) <==> once_overdue(
            reports,
            from,
            reports.len() as int,
            timeout,
        ) || overdue(last, timeout),
        last is Polled ==> (last_withdrawn(reports.push(last), from, reports.len() + 1int)
            <==> withdrawn(last)),
        !(last is Polled) ==> (last_withdrawn(reports.push(last), from, reports.len() + 1int)
            <==> last_withdrawn(reports, from, reports.len() as int)),
        once_overdue(reports.push(last), from, reports.len() as int, timeout) <==> once_overdue(
            reports,
            from,
            reports.len() as int,
            timeout,
        ),
        last_withdrawn(reports.push(last), from, reports.len() as int) <==> last_withdrawn(
            reports,
            from,
            reports.len() as int,
        ),
{
    reveal(once_overdue);
    reveal(last_withdrawn);
    let all = reports.push(last);
    let n = reports.len() as int;
    assert(all[n] == last);
    assert forall|j: int| 0 <= j < n implies #[trigger] all[j] == reports[j] by {}
    if once_overdue(reports, from, n, timeout) {
        let k = choose|k: int| from < k < n && overdue(#[trigger] reports[k], timeout);
        assert(overdue(all[k], timeout));
    }
    if overdue(last, timeout) {
        assert(overdue(all[n], timeout));
    }
    if last_withdrawn(reports, from, n) {
        let k = choose|k: int|
            from < k < n && withdrawn(#[trigger] reports[k]) && forall|j: int|
                k < j < n ==> !(#[trigger] reports[j] is Polled);
        assert(withdrawn(all[k]));
        assert forall|j: int| k < j < n implies !(#[trigger] all[j] is Polled) by {
            assert(all[j] == reports[j]);
        }
        if !(last is Polled) {
            assert(forall|j: int| k < j < n + 1 ==> !(#[trigger] all[j] is Polled));
        }
    }
    if last_withdrawn(all, from, n) {
        let k = choose|k: int|
            from < k < n && withdrawn(#[trigger] all[k]) && forall|j: int|
                k < j < n ==> !(#[trigger] all[j] is Polled);
        assert(withdrawn(reports[k]));
        assert forall|j: int| k < j < n implies !(#[trigger] reports[j] is Polled) by {
            assert(all[j] == reports[j]);
        }
    }
    if last_withdrawn(all, from, n + 1) {
        let k = choose|k: int|
            from < k < n + 1 && withdrawn(#[trigger] all[k]) && forall|j: int|
                k < j < n + 1 ==> !(#[trigger] all[j] is Polled);
        if k < n {
            assert(!(all[n] is Polled));
            assert(withdrawn(reports[k]));
            assert forall|j: int| k < j < n implies !(#[trigger] reports[j] is Polled) by {
                assert(all[j] == reports[j]);
            }
        }
    }
    if withdrawn(last) {
        assert(withdrawn(all[n]));
    }
}

proof fn lemma_ranges(
    reports: Seq<ReportModel>,
    last: ReportModel,
    from: int,
    to: int,
    timeout: Option<u64>,
)
    requires
        0 <= from < to <= reports.len(),
    ensures
        once_overdue(reports.push(last), from, to, timeout) <==> once_overdue(
            reports,
            from,
            to,
            timeout,
        ),
        last_withdrawn(reports.push(last), from, to) <==> last_withdrawn(reports, from, to),
{
    reveal(once_overdue);
    reveal(last_withdrawn);
    let all = reports.push(last);
    if once_overdue(reports, from, to, timeout) {
        let k = choose|k: int| from < k < to && overdue(#[trigger] reports[k], timeout);
        assert(overdue(all[k], timeout));
    }
    if last_withdrawn(reports, from, to) {
        let k = choose|k: int|
            from < k < to && withdrawn(#[trigger] reports[k]) && forall|j: int|
                k < j < to ==> !(#[trigger] reports[j] is Polled);
        assert(withdrawn(all[k]));
        assert forall|j: int| k < j < to implies !(#[trigger] all[j] is Polled) by {
            assert(all[j] == reports[j]);
        }
    }
    if last_withdrawn(all, from, to) {
        let k = choose|k: int|
            from < k < to && withdrawn(#[trigger] all[k]) && forall|j: int|
                k < j < to ==> !(#[trigger] all[j] is Polled);
        assert(withdrawn(reports[k]));
        assert forall|j: int| k < j < to implies !(#[trigger] reports[j] is Polled) by {
            assert(all[j] == reports[j]);
        }
    }
}

proof fn lemma_uncalled(reports: Seq<ReportModel>, from: int, to: int, timeout: Option<u64>)
    requires
        called(reports, from, to, timeout, None),
    ensures
        !once_overdue(reports, from, to, timeout),
{
    reveal(called);
    reveal(once_overdue);
}

proof fn lemma_called_more(
    reports: Seq<ReportModel>,
    last: ReportModel,
    from: int,
    timeout: Option<u64>,
    since: Option<u64>,
)
    requires
        0 <= from < reports.len(),
        called(reports, from, reports.len() as int, timeout, since),
    ensures
        called(
            reports.push(last),
            from,
            reports.len() + 1int,
            timeout,
            if since is None && (overdue(last, timeout) || withdrawn(last)) {
                Some(last->elapsed)
            } else {
                since
            },
        ),
{
    reveal(called);
    let all = reports.push(last);
    let n = reports.len() as int;
    assert(all[n] == last);
    if let Some(time) = since {
        let k = choose|k: int|
            #[trigger] first_called(reports, from, n, timeout, k) && reports[k]->elapsed == time;
        assert forall|j: int| from < j < k implies !overdue(#[trigger] all[j], timeout)
            && !withdrawn(all[j]) by {
            assert(all[j] == reports[j]);
        }
        assert(all[k] == reports[k]);
        assert(first_called(all, from, n + 1, timeout, k));
    } else {
        assert forall|j: int| from < j < n implies !overdue(#[trigger] all[j], timeout)
            && !withdrawn(all[j]) by {
            assert(all[j] == reports[j]);
        }
        if overdue(last, timeout) || withdrawn(last) {
            assert(first_called(all, from, n + 1, timeout, n));
        }
    }
}

proof fn lemma_remembers_running(
    run: RunState,
    front: Seq<ReportModel>,
    last: ReportModel,
    before: RunState,
    places: Places,
)
    requires
        before.stage == Stage::Running,
        remembers(run, front, before, places),
        !(last is Exited),
    ensures
        remembers(run, front.push(last), advanced(before, last).0, places),
{
    let a = places.announced;
    let timeout = run.supervisor.timeout_ms;
    let since = before.supervisor.terminating_since;
    lemma_more(front, last, a, timeout);
    lemma_called_more(front, last, a, timeout, since);
    if since is None {
        lemma_uncalled(front, a, front.len() as int, timeout);
    }
}

proof fn trace(run: RunState, reports: Seq<ReportModel>) -> (places: Places)
    requires
        is_fresh(run),
    ensures
        remembers(run, reports, history(run, reports).0, places),
    decreases reports.len(),
{
    if reports.len() == 0 {
        Places { spawned: 0, announced: 0, exited: 0 }
    } else {
        let front = reports.drop_last();
        let last = reports.last();
        let places = trace(run, front);
        let before = history(run, front).0;
        let after = advanced(before, last).0;
        let n = front.len() as int;
        let timeout = run.supervisor.timeout_ms;
        assert(reports =~= front.push(last));
        assert(reports[n] == last);
        assert forall|j: int| 0 <= j < n implies #[trigger] reports[j] == front[j] by {}
        match before.stage {
            Stage::Spawning => Places { spawned: n, ..places },
            Stage::Announcing => {
                let announced = Places { announced: n, ..places };
                if after.stage == Stage::Running {
                    reveal(once_overdue);
                    reveal(last_withdrawn);
                    reveal(called);
                }
                announced
            },
            Stage::Running => {
                let exited = Places { exited: n, ..places };
                if last is Exited {
                    lemma_more(front, last, places.announced, timeout);
                    assert(forall|j: int|
                        places.announced < j < n ==> !(#[trigger] reports[j] is Exited));
                    exited
                } else {
                    lemma_remembers_running(run, front, last, before, places);
                    places
                }
            },
            Stage::Settling => {
                if after.stage == Stage::Settling {
                    lemma_ranges(front, last, places.announced, places.exited, timeout);
                    assert(forall|j: int|
                        places.announced < j < places.exited ==> !(#[trigger] reports[j]
                            is Exited));
                }
                places
            },
            _ => places,
        }
    }
}

/// How a command ended is told as it was reported: of the reports from the announced
/// start up to the exit, and of the settled report behind it.
pub open spec fn exit_tells(
    run: RunState,
    reports: Seq<ReportModel>,
    exit: EventModel,
    announced: int,
    exited: int,
    settled: int,
) -> bool {
    &&& 0 <= announced < exited < settled < reports.len()
    &&& reports[announced] == ReportModel::Announced(true)
    &&& reports[exited] is Exited
    &&& forall|j: int| announced < j < exited ==> !(#[trigger] reports[j] is Exited)
    &&& reports[settled] is Settled
    &&& exit is Exit
    &&& exit->Exit_id == run.id
    &&& exit->Exit_code == reports[exited]->code
    &&& exit->Exit_signal == reports[exited]->signal
    &&& exit->timed_out <==> once_overdue(reports, announced, exited, run.supervisor.timeout_ms)
    &&& exit->cancelled <==> reports[exited]->Exited_cancel || last_withdrawn(
        reports,
        announced,
        exited,
    )
    &&& exit->output_truncated == reports[settled]->truncated
}

proof fn lemma_exit_kept(
    run: RunState,
    reports: Seq<ReportModel>,
    last: ReportModel,
    exit: EventModel,
    announced: int,
    exited: int,
    settled: int,
)
    requires
        exit_tells(run, reports, exit, announced, exited, settled),
    ensures
        exit_tells(run, reports.push(last), exit, announced, exited, settled),
{
    let all = reports.push(last);
    lemma_ranges(reports, last, announced, exited, run.supervisor.timeout_ms);
    assert forall|j: int| 0 <= j < reports.len() implies #[trigger] all[j] == reports[j] by {}
}

proof fn lemma_events_step(run: RunState, report: ReportModel)
    ensures
        ({
            let events = events_of(advanced(run, report).1);
            match (run.stage, report) {
                (Stage::Settling, ReportModel::Settled { truncated, denials }) => {
                    let exit = run.exit(truncated)->Emit_0;
                    if run.collects_denials {
                        events == seq![
                            EventModel::Denials { id: run.id, items: denials, complete: false },
                            exit,
                        ]
                    } else {
                        events == seq![exit]
                    }
                },
                (Stage::Releasing, ReportModel::Released(true)) => events == seq![
                    EventModel::Started { id: run.id, pid: run.pid },
                ],
                _ => events.len() == 0 || events.len() == 1 && events[0] is Error,
            }
        }),
{
    reveal_with_fuel(events_of, 7);
    let effects = advanced(run, report).1;
    let events = events_of(effects);
    match (run.stage, report) {
        (Stage::Settling, ReportModel::Settled { truncated, denials }) => {
            let exit = run.exit(truncated)->Emit_0;
            if run.collects_denials {
                assert(effects.drop_last().drop_last() =~= seq![effects[0]]);
                assert(events =~= seq![
                    EventModel::Denials { id: run.id, items: denials, complete: false },
                    exit,
                ]);
            } else {
                assert(events =~= seq![exit]);
            }
        },
        (Stage::Releasing, ReportModel::Released(true)) => {
            assert(events =~= seq![EventModel::Started { id: run.id, pid: run.pid }]);
        },
        _ => {},
    }
}

/// Whatever was reported, in whatever order: where a command gave out that it exited,
/// its code and signal are those that were reported with the exit; it timed out exactly
/// if a look between the start and the exit found its time to be up; it was cancelled
/// exactly if the last such look, or the report of the exit, said so; and its output was
/// cut exactly if the settled report said so.
pub proof fn exits_tell_what_was_reported(run: RunState, reports: Seq<ReportModel>) -> (at: (
    int,
    int,
    int,
))
    requires
        is_fresh(run),
        history(run, reports).1.len() > 0,
        history(run, reports).1.last() is Exit,
    ensures
        exit_tells(run, reports, history(run, reports).1.last(), at.0, at.1, at.2),
    decreases reports.len(),
{
    let front = reports.drop_last();
    let last = reports.last();
    let (before, events) = history(run, front);
    assert(reports =~= front.push(last));
    lemma_events_step(before, last);
    let given = events_of(advanced(before, last).1);
    if given.len() == 0 {
        assert(events + given =~= events);
        let at = exits_tell_what_was_reported(run, front);
        lemma_exit_kept(run, front, last, events.last(), at.0, at.1, at.2);
        at
    } else {
        let places = trace(run, front);
        let n = front.len() as int;
        assert((events + given).last() == given.last());
        assert(before.stage == Stage::Settling && last is Settled);
        lemma_ranges(
            front,
            last,
            places.announced,
            places.exited,
            run.supervisor.timeout_ms,
        );
        assert forall|j: int| 0 <= j < n implies #[trigger] reports[j] == front[j] by {}
        assert(given.last() == before.exit(last->truncated)->Emit_0);
        (places.announced, places.exited, n)
    }
}

/// The denials that a command gives out are those of its settled report, all of them
/// and in order.
pub proof fn denials_are_those_reported(run: RunState, reports: Seq<ReportModel>, i: int) -> (at:
    int)
    requires
        is_fresh(run),
        0 <= i < history(run, reports).1.len(),
        history(run, reports).1[i] is Denials,
    ensures
        0 <= at < reports.len(),
        reports[at] is Settled,
        history(run, reports).1[i]->Denials_id == run.id,
        history(run, reports).1[i]->items == reports[at]->denials,
        !history(run, reports).1[i]->complete,
        run.collects_denials,
    decreases reports.len(),
{
    let front = reports.drop_last();
    let last = reports.last();
    let (before, events) = history(run, front);
    lemma_events_step(before, last);
    if i < events.len() {
        let at = denials_are_those_reported(run, front, i);
        assert(reports[at] == front[at]);
        at
    } else {
        let places = trace(run, front);
        assert(reports[reports.len() - 1] == last);
        reports.len() - 1
    }
}

/// A start is told with the process that was reported to be spawned, and only of a
/// command whose release was reported.
pub proof fn starts_tell_what_was_reported(run: RunState, reports: Seq<ReportModel>, i: int) -> (at:
    (int, int))
    requires
        is_fresh(run),
        0 <= i < history(run, reports).1.len(),
        history(run, reports).1[i] is Started,
    ensures
        0 <= at.0 < at.1 < reports.len(),
        history(run, reports).1[i]->Started_id == run.id,
        reports[at.0] == ReportModel::Spawned(
            Ok::<u32, Seq<char>>(history(run, reports).1[i]->pid),
        ),
        reports[at.1] == ReportModel::Released(true),
    decreases reports.len(),
{
    let front = reports.drop_last();
    let last = reports.last();
    let (before, events) = history(run, front);
    lemma_events_step(before, last);
    if i < events.len() {
        let at = starts_tell_what_was_reported(run, front, i);
        assert(reports[at.0] == front[at.0]);
        assert(reports[at.1] == front[at.1]);
        at
    } else {
        let places = trace(run, front);
        assert(reports[places.spawned] == front[places.spawned]);
        (places.spawned, reports.len() - 1)
    }
}

/// The error that a failed step of a start comes to.
pub open spec fn error_tells(
    report: ReportModel,
    program: Seq<char>,
    code: ErrorCode,
    message: Seq<char>,
) -> bool {
    match report {
        ReportModel::Prepared(Err(reason)) => code == ErrorCode::PolicyRejected && message
            == reason,
        ReportModel::Spawned(Err(reason)) => code == ErrorCode::CommandStartFailed && message
            == "cannot start "@ + program + ": "@ + reason,
        ReportModel::Observed(Err(reason)) => code == ErrorCode::CommandStartFailed && message
            == reason,
        ReportModel::Followed(Err(reason)) => code == ErrorCode::CommandStartFailed && message
            == reason,
        ReportModel::Rooted(false) => code == ErrorCode::CommandStartFailed && message
            == "process identity lock is poisoned"@,
        ReportModel::Released(false) => code == ErrorCode::Cancelled && message
            == "command was cancelled before launch"@,
        _ => false,
    }
}

/// An error is told only of a step of the start that was reported to have failed, and
/// with that step's code and reason.
pub proof fn errors_tell_what_was_reported(run: RunState, reports: Seq<ReportModel>, i: int) -> (at:
    int)
    requires
        is_fresh(run),
        0 <= i < history(run, reports).1.len(),
        history(run, reports).1[i] is Error,
    ensures
        0 <= at < reports.len(),
        history(run, reports).1[i]->Error_id == Some(run.id),
        error_tells(
            reports[at],
            run.program,
            history(run, reports).1[i]->Error_code,
            history(run, reports).1[i]->message,
        ),
    decreases reports.len(),
{
    let front = reports.drop_last();
    let last = reports.last();
    let (before, events) = history(run, front);
    lemma_events_step(before, last);
    if i < events.len() {
        let at = errors_tell_what_was_reported(run, front, i);
        assert(reports[at] == front[at]);
        at
    } else {
        let places = trace(run, front);
        reveal_with_fuel(events_of, 7);
        let effects = advanced(before, last).1;
        assert(history(run, reports).1[i] == events_of(effects)[0]);
        reports.len() - 1
    }
}

/// Whether the last look at a running command calls for a signal: it is asked to end by
/// the first look that finds its time to be up or that it was cancelled, and killed by
/// every later look that comes two hundred and fifty milliseconds or more after that
/// one.
pub proof fn signals_follow_the_looks(
    run: RunState,
    front: Seq<ReportModel>,
    elapsed: u64,
    cancel: bool,
) -> (at: int)
    requires
        is_fresh(run),
        history(run, front).0.stage == Stage::Running,
    ensures
        0 <= at < front.len(),
        front[at] == ReportModel::Announced(true),
        ({
            let look = ReportModel::Polled { elapsed, cancel };
            let timeout = run.supervisor.timeout_ms;
            let effects = advanced(history(run, front).0, look).1;
            let n = front.len() as int;
            if forall|k: int| !first_called(front, at, n, timeout, k) {
                if overdue(look, timeout) || withdrawn(look) {
                    effects == seq![
                        EffectModel::Signal(GroupSignal::Terminate),
                        EffectModel::Wait,
                    ]
                } else {
                    effects == seq![EffectModel::Wait]
                }
            } else {
                let k = choose|k: int| first_called(front, at, n, timeout, k);
                if elapsed - front[k]->elapsed >= 250 {
                    effects == seq![EffectModel::Signal(GroupSignal::Kill), EffectModel::Wait]
                } else {
                    effects == seq![EffectModel::Wait]
                }
            }
        }),
{
    let places = trace(run, front);
    let at = places.announced;
    let n = front.len() as int;
    let timeout = run.supervisor.timeout_ms;
    let now = history(run, front).0;
    reveal(called);
    if now.supervisor.terminating_since is None {
        assert forall|k: int| !first_called(front, at, n, timeout, k) by {
            if first_called(front, at, n, timeout, k) {
                assert(overdue(front[k], timeout) || withdrawn(front[k]));
            }
        }
        lemma_uncalled(front, at, n, timeout);
    } else {
        let k0 = choose|k: int|
            #[trigger] first_called(front, at, n, timeout, k) && front[k]->elapsed
                == now.supervisor.terminating_since->0;
        let k1 = choose|k: int| first_called(front, at, n, timeout, k);
        assert(first_called(front, at, n, timeout, k1));
        assert(k0 == k1) by {
            if k0 < k1 {
                assert(!overdue(front[k0], timeout) && !withdrawn(front[k0]));
            }
            if k1 < k0 {
                assert(!overdue(front[k1], timeout) && !withdrawn(front[k1]));
            }
        }
    }
    at
}

/// What the host was told to do, over several reports.
pub open spec fn effects_of(run: RunState, reports: Seq<ReportModel>) -> Seq<EffectModel>
    decreases reports.len(),
{
    if reports.len() == 0 {
        Seq::empty()
    } else {
        effects_of(run, reports.drop_last()) + advanced(
            history(run, reports.drop_last()).0,
            reports.last(),
        ).1
    }
}

/// Whether a report was given.
pub open spec fn was_told(reports: Seq<ReportModel>, report: ReportModel) -> bool {
    exists|i: int| 0 <= i < reports.len() && #[trigger] reports[i] == report
}

/// Whether something was among what the host was told to do.
pub open spec fn was_due(effects: Seq<EffectModel>, effect: EffectModel) -> bool {
    exists|i: int| 0 <= i < effects.len() && #[trigger] effects[i] == effect
}

/// What a stage says of the reports and effects that led to it.
pub open spec fn leaves_nothing(
    run: RunState,
    reports: Seq<ReportModel>,
    now: RunState,
    effects: Seq<EffectModel>,
) -> bool {
    let all_told = was_told(reports, ReportModel::Prepared(Ok::<(), Seq<char>>(()))) && was_told(
        reports,
        ReportModel::Spawned(Ok::<u32, Seq<char>>(now.pid)),
    ) && was_told(reports, ReportModel::Followed(Ok::<(), Seq<char>>(()))) && was_told(
        reports,
        ReportModel::Rooted(true),
    ) && was_told(reports, ReportModel::Released(true));
    let observed = was_told(reports, ReportModel::Observed(Ok::<(), Seq<char>>(())));
    &&& now.collects_denials == run.collects_denials
    &&& was_due(effects, EffectModel::Spawn) ==> was_told(
        reports,
        ReportModel::Prepared(Ok::<(), Seq<char>>(())),
    )
    &&& was_due(effects, EffectModel::OpenBarrier) ==> {
        &&& all_told
        &&& was_told(reports, ReportModel::Announced(true))
        &&& run.collects_denials ==> observed
    }
    &&& match now.stage {
        Stage::Preparing | Stage::Spawning => !was_due(effects, EffectModel::BeginDenials)
            && !was_due(effects, EffectModel::Track) && !was_due(effects, EffectModel::RecordRoot)
            && !was_due(effects, EffectModel::OpenBarrier)
            && (now.stage == Stage::Preparing ==> !was_due(effects, EffectModel::Spawn)) && (
        now.stage == Stage::Spawning ==> was_told(
            reports,
            ReportModel::Prepared(Ok::<(), Seq<char>>(())),
        )),
        Stage::Ended => {
            &&& was_due(effects, EffectModel::BeginDenials) || was_due(effects, EffectModel::Track)
                ==> was_due(effects, EffectModel::ClearProcess) && (was_due(
                effects,
                EffectModel::TerminateChild,
            ) || was_due(effects, EffectModel::CleanupGroup))
            &&& was_due(effects, EffectModel::Track) && run.collects_denials ==> was_due(
                effects,
                EffectModel::AbortDenials,
            ) || was_due(effects, EffectModel::FinishDenials)
            &&& was_due(effects, EffectModel::RecordRoot) ==> was_due(
                effects,
                EffectModel::CleanupTracked,
            )
            &&& was_due(effects, EffectModel::OpenBarrier) ==> was_due(
                effects,
                EffectModel::CleanupGroup,
            ) && was_due(effects, EffectModel::FinishStreams)
        },
        _ => {
            let told = was_told(reports, ReportModel::Prepared(Ok::<(), Seq<char>>(())))
                && was_told(reports, ReportModel::Spawned(Ok::<u32, Seq<char>>(now.pid)));
            let seen = told && (run.collects_denials ==> observed);
            let followed = seen && was_told(
                reports,
                ReportModel::Followed(Ok::<(), Seq<char>>(())),
            );
            &&& told
            &&& now.stage == Stage::Observing ==> !was_due(effects, EffectModel::Track)
            &&& now.stage == Stage::Observing || now.stage == Stage::Tracking ==> !was_due(
                effects,
                EffectModel::RecordRoot,
            )
            &&& now.stage == Stage::Tracking ==> seen
            &&& now.stage == Stage::Rooting ==> followed
            &&& now.stage == Stage::Releasing ==> followed && was_told(
                reports,
                ReportModel::Rooted(true),
            )
            &&& now.stage == Stage::Announcing || now.stage == Stage::Running || now.stage
                == Stage::Settling ==> followed && all_told
            &&& now.stage == Stage::Running || now.stage == Stage::Settling ==> was_told(
                reports,
                ReportModel::Announced(true),
            )
            &&& now.stage != Stage::Running && now.stage != Stage::Settling ==> !was_due(
                effects,
                EffectModel::OpenBarrier,
            )
            &&& now.stage == Stage::Settling ==> {
                &&& was_due(effects, EffectModel::CleanupGroup)
                &&& was_due(effects, EffectModel::CleanupTracked)
                &&& was_due(effects, EffectModel::FinishStreams)
                &&& run.collects_denials ==> was_due(effects, EffectModel::FinishDenials)
            }
        },
    }
}

proof fn lemma_told_more(reports: Seq<ReportModel>, last: ReportModel)
    ensures
        forall|report: ReportModel| #[trigger]
            was_told(reports.push(last), report) <==> was_told(reports, report) || report == last,
{
    let all = reports.push(last);
    assert forall|report: ReportModel| #[trigger]
        was_told(all, report) <==> was_told(reports, report) || report == last by {
        if was_told(reports, report) {
            let i = choose|i: int| 0 <= i < reports.len() && #[trigger] reports[i] == report;
            assert(all[i] == report);
        }
        if report == last {
            assert(all[reports.len() as int] == report);
        }
        if was_told(all, report) {
            let i = choose|i: int| 0 <= i < all.len() && #[trigger] all[i] == report;
            if i < reports.len() {
                assert(reports[i] == report);
            }
        }
    }
}

proof fn lemma_due_more(effects: Seq<EffectModel>, more: Seq<EffectModel>)
    ensures
        forall|effect: EffectModel| #[trigger]
            was_due(effects + more, effect) <==> was_due(effects, effect) || was_due(more, effect),
{
    let all = effects + more;
    assert forall|effect: EffectModel| #[trigger]
        was_due(all, effect) <==> was_due(effects, effect) || was_due(more, effect) by {
        if was_due(effects, effect) {
            let i = choose|i: int| 0 <= i < effects.len() && #[trigger] effects[i] == effect;
            assert(all[i] == effect);
        }
        if was_due(more, effect) {
            let i = choose|i: int| 0 <= i < more.len() && #[trigger] more[i] == effect;
            assert(all[effects.len() + i] == effect);
        }
        if was_due(all, effect) {
            let i = choose|i: int| 0 <= i < all.len() && #[trigger] all[i] == effect;
            if i < effects.len() {
                assert(effects[i] == effect);
            } else {
                assert(more[i - effects.len()] == effect);
            }
        }
    }
}

proof fn lemma_leaves_nothing(run: RunState, reports: Seq<ReportModel>)
    requires
        is_fresh(run),
    ensures
        leaves_nothing(run, reports, history(run, reports).0, effects_of(run, reports)),
    decreases reports.len(),
{
    if reports.len() > 0 {
        let front = reports.drop_last();
        let last = reports.last();
        let before = history(run, front).0;
        let more = advanced(before, last).1;
        lemma_leaves_nothing(run, front);
        lemma_told_more(front, last);
        lemma_due_more(effects_of(run, front), more);
        assert(reports =~= front.push(last));
        if more.len() > 0 {
            assert(was_due(more, more[0]));
        }
        if more.len() > 1 {
            assert(was_due(more, more[1]));
        }
        if more.len() > 2 {
            assert(was_due(more, more[2]));
        }
        if more.len() > 3 {
            assert(was_due(more, more[3]));
        }
        match last {
            ReportModel::Prepared(Ok(unit)) | ReportModel::Observed(Ok(unit))
            | ReportModel::Followed(Ok(unit)) => {
                assert(unit == ());
            },
            _ => {},
        }
        let after = history(run, reports).0;
        let effects = effects_of(run, reports);
        match before.stage {
            Stage::Spawning => {
                assert(leaves_nothing(run, reports, after, effects));
            },
            Stage::Observing | Stage::Tracking => {
                assert(leaves_nothing(run, reports, after, effects));
            },
            Stage::Running | Stage::Settling => {
                assert(leaves_nothing(run, reports, after, effects));
            },
            _ => {
                assert(leaves_nothing(run, reports, after, effects));
            },
        }
    }
}

/// The program of a command runs only once its sandbox was prepared and spawned, its
/// denials observed where they are collected, its processes tracked, its root noted, its
/// release reported, and its start told to the client.
pub proof fn programs_run_only_when_all_is_ready(run: RunState, reports: Seq<ReportModel>)
    requires
        is_fresh(run),
        was_due(effects_of(run, reports), EffectModel::OpenBarrier),
    ensures
        was_told(reports, ReportModel::Prepared(Ok::<(), Seq<char>>(()))),
        exists|pid: u32|
            #[trigger] was_told(reports, ReportModel::Spawned(Ok::<u32, Seq<char>>(pid))),
        run.collects_denials ==> was_told(
            reports,
            ReportModel::Observed(Ok::<(), Seq<char>>(())),
        ),
        was_told(reports, ReportModel::Followed(Ok::<(), Seq<char>>(()))),
        was_told(reports, ReportModel::Rooted(true)),
        was_told(reports, ReportModel::Released(true)),
        was_told(reports, ReportModel::Announced(true)),
{
    lemma_leaves_nothing(run, reports);
}

/// A command leaves nothing behind: by the time it has ended, its process was ended and
/// forgotten where one was spawned, its tracked processes were ended where its root was
/// to be noted, its denials were collected or given up where they were begun, and its
/// streams were brought to an end where its program ran.
pub proof fn ended_commands_leave_nothing_behind(run: RunState, reports: Seq<ReportModel>)
    requires
        is_fresh(run),
        history(run, reports).0.stage == Stage::Ended,
    ensures
        ({
            let due = effects_of(run, reports);
            &&& was_due(due, EffectModel::BeginDenials) || was_due(due, EffectModel::Track)
                ==> was_due(due, EffectModel::ClearProcess) && (was_due(
                due,
                EffectModel::TerminateChild,
            ) || was_due(due, EffectModel::CleanupGroup))
            &&& was_due(due, EffectModel::Track) && run.collects_denials ==> was_due(
                due,
                EffectModel::AbortDenials,
            ) || was_due(due, EffectModel::FinishDenials)
            &&& was_due(due, EffectModel::RecordRoot) ==> was_due(due, EffectModel::CleanupTracked)
            &&& was_due(due, EffectModel::OpenBarrier) ==> was_due(due, EffectModel::CleanupGroup)
                && was_due(due, EffectModel::FinishStreams)
        }),
{
    lemma_leaves_nothing(run, reports);
}

/// A running command that cannot be looked at is killed, and then waited for.
pub proof fn a_lost_command_is_killed(run: RunState)
    requires
        run.stage == Stage::Running,
    ensures
        advanced(run, ReportModel::Lost) == (
            run,
            seq![EffectModel::Signal(GroupSignal::Kill), EffectModel::Reap],
        ),
{
}

} // verus!
