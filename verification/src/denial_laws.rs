//! What holds of the denials that a command is told of.

use vstd::prelude::*;

use crate::denial_collector::{
    collected, is_ready_line, retained, the_newest_denials_stay, total_bytes, ActiveModel,
    CollectorState, LoggedModel,
};
use crate::denial_log::line_denial;
use crate::protocol::DenialModel;

verus! {

/// The sizes of several denials, taken together.
pub open spec fn sizes(items: Seq<DenialModel>, size: spec_fn(DenialModel) -> nat) -> nat
    decreases items.len(),
{
    if items.len() == 0 {
        0
    } else {
        sizes(items.drop_last(), size) + size(items.last())
    }
}

/// Whether something was logged for a process of a command since the command began.
pub open spec fn is_of_command(logged: LoggedModel, active: ActiveModel) -> bool {
    active.start_sequence <= logged.sequence && active.pids.contains(logged.pid)
}

proof fn lemma_sizes(
    recent: Seq<LoggedModel>,
    active: ActiveModel,
    size: spec_fn(DenialModel) -> nat,
)
    requires
        forall|k: int|
            0 <= k < recent.len() ==> (#[trigger] recent[k]).bytes == size(recent[k].denial),
    ensures
        collected(recent, active).1 == sizes(collected(recent, active).0, size),
    decreases recent.len(),
{
    if recent.len() > 0 {
        let front = recent.drop_last();
        assert forall|k: int| 0 <= k < front.len() implies (#[trigger] front[k]).bytes == size(
            front[k].denial,
        ) by {
            assert(front[k] == recent[k]);
        }
        lemma_sizes(front, active, size);
        let items = collected(front, active).0;
        assert(recent[recent.len() - 1] == recent.last());
        assert(items.push(recent.last().denial).drop_last() =~= items);
    }
}

/// No denial of a command is left out while there is room: what was logged for one of
/// its processes since it began is, as a whole, among the collected denials, unless
/// these are as many as may be, or too large for it to be one more.
pub proof fn every_denial_of_a_command_is_collected(
    recent: Seq<LoggedModel>,
    active: ActiveModel,
    size: spec_fn(DenialModel) -> nat,
    i: int,
)
    requires
        0 <= i < recent.len(),
        active.start_sequence <= recent[i].sequence,
        active.pids.contains(recent[i].pid),
        forall|k: int|
            0 <= k < recent.len() ==> (#[trigger] recent[k]).bytes == size(recent[k].denial),
        collected(recent, active).0.len() < 128,
        sizes(collected(recent, active).0, size) + recent[i].bytes <= 65_536,
    ensures
        collected(recent, active).0.contains(recent[i].denial),
    decreases recent.len(),
{
    let front = recent.drop_last();
    let last = recent.last();
    let items = collected(front, active).0;
    let all = collected(recent, active).0;
    assert forall|k: int| 0 <= k < front.len() implies (#[trigger] front[k]).bytes == size(
        front[k].denial,
    ) by {
        assert(front[k] == recent[k]);
    }
    lemma_sizes(recent, active, size);
    lemma_sizes(front, active, size);
    assert(items.push(last.denial).drop_last() =~= items);
    if i < front.len() {
        assert(front[i] == recent[i]);
        every_denial_of_a_command_is_collected(front, active, size, i);
        let k = choose|k: int| 0 <= k < items.len() && items[k] == recent[i].denial;
        assert(all[k] == items[k]);
    } else if all.len() > items.len() {
        assert(all[all.len() - 1] == last.denial);
    } else {
        let j = choose|j: int|
            0 <= j < front.len() && is_of_command(#[trigger] front[j], active) && front[j].denial
                == last.denial;
        assert(front[j] == recent[j]);
        every_denial_of_a_command_is_collected(front, active, size, j);
        let k = choose|k: int| 0 <= k < items.len() && items[k] == last.denial;
        assert(all[k] == items[k]);
    }
}

/// The collected denials stand in the order in which they were logged, and each is, as
/// a whole, what was logged for a process of the command since it began, the first of
/// its kind: the places of the log that they come from.
pub proof fn collected_denials_were_logged_in_order(
    recent: Seq<LoggedModel>,
    active: ActiveModel,
) -> (places: Seq<int>)
    ensures
        places.len() == collected(recent, active).0.len(),
        forall|a: int|
            0 <= a < places.len() ==> 0 <= #[trigger] places[a] < recent.len()
                && recent[places[a]].denial == collected(recent, active).0[a]
                && active.start_sequence <= recent[places[a]].sequence && active.pids.contains(
                recent[places[a]].pid,
            ),
        forall|a: int, b: int|
            0 <= a < b < places.len() ==> #[trigger] places[a] < #[trigger] places[b],
        forall|a: int, j: int|
            0 <= a < places.len() && 0 <= j < places[a] && is_of_command(
                #[trigger] recent[j],
                active,
            ) ==> recent[j].denial != #[trigger] collected(recent, active).0[a],
    decreases recent.len(),
{
    if recent.len() == 0 {
        Seq::empty()
    } else {
        let front = recent.drop_last();
        let places = collected_denials_were_logged_in_order(front, active);
        let items = collected(front, active).0;
        let all = collected(recent, active).0;
        assert forall|j: int| 0 <= j < front.len() implies recent[j] == #[trigger] front[j] by {}
        if all.len() > items.len() {
            let more = places.push(recent.len() - 1);
            assert forall|a: int, j: int|
                0 <= a < more.len() && 0 <= j < more[a] && is_of_command(
                    #[trigger] recent[j],
                    active,
                ) implies recent[j].denial != #[trigger] all[a] by {
                assert(front[j] == recent[j]);
                if a < places.len() {
                    assert(all[a] == items[a]);
                }
            }
            assert forall|a: int| 0 <= a < more.len() implies 0 <= #[trigger] more[a]
                < recent.len() && recent[more[a]].denial == all[a] && active.start_sequence
                <= recent[more[a]].sequence && active.pids.contains(recent[more[a]].pid) by {
                if a < places.len() {
                    assert(all[a] == items[a]);
                    assert(front[places[a]] == recent[places[a]]);
                }
            }
            more
        } else {
            assert(all == items);
            assert forall|a: int, j: int|
                0 <= a < places.len() && 0 <= j < places[a] && is_of_command(
                    #[trigger] recent[j],
                    active,
                ) implies recent[j].denial != #[trigger] all[a] by {
                assert(front[j] == recent[j]);
            }
            assert forall|a: int| 0 <= a < places.len() implies 0 <= #[trigger] places[a]
                < recent.len() && recent[places[a]].denial == all[a] && active.start_sequence
                <= recent[places[a]].sequence && active.pids.contains(recent[places[a]].pid) by {
                assert(front[places[a]] == recent[places[a]]);
            }
            places
        }
    }
}

/// What a process of a command is logged to have been denied, after the process was
/// seen, is told to the command, where it has room: the command that began, a process
/// seen for it, then the denial, then the end.
pub proof fn a_logged_denial_reaches_its_command(
    collector: CollectorState,
    id: Seq<char>,
    pid: i32,
    denial: DenialModel,
    bytes: nat,
)
    requires
        collector.active is None,
        collector.next_sequence < u64::MAX,
        pid > 0,
        bytes <= 65_536,
    ensures
        ({
            let after = collector.begun(id).observed(id, pid).logged(pid, denial, bytes);
            &&& collected(after.recent, after.active->0).0 == seq![denial]
            &&& after.is_active(id)
        }),
{
    let seen = collector.begun(id).observed(id, pid);
    let after = seen.logged(pid, denial, bytes);
    let logged = LoggedModel { sequence: collector.next_sequence, pid, denial, bytes };
    assert(seen.recent.push(logged) =~= seq![logged]);
    assert(total_bytes(seq![logged]) == bytes) by {
        reveal_with_fuel(total_bytes, 2);
        assert(seq![logged].drop_first() =~= Seq::empty());
    }
    assert(after.recent =~= seq![logged]);
    assert(after.recent.drop_last() =~= Seq::<LoggedModel>::empty());
    reveal_with_fuel(collected, 2);
    assert(collected(after.recent, after.active->0).0 =~= seq![denial]);
}

/// What is logged for another process, or before the command began, is not told to
/// the command.
pub proof fn a_foreign_denial_stays_away(
    recent: Seq<LoggedModel>,
    logged: LoggedModel,
    active: ActiveModel,
)
    requires
        !active.pids.contains(logged.pid) || logged.sequence < active.start_sequence,
    ensures
        collected(recent.push(logged), active) == collected(recent, active),
{
    assert(recent.push(logged).drop_last() =~= recent);
}

/// A line of the log that tells of a denial is kept for the command that runs, as it was
/// told and under a number of its own; any other line, and any line while no command
/// runs, changes nothing.
pub proof fn told_denials_are_kept(collector: CollectorState, line: Seq<u8>)
    ensures
        ({
            let after = collector.line_taken(line);
            &&& after.active == collector.active
            &&& collector.active is None || line_denial(line) is None || is_ready_line(line)
                ==> after == collector
            &&& collector.active is Some && !is_ready_line(line) ==> (line_denial(line) matches Some(
                (pid, denial, bytes),
            ) ==> {
                &&& after.next_sequence != collector.next_sequence
                &&& bytes <= 262_144 ==> after.recent.len() > 0 && after.recent.last()
                    == (LoggedModel { sequence: collector.next_sequence, pid, denial, bytes })
                &&& collector.recent.len() < 2_048 && total_bytes(collector.recent) + bytes
                    <= 262_144 ==> after.recent == collector.recent.push(
                    LoggedModel { sequence: collector.next_sequence, pid, denial, bytes },
                )
            })
        }),
{
    if let Some((pid, denial, bytes)) = line_denial(line) {
        let logged = LoggedModel { sequence: collector.next_sequence, pid, denial, bytes };
        let items = collector.recent.push(logged);
        the_newest_denials_stay(items);
        let kept = retained(items);
        if bytes <= 262_144 {
            assert(kept[kept.len() - 1] == items.skip(items.len() - kept.len())[kept.len() - 1]);
        }
        lemma_total_push(collector.recent, logged);
    }
}

proof fn lemma_total_push(items: Seq<LoggedModel>, last: LoggedModel)
    ensures
        total_bytes(items.push(last)) == total_bytes(items) + last.bytes,
    decreases items.len(),
{
    let all = items.push(last);
    if items.len() == 0 {
        reveal_with_fuel(total_bytes, 2);
        assert(all.drop_first() =~= Seq::empty());
    } else {
        lemma_total_push(items.drop_first(), last);
        assert(all.drop_first() =~= items.drop_first().push(last));
        assert(all[0] == items[0]);
    }
}

/// A command begins with no denials, from the next number on and with no process; a
/// process is then seen for it where it is named, and for no other command; and at its
/// end nothing is left.
pub proof fn commands_begin_and_end_with_nothing(
    collector: CollectorState,
    id: Seq<char>,
    pid: i32,
)
    ensures
        collector.begun(id).active == Some(
            ActiveModel { id, start_sequence: collector.next_sequence, pids: Set::empty() },
        ),
        collector.begun(id).recent.len() == 0,
        collector.begun(id).next_sequence == collector.next_sequence,
        collector.ended().active is None,
        collector.ended().recent.len() == 0,
        collector.ended().next_sequence == collector.next_sequence,
        collector.active is Some && collector.active->0.id == id && pid > 0 ==> {
            let after = collector.observed(id, pid);
            &&& after.active is Some
            &&& after.active->0.id == id
            &&& after.active->0.start_sequence == collector.active->0.start_sequence
            &&& forall|other: i32| #[trigger]
                after.active->0.pids.contains(other) <==> other == pid
                    || collector.active->0.pids.contains(other)
            &&& after.recent == collector.recent
            &&& after.next_sequence == collector.next_sequence
        },
        collector.active is None || collector.active->0.id != id || pid <= 0 ==> collector.observed(
            id,
            pid,
        ) == collector,
{
}

} // verus!
