//! What is known of processes, and how they are brought to an end.

use vstd::prelude::*;

use crate::denial_collector::{retained, total_bytes, LoggedModel};
use crate::executor::{idle_step, IdleStep};
use crate::lifecycle::{escalated, Escalation, GroupSignal};
use crate::numbers::{all_digits, signed_number};
use crate::pid_tracker::{
    children_listed, current_pids, guard_of, handled, root_problem, signed_decimal, with_pid,
    without_pid, Candidate, ChildList, ProcessGuard, ProcessInfo, RootWatch, StartTime,
    TrackerEvent, TrackerState, TrackerStep,
};
use crate::stream_laws::decimal_numbers_are_read_back;
use crate::text::{decimal, is_space};
use crate::words::{last_close, trim_start, word_behind_bracket, word_len, words};

verus! {

/// The processes but those with one ID are just these.
pub proof fn processes_are_left_out_by_their_id(items: Seq<ProcessGuard>, pid: i32)
    ensures
        forall|item: ProcessGuard| #[trigger]
            without_pid(items, pid).contains(item) <==> items.contains(item) && item.pid != pid,
        with_pid(items, pid) is None <==> forall|i: int|
            0 <= i < items.len() ==> (#[trigger] items[i]).pid != pid,
        with_pid(items, pid) matches Some(item) ==> items.contains(item) && item.pid == pid,
    decreases items.len(),
{
    if items.len() > 0 {
        let front = items.drop_last();
        let out = without_pid(items, pid);
        let before = without_pid(front, pid);
        processes_are_left_out_by_their_id(front, pid);
        assert forall|item: ProcessGuard| #[trigger] out.contains(item) <==> items.contains(item)
            && item.pid != pid by {
            lemma_last(items, item);
            if items.last().pid != pid {
                assert(out.drop_last() =~= before);
                lemma_last(out, item);
            }
        }
        if with_pid(items, pid) is Some && items.last().pid != pid {
            lemma_last(items, with_pid(items, pid)->0);
        }
        assert(items[items.len() - 1] == items.last());
        if with_pid(items, pid) is None {
            assert forall|i: int| 0 <= i < items.len() implies (#[trigger] items[i]).pid != pid by {
                if i < front.len() {
                    assert(front[i] == items[i]);
                }
            }
        } else if items.last().pid != pid {
            let i = choose|i: int| 0 <= i < front.len() && (#[trigger] front[i]).pid == pid;
            assert(items[i] == front[i]);
        }
    }
}

proof fn lemma_last(items: Seq<ProcessGuard>, item: ProcessGuard)
    requires
        items.len() > 0,
    ensures
        items.contains(item) <==> items.drop_last().contains(item) || items.last() == item,
{
    let front = items.drop_last();
    if items.contains(item) {
        let i = choose|i: int| 0 <= i < items.len() && items[i] == item;
        if i < front.len() {
            assert(front[i] == item);
        }
    }
    if front.contains(item) {
        let i = choose|i: int| 0 <= i < front.len() && front[i] == item;
        assert(items[i] == item);
    }
    assert(items[items.len() - 1] == items.last());
}

/// A tracker that follows one more process has found what it had found, and the process;
/// and it watches what it watched, but for another process of the same ID, and the
/// process. One that is watched no longer stays found.
pub proof fn trackers_follow_what_they_are_given(
    tracker: TrackerState,
    identity: ProcessGuard,
    pid: i32,
)
    ensures
        forall|item: ProcessGuard| #[trigger]
            tracker.with(identity).seen.contains(item) <==> tracker.seen.contains(item) || item
                == identity,
        forall|item: ProcessGuard| #[trigger]
            tracker.with(identity).active.contains(item) <==> item == identity || (
            tracker.active.contains(item) && item.pid != identity.pid),
        tracker.with(identity).root == tracker.root,
        tracker.with(identity).pending == tracker.pending,
        tracker.with(identity).observer == tracker.observer,
        tracker.unwatched(pid).seen == tracker.seen,
        tracker.unwatched(pid).pending == tracker.pending,
        forall|item: ProcessGuard| #[trigger]
            tracker.unwatched(pid).active.contains(item) <==> tracker.active.contains(item)
                && item.pid != pid,
{
    let with = tracker.with(identity);
    let kept = without_pid(tracker.active, identity.pid);
    processes_are_left_out_by_their_id(tracker.active, identity.pid);
    processes_are_left_out_by_their_id(tracker.active, pid);
    assert(with.active.drop_last() =~= kept);
    assert forall|item: ProcessGuard| #[trigger] with.seen.contains(item) <==> tracker.seen.contains(
        item,
    ) || item == identity by {
        if !tracker.seen.contains(identity) {
            assert(with.seen.drop_last() =~= tracker.seen);
            lemma_last(with.seen, item);
        }
    }
    assert forall|item: ProcessGuard| #[trigger] with.active.contains(item) <==> item == identity
        || (tracker.active.contains(item) && item.pid != identity.pid) by {
        lemma_last(with.active, item);
    }
}

/// A candidate is watched exactly where it is a child of the process that it was taken
/// for, that process still is what it was, and the candidate is neither watched already
/// nor one too many; and it is followed exactly where, once it is watched, all of this
/// still holds of it.
pub proof fn only_children_are_followed(
    tracker: TrackerState,
    candidate: Candidate,
    parent_now: Option<ProcessGuard>,
    info: Option<ProcessInfo>,
    identity: ProcessGuard,
)
    ensures
        tracker.examined(candidate, parent_now, info) == Some(identity) <==> {
            &&& parent_now == Some(candidate.parent)
            &&& info is Some
            &&& info->0.identity == identity
            &&& info->0.parent_pid == candidate.parent.pid
            &&& !tracker.active.contains(identity)
            &&& tracker.seen.contains(identity) || tracker.seen.len() < 4_096
        },
        tracker.is_confirmed(candidate, identity, parent_now, info) <==> {
            &&& parent_now == Some(candidate.parent)
            &&& info is Some
            &&& info->0.identity == identity
            &&& info->0.parent_pid == candidate.parent.pid
            &&& tracker.seen.contains(identity) || tracker.seen.len() < 4_096
        },
{
}

/// What happens to a process that is watched decides what is done: where it started
/// another one, its children are looked at; where it ended or cannot be watched, it is
/// watched no longer, after its children were looked at where it started one. What
/// happens to any other process changes nothing.
pub proof fn events_of_watched_processes_are_handled(
    tracker: TrackerState,
    ident: u64,
    error: bool,
    fork: bool,
    exit: bool,
)
    ensures
        ({
            let (after, step) = handled(
                tracker,
                TrackerEvent::Process { ident, error, fork, exit },
            );
            let watched = exists|i: int|
                0 <= i < tracker.active.len() && (#[trigger] tracker.active[i]).pid == ident;
            &&& after.seen == tracker.seen
            &&& after.pending == tracker.pending
            &&& !watched ==> after == tracker && step == TrackerStep::Nothing
            &&& watched && error ==> step == TrackerStep::Nothing
            &&& watched && !error && fork && exit ==> step
                == TrackerStep::AddChildrenThenForget(ident as i32) && after == tracker
            &&& watched && !error && fork && !exit ==> step == TrackerStep::AddChildren(
                ident as i32,
            ) && after == tracker
            &&& watched && !error && !fork ==> step == TrackerStep::Nothing
            &&& watched && !error && !fork && !exit ==> after == tracker
            &&& watched && (error || (exit && !fork)) ==> forall|item: ProcessGuard| #[trigger]
                after.active.contains(item) <==> tracker.active.contains(item) && item.pid != ident
        }),
{
    if ident <= i32::MAX {
        processes_are_left_out_by_their_id(tracker.active, ident as i32);
        if let Some(item) = with_pid(tracker.active, ident as i32) {
            let i = choose|i: int| 0 <= i < tracker.active.len() && tracker.active[i] == item;
            assert(tracker.active[i].pid == ident);
        }
    }
}

/// Every process that still is what it was is signalled, and no other.
pub proof fn processes_that_are_what_they_were_are_signalled(
    identities: Seq<ProcessGuard>,
    now: Seq<Option<ProcessGuard>>,
    pid: i32,
)
    requires
        identities.len() == now.len(),
    ensures
        current_pids(identities, now).contains(pid) <==> exists|i: int|
            0 <= i < identities.len() && (#[trigger] identities[i]).pid == pid && now[i] == Some(
                identities[i],
            ),
    decreases identities.len(),
{
    if identities.len() > 0 {
        let front = identities.drop_last();
        let early = now.drop_last();
        processes_that_are_what_they_were_are_signalled(front, early, pid);
        let before = current_pids(front, early);
        let all = current_pids(identities, now);
        let n = front.len() as int;
        assert(identities[n] == identities.last() && now[n] == now.last());
        if before.contains(pid) {
            let k = choose|k: int| 0 <= k < before.len() && before[k] == pid;
            assert(all[k] == pid);
            let i = choose|i: int|
                0 <= i < front.len() && (#[trigger] front[i]).pid == pid && early[i] == Some(
                    front[i],
                );
            assert(identities[i] == front[i] && now[i] == early[i]);
        }
        if all.contains(pid) {
            let k = choose|k: int| 0 <= k < all.len() && all[k] == pid;
            if k < before.len() {
                assert(before[k] == pid);
            }
        }
        if exists|i: int|
            0 <= i < identities.len() && (#[trigger] identities[i]).pid == pid && now[i] == Some(
                identities[i],
            ) {
            let i = choose|i: int|
                0 <= i < identities.len() && (#[trigger] identities[i]).pid == pid && now[i]
                    == Some(identities[i]);
            if i < n {
                assert(front[i] == identities[i] && early[i] == now[i]);
            } else {
                assert(all[all.len() - 1] == pid);
            }
        }
    }
}

/// Words with one blank between each two.
pub open spec fn spaced(items: Seq<Seq<char>>) -> Seq<char>
    decreases items.len(),
{
    if items.len() == 0 {
        Seq::empty()
    } else if items.len() == 1 {
        items[0]
    } else {
        items[0] + seq![' '] + spaced(items.skip(1))
    }
}

/// Whether a text is one word: not empty, and without white space.
pub open spec fn is_word(text: Seq<char>) -> bool {
    text.len() > 0 && forall|i: int| 0 <= i < text.len() ==> !is_space(#[trigger] text[i])
}

proof fn lemma_word_alone(word: Seq<char>, rest: Seq<char>)
    requires
        forall|i: int| 0 <= i < word.len() ==> !is_space(#[trigger] word[i]),
        rest.len() == 0 || is_space(rest[0]),
    ensures
        word_len(word + rest) == word.len(),
    decreases word.len(),
{
    let text = word + rest;
    if word.len() > 0 {
        assert(text[0] == word[0]);
        let inner = word.drop_first();
        assert(text.drop_first() =~= inner + rest);
        assert forall|i: int| 0 <= i < inner.len() implies !is_space(#[trigger] inner[i]) by {
            assert(inner[i] == word[i + 1]);
        }
        lemma_word_alone(inner, rest);
    } else {
        assert(text =~= rest);
    }
}

proof fn lemma_spaced_words(items: Seq<Seq<char>>)
    requires
        forall|i: int| 0 <= i < items.len() ==> is_word(#[trigger] items[i]),
    ensures
        words(spaced(items)) == items,
        items.len() > 0 ==> spaced(items).len() > 0 && !is_space(spaced(items)[0]),
    decreases items.len(),
{
    let text = spaced(items);
    if items.len() == 0 {
        assert(trim_start(text) =~= Seq::empty());
        assert(words(text) =~= items);
    } else {
        let first = items[0];
        let more = items.skip(1);
        assert(is_word(first));
        assert(!is_space(first[0]));
        assert forall|i: int| 0 <= i < more.len() implies is_word(#[trigger] more[i]) by {
            assert(more[i] == items[i + 1]);
        }
        lemma_spaced_words(more);
        let behind = if items.len() == 1 {
            Seq::<char>::empty()
        } else {
            seq![' '] + spaced(more)
        };
        assert(text =~= first + behind);
        assert(text[0] == first[0]);
        assert(trim_start(text) == text);
        lemma_word_alone(first, behind);
        let n = first.len() as int;
        assert(text.take(n) =~= first);
        assert(text.skip(n) =~= behind);
        if items.len() == 1 {
            assert(trim_start(behind) =~= Seq::empty());
            assert(words(behind) =~= Seq::empty());
        } else {
            assert(behind[0] == ' ');
            assert(behind.drop_first() =~= spaced(more));
            reveal_with_fuel(trim_start, 3);
            assert(trim_start(behind) == spaced(more));
            assert(trim_start(spaced(more)) == spaced(more));
            assert(words(behind) == words(spaced(more)));
        }
        assert(words(text) == seq![first] + words(behind));
        assert(seq![first] + more =~= items);
    }
}

proof fn lemma_no_close_within(items: Seq<Seq<char>>, i: int)
    requires
        forall|k: int|
            0 <= k < items.len() ==> is_word(#[trigger] items[k]) && items[k].last() != ')',
        0 <= i < spaced(items).len() - 1,
    ensures
        !(spaced(items)[i] == ')' && spaced(items)[i + 1] == ' '),
    decreases items.len(),
{
    let text = spaced(items);
    if items.len() > 0 {
        let first = items[0];
        assert(is_word(first) && first.last() != ')');
        if items.len() == 1 {
            assert(!is_space(first[i + 1]));
        } else {
            let more = items.skip(1);
            let n = first.len() as int;
            assert forall|k: int| 0 <= k < more.len() implies is_word(#[trigger] more[k])
                && more[k].last() != ')' by {
                assert(more[k] == items[k + 1]);
            }
            if i + 1 < n {
                assert(text[i + 1] == first[i + 1]);
                assert(!is_space(first[i + 1]));
            } else if i + 1 == n {
                assert(text[i] == first[n - 1]);
            } else if i == n {
                assert(text[i] == ' ');
            } else {
                lemma_no_close_within(more, i - n - 1);
                assert(text[i] == spaced(more)[i - n - 1]);
                assert(text[i + 1] == spaced(more)[i - n]);
            }
        }
    }
}

proof fn lemma_last_close(text: Seq<char>, at: int, upto: int)
    requires
        0 <= at,
        at + 1 < text.len(),
        text[at] == ')' && text[at + 1] == ' ',
        at + 1 <= upto <= text.len(),
        forall|i: int|
            at < i < text.len() - 1 ==> !(#[trigger] text[i] == ')' && text[i + 1] == ' '),
    ensures
        last_close(text, upto) == Some(at),
    decreases upto,
{
    if upto - 1 > at {
        if upto < text.len() {
            assert(!(text[upto - 1] == ')' && text[upto] == ' '));
        }
        lemma_last_close(text, at, upto - 1);
    }
}

/// The start time of a process is read from its status whatever its program is called:
/// it is the twentieth word behind the bracket that closes the name.
pub proof fn start_times_are_read_whatever_the_name(
    pid: i32,
    name: Seq<char>,
    items: Seq<Seq<char>>,
    ticks: u64,
)
    requires
        pid > 0,
        forall|k: int|
            0 <= k < items.len() ==> is_word(#[trigger] items[k]) && items[k].last() != ')',
        items.len() >= 20,
        items[19] == decimal(ticks as nat),
    ensures
        guard_of(pid, Some(name + seq![')', ' '] + spaced(items))) == Some(
            ProcessGuard { pid, start: StartTime::Ticks(ticks) },
        ),
{
    let tail = spaced(items);
    let text = name + seq![')', ' '] + tail;
    let at = name.len() as int;
    assert(text[at] == ')' && text[at + 1] == ' ');
    lemma_spaced_words(items);
    assert forall|i: int| at < i < text.len() - 1 implies !(#[trigger] text[i] == ')' && text[i + 1]
        == ' ') by {
        if i > at + 1 {
            assert(text[i] == tail[i - at - 2]);
            assert(text[i + 1] == tail[i - at - 1]);
            lemma_no_close_within(items, i - at - 2);
        }
    }
    lemma_last_close(text, at, text.len() as int);
    assert(text.skip(at + 2) =~= tail);
    assert(word_behind_bracket(text, 19) == Some(items[19]));
    decimal_numbers_are_read_back(ticks as nat);
}

/// A signed number in decimal notation is read back.
pub proof fn signed_numbers_are_read_back(n: int)
    ensures
        signed_number(signed_decimal(n)) == Some(n),
{
    reveal_strlit("-");
    if n < 0 {
        let digits = decimal((-n) as nat);
        let text = signed_decimal(n);
        decimal_numbers_are_read_back((-n) as nat);
        assert(text.drop_first() =~= digits);
        assert('0' <= digits[0] <= '9');
        assert(all_digits(digits));
    } else {
        decimal_numbers_are_read_back(n as nat);
        assert('0' <= decimal(n as nat)[0] <= '9');
    }
}

/// A root is followed exactly where it has a valid ID and is, once it is watched, the
/// process that it was before.
pub proof fn roots_are_followed_where_they_are_known(root_pid: i32, watch: RootWatch)
    ensures
        root_problem(root_pid, watch) is None <==> root_pid > 0 && (watch matches RootWatch::Watched {
            root,
            now,
        } && now == Some(root)),
{
}

/// A list of children is taken where it cannot have been cut off, or where it is as long
/// as it may be.
pub proof fn child_lists_are_taken_when_whole(capacity: usize, count: i32)
    ensures
        count <= 0 ==> children_listed(capacity, count) == ChildList::Empty,
        0 < count < capacity ==> children_listed(capacity, count) == ChildList::Complete(
            count as usize,
        ),
        0 < count && count >= capacity && capacity >= 4_096 ==> children_listed(capacity, count)
            == ChildList::Complete(capacity),
        0 < count && count >= capacity && capacity < 4_096 ==> children_listed(
            capacity,
            count,
        ) is Retry,
{
}

/// Processes are brought to an end: while any is alive they are asked once, and killed
/// once a quarter of a second later, and after another quarter there is nothing more to
/// do; and as soon as none is alive, there is nothing to do.
pub proof fn processes_are_asked_then_killed(waited: u64, alive: bool)
    ensures
        escalated(Escalation::Fresh, true, waited) == (
            Escalation::Asked,
            Some(GroupSignal::Terminate),
        ),
        waited >= 250 ==> escalated(Escalation::Asked, true, waited) == (
            Escalation::Killed,
            Some(GroupSignal::Kill),
        ),
        waited < 250 ==> escalated(Escalation::Asked, true, waited) == (
            Escalation::Asked,
            None::<GroupSignal>,
        ),
        waited >= 250 ==> escalated(Escalation::Killed, true, waited) == (
            Escalation::Over,
            None::<GroupSignal>,
        ),
        waited < 250 ==> escalated(Escalation::Killed, true, waited) == (
            Escalation::Killed,
            None::<GroupSignal>,
        ),
        forall|stage: Escalation| #[trigger]
            escalated(stage, false, waited) == (Escalation::Over, None::<GroupSignal>),
        escalated(Escalation::Over, alive, waited) == (Escalation::Over, None::<GroupSignal>),
{
}

/// At its end the broker waits for its command up to the deadline and no longer.
pub proof fn the_broker_waits_up_to_the_deadline(busy: bool, now: u64, deadline: u64)
    ensures
        idle_step(busy, now, deadline) == IdleStep::Idle <==> !busy,
        idle_step(busy, now, deadline) == IdleStep::Kill <==> busy && now >= deadline,
        idle_step(busy, now, deadline) matches IdleStep::Wait(time) ==> now + time == deadline,
{
}

/// The sizes of logged denials, taken together.
pub open spec fn logged_bytes(items: Seq<LoggedModel>) -> nat {
    items.fold_left(0nat, |sum: nat, item: LoggedModel| sum + item.bytes)
}

proof fn lemma_logged_bytes(items: Seq<LoggedModel>)
    ensures
        total_bytes(items) == logged_bytes(items),
    decreases items.len(),
{
    if items.len() > 0 {
        lemma_logged_bytes(items.drop_last());
        lemma_total_last(items);
    }
}

proof fn lemma_total_last(items: Seq<LoggedModel>)
    requires
        items.len() > 0,
    ensures
        total_bytes(items) == total_bytes(items.drop_last()) + items.last().bytes,
    decreases items.len(),
{
    if items.len() == 1 {
        reveal_with_fuel(total_bytes, 2);
        assert(items.drop_first() =~= Seq::empty());
        assert(items.drop_last() =~= Seq::empty());
    } else {
        lemma_total_last(items.drop_first());
        assert(items.drop_first().drop_last() =~= items.drop_last().drop_first());
        assert(items.drop_first().last() == items.last());
    }
}

proof fn lemma_total_suffix(items: Seq<LoggedModel>, n: int)
    requires
        0 <= n <= items.len(),
    ensures
        total_bytes(items.skip(n)) <= total_bytes(items),
    decreases n,
{
    if n == 0 {
        assert(items.skip(0) =~= items);
    } else {
        lemma_total_suffix(items.drop_first(), n - 1);
        assert(items.drop_first().skip(n - 1) =~= items.skip(n));
    }
}

/// No logged denial leaves without need: what stays is the longest end of the log that
/// fits, in number and in size.
pub proof fn logged_denials_leave_only_for_need(items: Seq<LoggedModel>, n: int)
    requires
        0 <= n <= items.len(),
        items.skip(n).len() <= 2_048,
        logged_bytes(items.skip(n)) <= 262_144,
    ensures
        retained(items).len() >= items.len() - n,
    decreases items.len(),
{
    lemma_logged_bytes(items.skip(n));
    if items.len() > 0 && retained(items) != items {
        if n == 0 {
            assert(items.skip(0) =~= items);
        } else {
            assert(items.drop_first().skip(n - 1) =~= items.skip(n));
            logged_denials_leave_only_for_need(items.drop_first(), n - 1);
        }
    }
}

} // verus!
