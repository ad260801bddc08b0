//! The identity of processes, and the processes of a command.

use vstd::prelude::*;
use vstd::string::*;

use crate::denial_collector::{DenialCollector, PidObserver};
use crate::lifecycle::{escalate, escalated, Escalation, GroupSignal};
use crate::numbers::{parse_u64, whole_number};
use crate::text::{decimal, decimal_text, joined, joined3, joined4};
use crate::words::{nth_word_behind_bracket, word_behind_bracket};

verus! {

/// How many processes of one command are followed.
pub const MAX_TRACKED_PROCESSES: usize = 4_096;

/// How many children a first look asks for.
pub const FIRST_CHILD_CAPACITY: usize = 16;

/// Where the start time stands among the words of a process's status, behind the
/// name of its program.
pub const START_TICKS_WORD: usize = 19;

/// When a process was started.
#[derive(Clone, Copy, Debug, PartialEq, Eq, Structural)]
pub enum StartTime {
    /// Clock ticks after the host was started.
    Ticks(u64),
    /// The time of day.
    Clock { seconds: u64, microseconds: u64 },
}

/// A process that another one with the same ID is told apart from by the time at
/// which it was started.
#[derive(Clone, Copy, Debug, PartialEq, Eq, Structural)]
pub struct ProcessGuard {
    pub pid: i32,
    pub start: StartTime,
}

/// What a status text of `/proc` says of a process.
pub open spec fn guard_of(pid: i32, stat: Option<Seq<char>>) -> Option<ProcessGuard> {
    match stat {
        Some(text) if pid > 0 => match word_behind_bracket(text, START_TICKS_WORD as nat) {
            Some(word) => match whole_number(word) {
                Some(ticks) if ticks <= u64::MAX => Some(
                    ProcessGuard { pid, start: StartTime::Ticks(ticks as u64) },
                ),
                _ => None,
            },
            None => None,
        },
        _ => None,
    }
}

impl ProcessGuard {
    /// Reads the identity of a process out of its status text, where there is one.
    pub fn read(pid: i32, stat: &Option<String>) -> (guard: Option<ProcessGuard>)
        ensures
            guard == guard_of(pid, crate::protocol::text_option(*stat)),
    {
        if pid <= 0 {
            return None;
        }
        let text = match stat {
            Some(text) => text,
            None => {
                return None;
            },
        };
        match nth_word_behind_bracket(text.as_str(), START_TICKS_WORD) {
            Some(word) => match parse_u64(word.as_str()) {
                Some(ticks) => Some(ProcessGuard { pid, start: StartTime::Ticks(ticks) }),
                None => None,
            },
            None => None,
        }
    }

    /// Whether the process that now has the ID is this one.
    pub fn is_current(self, now: Option<ProcessGuard>) -> (current: bool)
        ensures
            current == (now == Some(self)),
    {
        match now {
            Some(now) => now == self,
            None => false,
        }
    }
}

/// A signed number in decimal notation.
pub open spec fn signed_decimal(n: int) -> Seq<char> {
    if n < 0 {
        "-"@ + decimal((-n) as nat)
    } else {
        decimal(n as nat)
    }
}

fn pid_text(pid: i32) -> (text: String)
    ensures
        text@ == signed_decimal(pid as int),
{
    let wide = pid as i64;
    if wide < 0 {
        joined("-", decimal_text((-wide) as u64).as_str())
    } else {
        decimal_text(wide as u64)
    }
}

/// A process and the process that started it.
#[derive(Clone, Copy, Debug, PartialEq, Eq, Structural)]
pub struct ProcessInfo {
    pub identity: ProcessGuard,
    pub parent_pid: i32,
}

/// A process ID that may be a child of a process that is followed.
#[derive(Clone, Copy, Debug, PartialEq, Eq, Structural)]
pub struct Candidate {
    pub pid: i32,
    pub parent: ProcessGuard,
}

/// What came of watching the root of a command.
#[derive(Debug)]
pub enum RootWatch {
    QueueFailed(String),
    StopEventFailed(String),
    Unidentified,
    WatchFailed(String),
    /// The root's identity before it was watched, and after.
    Watched { root: ProcessGuard, now: Option<ProcessGuard> },
}

/// What there is to say against following a root.
pub open spec fn root_problem(root_pid: i32, watch: RootWatch) -> Option<Seq<char>> {
    let pid = signed_decimal(root_pid as int);
    if root_pid <= 0 {
        Some("cannot track an invalid root PID"@)
    } else {
        match watch {
            RootWatch::QueueFailed(error) => Some("cannot create process tracker: "@ + error@),
            RootWatch::StopEventFailed(error) => Some(
                "cannot register process tracker stop event: "@ + error@,
            ),
            RootWatch::Unidentified => Some("cannot identify command root PID "@ + pid),
            RootWatch::WatchFailed(error) => Some(
                "cannot watch command root PID "@ + pid + ": "@ + error@,
            ),
            RootWatch::Watched { root, now } => if now == Some(root) {
                None
            } else {
                Some("command root PID "@ + pid + " changed during tracker setup"@)
            },
        }
    }
}

/// The processes of one command.
pub struct PidTracker {
    root: ProcessGuard,
    seen: Vec<ProcessGuard>,
    active: Vec<ProcessGuard>,
    pending: Vec<Candidate>,
    observer: Option<PidObserver>,
}

/// The processes of one command: its root, all that were found to belong to it,
/// those of them that are watched, what is still to be looked at, and the command
/// that is told of them.
pub struct TrackerState {
    pub root: ProcessGuard,
    pub seen: Seq<ProcessGuard>,
    pub active: Seq<ProcessGuard>,
    pub pending: Seq<Candidate>,
    pub observer: Option<Seq<char>>,
}

impl View for PidTracker {
    type V = TrackerState;

    closed spec fn view(&self) -> TrackerState {
        TrackerState {
            root: self.root,
            seen: self.seen@,
            active: self.active@,
            pending: self.pending@,
            observer: observer_id(self.observer),
        }
    }
}

/// The command that an observer stands for.
pub open spec fn observer_id(observer: Option<PidObserver>) -> Option<Seq<char>> {
    match observer {
        Some(observer) => Some(observer.command_id@),
        None => None,
    }
}

/// The processes but those with one ID.
pub open spec fn without_pid(items: Seq<ProcessGuard>, pid: i32) -> Seq<ProcessGuard>
    decreases items.len(),
{
    if items.len() == 0 {
        items
    } else if items.last().pid == pid {
        without_pid(items.drop_last(), pid)
    } else {
        without_pid(items.drop_last(), pid).push(items.last())
    }
}

/// The process with one ID.
pub open spec fn with_pid(items: Seq<ProcessGuard>, pid: i32) -> Option<ProcessGuard>
    decreases items.len(),
{
    if items.len() == 0 {
        None
    } else if items.last().pid == pid {
        Some(items.last())
    } else {
        with_pid(items.drop_last(), pid)
    }
}

impl TrackerState {
    /// A tracker that follows nothing but a root.
    pub open spec fn rooted(root: ProcessGuard, observer: Option<Seq<char>>) -> TrackerState {
        TrackerState {
            root,
            seen: seq![root],
            active: seq![root],
            pending: Seq::empty(),
            observer,
        }
    }

    /// Whether the tracker keeps its bounds: each process was found once, there are
    /// no more than may be followed, the root is among them, and what is watched was
    /// found.
    pub open spec fn is_bounded(self) -> bool {
        &&& self.seen.no_duplicates()
        &&& self.seen.len() <= MAX_TRACKED_PROCESSES
        &&& self.seen.contains(self.root)
        &&& forall|i: int|
            0 <= i < self.active.len() ==> self.seen.contains(#[trigger] self.active[i])
    }

    /// Whether a process may be followed.
    pub open spec fn has_room(self, identity: ProcessGuard) -> bool {
        self.seen.contains(identity) || self.seen.len() < MAX_TRACKED_PROCESSES
    }

    /// The process to watch for a candidate: it is a child of the process that it was
    /// taken for, not yet watched, and may be followed.
    pub open spec fn examined(
        self,
        candidate: Candidate,
        parent_now: Option<ProcessGuard>,
        info: Option<ProcessInfo>,
    ) -> Option<ProcessGuard> {
        match info {
            Some(info) if parent_now == Some(candidate.parent) && info.parent_pid
                == candidate.parent.pid && !self.active.contains(info.identity) && self.has_room(
                info.identity,
            ) => Some(info.identity),
            _ => None,
        }
    }

    /// Whether neither a watched process nor its parent has changed meanwhile.
    pub open spec fn is_confirmed(
        self,
        candidate: Candidate,
        identity: ProcessGuard,
        parent_now: Option<ProcessGuard>,
        info: Option<ProcessInfo>,
    ) -> bool {
        &&& parent_now == Some(candidate.parent)
        &&& info == Some(ProcessInfo { identity, parent_pid: candidate.parent.pid })
        &&& self.has_room(identity)
    }

    /// The tracker with one more process.
    pub open spec fn with(self, identity: ProcessGuard) -> TrackerState {
        TrackerState {
            seen: if self.seen.contains(identity) {
                self.seen
            } else {
                self.seen.push(identity)
            },
            active: without_pid(self.active, identity.pid).push(identity),
            ..self
        }
    }

    /// The tracker that watches a process no longer.
    pub open spec fn unwatched(self, pid: i32) -> TrackerState {
        TrackerState { active: without_pid(self.active, pid), ..self }
    }
}

fn holds_process(items: &Vec<ProcessGuard>, identity: ProcessGuard) -> (found: bool)
    ensures
        found == items@.contains(identity),
{
    let mut i: usize = 0;
    while i < items.len()
        invariant
            i <= items@.len(),
            forall|j: int| 0 <= j < i ==> items@[j] != identity,
        decreases items@.len() - i,
    {
        if items[i] == identity {
            return true;
        }
        i = i + 1;
    }
    false
}

fn find_pid(items: &Vec<ProcessGuard>, pid: i32) -> (found: Option<ProcessGuard>)
    ensures
        found == with_pid(items@, pid),
{
    let mut i = items.len();
    assert(items@.take(i as int) =~= items@);
    while i > 0
        invariant
            i <= items@.len(),
            with_pid(items@, pid) == with_pid(items@.take(i as int), pid),
        decreases i,
    {
        assert(items@.take(i as int).drop_last() =~= items@.take(i - 1));
        assert(items@.take(i as int).last() == items@[i - 1]);
        if items[i - 1].pid == pid {
            return Some(items[i - 1]);
        }
        i = i - 1;
    }
    None
}

fn drop_pid(items: &Vec<ProcessGuard>, pid: i32) -> (rest: Vec<ProcessGuard>)
    ensures
        rest@ == without_pid(items@, pid),
{
    let mut rest: Vec<ProcessGuard> = Vec::new();
    let mut i: usize = 0;
    assert(items@.take(0) =~= Seq::empty());
    while i < items.len()
        invariant
            i <= items@.len(),
            rest@ == without_pid(items@.take(i as int), pid),
        decreases items@.len() - i,
    {
        assert(items@.take(i + 1).drop_last() =~= items@.take(i as int));
        assert(items@.take(i + 1).last() == items@[i as int]);
        if items[i].pid != pid {
            rest.push(items[i]);
        }
        i = i + 1;
    }
    assert(items@.take(i as int) =~= items@);
    rest
}

proof fn lemma_without_pid(items: Seq<ProcessGuard>, pid: i32)
    ensures
        forall|i: int|
            0 <= i < without_pid(items, pid).len() ==> items.contains(
                #[trigger] without_pid(items, pid)[i],
            ),
    decreases items.len(),
{
    if items.len() > 0 {
        let before = items.drop_last();
        lemma_without_pid(before, pid);
        assert forall|i: int| 0 <= i < without_pid(items, pid).len() implies items.contains(
            #[trigger] without_pid(items, pid)[i],
        ) by {
            let item = without_pid(items, pid)[i];
            if i < without_pid(before, pid).len() {
                assert(before.contains(without_pid(before, pid)[i]));
                let j = choose|j: int| 0 <= j < before.len() && before[j] == item;
                assert(items[j] == item);
            } else {
                assert(items[items.len() - 1] == item);
            }
        }
    }
}

/// A tracker keeps its bounds, whichever process is added and whichever is no
/// longer watched.
pub proof fn a_tracker_stays_bounded(tracker: TrackerState, identity: ProcessGuard, pid: i32)
    requires
        tracker.is_bounded(),
        tracker.has_room(identity),
    ensures
        tracker.with(identity).is_bounded(),
        tracker.unwatched(pid).is_bounded(),
{
    let with = tracker.with(identity);
    lemma_without_pid(tracker.active, identity.pid);
    lemma_without_pid(tracker.active, pid);
    assert forall|item: ProcessGuard| tracker.seen.contains(item) implies with.seen.contains(
        item,
    ) by {
        let i = choose|i: int| 0 <= i < tracker.seen.len() && tracker.seen[i] == item;
        assert(with.seen[i] == item);
    }
    assert(with.seen.contains(identity)) by {
        if !tracker.seen.contains(identity) {
            assert(with.seen[with.seen.len() - 1] == identity);
        }
    }
    assert forall|i: int| 0 <= i < with.active.len() implies with.seen.contains(
        #[trigger] with.active[i],
    ) by {
        let rest = without_pid(tracker.active, identity.pid);
        if i < rest.len() {
            assert(tracker.active.contains(rest[i]));
            let j = choose|j: int| 0 <= j < tracker.active.len() && tracker.active[j] == rest[i];
            assert(tracker.seen.contains(tracker.active[j]));
        }
    }
    let gone = tracker.unwatched(pid);
    assert forall|i: int| 0 <= i < gone.active.len() implies gone.seen.contains(
        #[trigger] gone.active[i],
    ) by {
        assert(tracker.active.contains(gone.active[i]));
        let j = choose|j: int|
            0 <= j < tracker.active.len() && tracker.active[j] == gone.active[i];
        assert(tracker.seen.contains(tracker.active[j]));
    }
}

/// What to do about the children of a process.
#[derive(Clone, Copy, Debug, PartialEq, Eq, Structural)]
pub enum ChildrenStep {
    /// The process is not watched.
    Unknown,
    /// The process is gone: it is not to be watched any longer.
    Gone,
    /// Each child of the process is a candidate.
    List(ProcessGuard),
}

/// What the host reports of watched processes.
#[derive(Clone, Copy, Debug, PartialEq, Eq, Structural)]
pub enum TrackerEvent {
    /// Following processes is to end.
    Stop,
    /// Something happened to a process: it cannot be watched, it started another
    /// one, it ended.
    Process { ident: u64, error: bool, fork: bool, exit: bool },
}

/// What a report asks for.
#[derive(Clone, Copy, Debug, PartialEq, Eq, Structural)]
pub enum TrackerStep {
    /// End following processes.
    Stop,
    /// Nothing.
    Nothing,
    /// Look at the children of the process.
    AddChildren(i32),
    /// Look at the children of the process, then forget it.
    AddChildrenThenForget(i32),
}

/// What a report asks for, and what becomes of the tracker at once.
pub open spec fn handled(tracker: TrackerState, event: TrackerEvent) -> (TrackerState, TrackerStep) {
    match event {
        TrackerEvent::Stop => (tracker, TrackerStep::Stop),
        TrackerEvent::Process { ident, error, fork, exit } => if ident > i32::MAX || with_pid(
            tracker.active,
            ident as i32,
        ) is None {
            (tracker, TrackerStep::Nothing)
        } else {
            let pid = ident as i32;
            if error {
                (tracker.unwatched(pid), TrackerStep::Nothing)
            } else if fork && exit {
                (tracker, TrackerStep::AddChildrenThenForget(pid))
            } else if fork {
                (tracker, TrackerStep::AddChildren(pid))
            } else if exit {
                (tracker.unwatched(pid), TrackerStep::Nothing)
            } else {
                (tracker, TrackerStep::Nothing)
            }
        },
    }
}

impl PidTracker {
    #[verifier::type_invariant]
    spec fn well_formed(self) -> bool {
        self@.is_bounded()
    }

    fn rooted(root: ProcessGuard, observer: Option<PidObserver>) -> (tracker: PidTracker)
        ensures
            tracker@ == TrackerState::rooted(root, observer_id(observer)),
    {
        let seen = vec![root];
        let active = vec![root];
        assert(seen@ =~= seq![root]);
        assert(active@ =~= seq![root]);
        assert(seen@[0] == root);
        PidTracker { root, seen, active, pending: Vec::new(), observer }
    }

    /// Follows a command whose processes live and die with its root.
    pub fn start(root_pid: i32, now: Option<ProcessGuard>) -> (started: Result<PidTracker, String>)
        ensures
            match started {
                Ok(tracker) => now == Some(tracker@.root) && tracker@ == TrackerState::rooted(
                    tracker@.root,
                    None,
                ),
                Err(message) => now is None && message@
                    == "cannot identify Linux sandbox process "@ + signed_decimal(root_pid as int),
            },
    {
        match now {
            Some(root) => Ok(PidTracker::rooted(root, None)),
            None => Err(
                joined("cannot identify Linux sandbox process ", pid_text(root_pid).as_str()),
            ),
        }
    }

    /// Follows a command through its processes, and tells an observer of each.
    pub fn start_observed(root_pid: i32, watch: RootWatch, observer: Option<PidObserver>) -> (started:
        Result<PidTracker, String>)
        ensures
            match started {
                Ok(tracker) => root_problem(root_pid, watch) is None && watch is Watched && tracker@
                    == TrackerState::rooted(watch->root, observer_id(observer)),
                Err(message) => root_problem(root_pid, watch) == Some(message@),
            },
    {
        if root_pid <= 0 {
            return Err("cannot track an invalid root PID".to_owned());
        }
        let pid = pid_text(root_pid);
        match watch {
            RootWatch::QueueFailed(error) => Err(
                joined("cannot create process tracker: ", error.as_str()),
            ),
            RootWatch::StopEventFailed(error) => Err(
                joined("cannot register process tracker stop event: ", error.as_str()),
            ),
            RootWatch::Unidentified => Err(
                joined("cannot identify command root PID ", pid.as_str()),
            ),
            RootWatch::WatchFailed(error) => Err(
                joined4("cannot watch command root PID ", pid.as_str(), ": ", error.as_str()),
            ),
            RootWatch::Watched { root, now } => if root.is_current(now) {
                Ok(PidTracker::rooted(root, observer))
            } else {
                Err(joined3("command root PID ", pid.as_str(), " changed during tracker setup"))
            },
        }
    }

    /// The root of the command.
    pub fn root_guard(&self) -> (root: ProcessGuard)
        ensures
            root == self@.root,
    {
        self.root
    }

    /// Tells the observer, where there is one, of a process.
    pub fn observe(&self, collector: &mut DenialCollector, pid: i32)
        ensures
            final(collector)@ == (match self@.observer {
                Some(id) => old(collector)@.observed(id, pid),
                None => old(collector)@,
            }),
    {
        if let Some(observer) = &self.observer {
            observer.observe(collector, pid);
        }
    }

    /// Takes note of a process that may be a child.
    pub fn add_pid(&mut self, pid: i32, expected_parent: ProcessGuard)
        ensures
            final(self)@ == (TrackerState {
                pending: old(self)@.pending.push(Candidate { pid, parent: expected_parent }),
                ..old(self)@
            }),
    {
        let (root, seen, active, mut pending, observer) = self.take_apart();
        pending.push(Candidate { pid, parent: expected_parent });
        *self = PidTracker { root, seen, active, pending, observer };
    }

    fn take_apart(&mut self) -> (parts: (
        ProcessGuard,
        Vec<ProcessGuard>,
        Vec<ProcessGuard>,
        Vec<Candidate>,
        Option<PidObserver>,
    ))
        ensures
            old(self)@ == (TrackerState {
                root: parts.0,
                seen: parts.1@,
                active: parts.2@,
                pending: parts.3@,
                observer: observer_id(parts.4),
            }),
            old(self)@.is_bounded(),
    {
        let mut taken = PidTracker::rooted(self.root, None);
        std::mem::swap(self, &mut taken);
        proof {
            use_type_invariant(&taken);
        }
        let PidTracker { root, seen, active, pending, observer } = taken;
        (root, seen, active, pending, observer)
    }

    /// The process that was noted last and is now to be looked at.
    pub fn next_candidate(&mut self) -> (candidate: Option<Candidate>)
        ensures
            match candidate {
                Some(candidate) => old(self)@.pending.len() > 0 && candidate
                    == old(self)@.pending.last() && final(self)@ == (TrackerState {
                    pending: old(self)@.pending.drop_last(),
                    ..old(self)@
                }),
                None => old(self)@.pending.len() == 0 && final(self)@ == old(self)@,
            },
    {
        let (root, seen, active, mut pending, observer) = self.take_apart();
        let candidate = pending.pop();
        *self = PidTracker { root, seen, active, pending, observer };
        candidate
    }

    /// The process to watch for a candidate.
    pub fn examine(
        &self,
        candidate: Candidate,
        parent_now: Option<ProcessGuard>,
        info: Option<ProcessInfo>,
    ) -> (identity: Option<ProcessGuard>)
        ensures
            identity == self@.examined(candidate, parent_now, info),
    {
        if !candidate.parent.is_current(parent_now) {
            return None;
        }
        match info {
            Some(info) => {
                if info.parent_pid != candidate.parent.pid || holds_process(
                    &self.active,
                    info.identity,
                ) {
                    return None;
                }
                if !holds_process(&self.seen, info.identity) && self.seen.len()
                    >= MAX_TRACKED_PROCESSES {
                    return None;
                }
                Some(info.identity)
            },
            None => None,
        }
    }

    /// Follows a watched process, unless it or its parent has changed meanwhile: then
    /// it is not to be watched any longer.
    pub fn confirm(
        &mut self,
        candidate: Candidate,
        identity: ProcessGuard,
        parent_now: Option<ProcessGuard>,
        info: Option<ProcessInfo>,
    ) -> (followed: bool)
        ensures
            followed == old(self)@.is_confirmed(candidate, identity, parent_now, info),
            final(self)@ == (if followed {
                old(self)@.with(identity)
            } else {
                old(self)@
            }),
    {
        let unchanged = match info {
            Some(info) => info.identity == identity && info.parent_pid == candidate.parent.pid,
            None => false,
        };
        if !unchanged || !candidate.parent.is_current(parent_now) {
            return false;
        }
        let known = holds_process(&self.seen, identity);
        if !known && self.seen.len() >= MAX_TRACKED_PROCESSES {
            return false;
        }
        let ghost before = self@;
        let (root, mut seen, active, pending, observer) = self.take_apart();
        if !known {
            seen.push(identity);
        }
        let mut active = drop_pid(&active, identity.pid);
        active.push(identity);
        proof {
            a_tracker_stays_bounded(before, identity, identity.pid);
        }
        *self = PidTracker { root, seen, active, pending, observer };
        true
    }

    /// What to do about the children of a process, given the process that now has its
    /// ID.
    pub fn add_children(&mut self, parent: i32, now: Option<ProcessGuard>) -> (step: ChildrenStep)
        ensures
            match with_pid(old(self)@.active, parent) {
                None => step == ChildrenStep::Unknown && final(self)@ == old(self)@,
                Some(identity) => if now == Some(identity) {
                    step == ChildrenStep::List(identity) && final(self)@ == old(self)@
                } else {
                    step == ChildrenStep::Gone && final(self)@ == old(self)@.unwatched(parent)
                },
            },
    {
        match find_pid(&self.active, parent) {
            None => ChildrenStep::Unknown,
            Some(identity) => {
                if identity.is_current(now) {
                    ChildrenStep::List(identity)
                } else {
                    self.forget(parent);
                    ChildrenStep::Gone
                }
            },
        }
    }

    /// Watches a process no longer.
    pub fn forget(&mut self, pid: i32)
        ensures
            final(self)@ == old(self)@.unwatched(pid),
    {
        let ghost before = self@;
        let (root, seen, active, pending, observer) = self.take_apart();
        let active = drop_pid(&active, pid);
        proof {
            a_tracker_stays_bounded(before, before.root, pid);
        }
        *self = PidTracker { root, seen, active, pending, observer };
    }

    /// The processes whose children a last look takes in.
    pub fn refresh(&self) -> (parents: Vec<i32>)
        ensures
            parents@ == self@.active.map_values(|identity: ProcessGuard| identity.pid),
    {
        let mut parents: Vec<i32> = Vec::new();
        let ghost pids = self@.active.map_values(|identity: ProcessGuard| identity.pid);
        let mut i: usize = 0;
        while i < self.active.len()
            invariant
                i <= self.active@.len(),
                self@.active == self.active@,
                pids == self@.active.map_values(|identity: ProcessGuard| identity.pid),
                parents@ == pids.take(i as int),
            decreases self.active@.len() - i,
        {
            parents.push(self.active[i].pid);
            assert(pids.take(i + 1) =~= pids.take(i as int).push(pids[i as int]));
            i = i + 1;
        }
        assert(pids.take(i as int) =~= pids);
        parents
    }

    /// What a report asks for.
    pub fn handle(&mut self, event: TrackerEvent) -> (step: TrackerStep)
        ensures
            handled(old(self)@, event) == (final(self)@, step),
    {
        match event {
            TrackerEvent::Stop => TrackerStep::Stop,
            TrackerEvent::Process { ident, error, fork, exit } => {
                if ident > 0x7fff_ffff {
                    return TrackerStep::Nothing;
                }
                let pid = ident as i32;
                if find_pid(&self.active, pid).is_none() {
                    return TrackerStep::Nothing;
                }
                if error {
                    self.forget(pid);
                    TrackerStep::Nothing
                } else if fork && exit {
                    TrackerStep::AddChildrenThenForget(pid)
                } else if fork {
                    TrackerStep::AddChildren(pid)
                } else {
                    if exit {
                        self.forget(pid);
                    }
                    TrackerStep::Nothing
                }
            },
        }
    }

    /// All processes that were found to belong to the command.
    pub fn into_seen(self) -> (seen: Vec<ProcessGuard>)
        ensures
            seen@ == self@.seen,
            seen@.no_duplicates(),
            seen@.len() <= MAX_TRACKED_PROCESSES,
    {
        proof {
            use_type_invariant(&self);
        }
        self.seen
    }
}

/// The IDs of the processes that still are what they were.
pub open spec fn current_pids(
    identities: Seq<ProcessGuard>,
    now: Seq<Option<ProcessGuard>>,
) -> Seq<i32>
    decreases identities.len(),
{
    if identities.len() == 0 || now.len() == 0 {
        Seq::empty()
    } else {
        let before = current_pids(identities.drop_last(), now.drop_last());
        if now.last() == Some(identities.last()) {
            before.push(identities.last().pid)
        } else {
            before
        }
    }
}

/// The IDs to signal: those of the processes that still are what they were.
pub fn signal_current(identities: &Vec<ProcessGuard>, now: &Vec<Option<ProcessGuard>>) -> (pids:
    Vec<i32>)
    requires
        identities@.len() == now@.len(),
    ensures
        pids@ == current_pids(identities@, now@),
{
    let mut pids: Vec<i32> = Vec::new();
    let mut i: usize = 0;
    while i < identities.len()
        invariant
            i <= identities@.len() == now@.len(),
            pids@ == current_pids(identities@.take(i as int), now@.take(i as int)),
        decreases identities@.len() - i,
    {
        assert(identities@.take(i + 1).drop_last() =~= identities@.take(i as int));
        assert(now@.take(i + 1).drop_last() =~= now@.take(i as int));
        assert(identities@.take(i + 1).last() == identities@[i as int]);
        assert(now@.take(i + 1).last() == now@[i as int]);
        if identities[i].is_current(now[i]) {
            pids.push(identities[i].pid);
        }
        i = i + 1;
    }
    assert(identities@.take(i as int) =~= identities@);
    assert(now@.take(i as int) =~= now@);
    pids
}

/// Decides what the ending of a command's processes comes to next: the signal, and
/// the processes that it is for.
pub fn cleanup(
    stage: Escalation,
    identities: &Vec<ProcessGuard>,
    now: &Vec<Option<ProcessGuard>>,
    waited: u64,
) -> (next: (Escalation, Option<GroupSignal>, Vec<i32>))
    requires
        identities@.len() == now@.len(),
    ensures
        next.2@ == current_pids(identities@, now@),
        (next.0, next.1) == escalated(stage, next.2@.len() > 0, waited),
{
    let pids = signal_current(identities, now);
    let (stage, signal) = escalate(stage, pids.len() > 0, waited);
    (stage, signal, pids)
}

/// What to do with a list of children.
#[derive(Clone, Copy, Debug, PartialEq, Eq, Structural)]
pub enum ChildList {
    /// There are no children.
    Empty,
    /// So many children stand in the list.
    Complete(usize),
    /// The list may be cut off: ask again, for so many.
    Retry(usize),
}

/// What to do with a list of children that was asked for with some capacity.
pub open spec fn children_listed(capacity: usize, count: i32) -> ChildList {
    if count <= 0 {
        ChildList::Empty
    } else if count < capacity {
        ChildList::Complete(count as usize)
    } else if capacity >= MAX_TRACKED_PROCESSES {
        ChildList::Complete(capacity)
    } else {
        let wanted = if 2 * capacity > count + FIRST_CHILD_CAPACITY {
            2 * capacity
        } else {
            count + FIRST_CHILD_CAPACITY
        };
        ChildList::Retry(
            (if wanted < MAX_TRACKED_PROCESSES {
                wanted
            } else {
                MAX_TRACKED_PROCESSES as int
            }) as usize,
        )
    }
}

/// What to do with a list of children that was asked for with some capacity.
pub fn list_child_pids(capacity: usize, count: i32) -> (step: ChildList)
    ensures
        step == children_listed(capacity, count),
{
    if count <= 0 {
        return ChildList::Empty;
    }
    let returned = count as usize;
    if returned < capacity {
        return ChildList::Complete(returned);
    }
    if capacity >= MAX_TRACKED_PROCESSES {
        return ChildList::Complete(capacity);
    }
    if returned >= MAX_TRACKED_PROCESSES {
        return ChildList::Retry(MAX_TRACKED_PROCESSES);
    }
    let doubled = 2 * capacity;
    let wanted = if doubled > returned + FIRST_CHILD_CAPACITY {
        doubled
    } else {
        returned + FIRST_CHILD_CAPACITY
    };
    ChildList::Retry(
        if wanted < MAX_TRACKED_PROCESSES {
            wanted
        } else {
            MAX_TRACKED_PROCESSES
        },
    )
}

/// Asking for children again asks for more of them, up to a fixed number, so that
/// it comes to an end.
pub proof fn child_lists_grow_up_to_a_limit(capacity: usize, count: i32)
    ensures
        match children_listed(capacity, count) {
            ChildList::Retry(next) => capacity < next <= MAX_TRACKED_PROCESSES,
            ChildList::Complete(n) => n <= capacity,
            ChildList::Empty => true,
        },
{
}

/// A process is signalled only if it was followed and still is what it was.
pub proof fn only_followed_processes_are_signalled(
    identities: Seq<ProcessGuard>,
    now: Seq<Option<ProcessGuard>>,
    pid: i32,
)
    requires
        identities.len() == now.len(),
        current_pids(identities, now).contains(pid),
    ensures
        exists|i: int|
            0 <= i < identities.len() && #[trigger] identities[i].pid == pid && now[i] == Some(
                identities[i],
            ),
    decreases identities.len(),
{
    if identities.len() > 0 {
        let before = identities.drop_last();
        let rest = current_pids(before, now.drop_last());
        if rest.contains(pid) {
            only_followed_processes_are_signalled(before, now.drop_last(), pid);
            let i = choose|i: int|
                0 <= i < before.len() && #[trigger] before[i].pid == pid && now.drop_last()[i]
                    == Some(before[i]);
            assert(identities[i] == before[i] && now[i] == now.drop_last()[i]);
        } else {
            let all = current_pids(identities, now);
            let j = choose|j: int| 0 <= j < all.len() && all[j] == pid;
            if j < rest.len() {
                assert(rest[j] == pid);
            }
            assert(identities[identities.len() - 1].pid == pid);
        }
    }
}

} // verus!
