//! Which logged denials belong to which command.
//!
//! The log of the sandbox and the discovery of processes can both drop or delay
//! what they report, so the denials of a command are never known to be complete.

use std::collections::{HashSet, VecDeque};

use vstd::prelude::*;
use vstd::string::*;
use vstd::utf8::encode_utf8;

use crate::denial_log::{lemma_parsed_bytes, line_denial, parse_log_line, DENIAL_PATTERN};
use crate::facts::models;
use crate::outside::{json_string, regex_groups};
use crate::protocol::{text_option, Denial, DenialModel};
use crate::text::{joined, same_text};

verus! {

broadcast use vstd::std_specs::hash::group_hash_axioms;

/// How the log stream says that it is ready.
pub const LOG_READY_PREFIX: &'static str = "Filtering the log data using ";

pub const MAX_RECENT_BYTES: usize = 262_144;

pub const MAX_RECENT_ITEMS: usize = 2_048;

pub const MAX_COMMAND_ITEMS: usize = 128;

pub const MAX_COMMAND_BYTES: usize = 65_536;

/// A denial that was logged while a command ran.
#[derive(Debug)]
pub struct LoggedDenial {
    pub sequence: u64,
    pub pid: i32,
    pub denial: Denial,
    pub bytes: usize,
}

/// A denial that was logged while a command ran.
pub struct LoggedModel {
    pub sequence: u64,
    pub pid: i32,
    pub denial: DenialModel,
    pub bytes: nat,
}

impl View for LoggedDenial {
    type V = LoggedModel;

    open spec fn view(&self) -> LoggedModel {
        LoggedModel {
            sequence: self.sequence,
            pid: self.pid,
            denial: self.denial@,
            bytes: self.bytes as nat,
        }
    }
}

/// The command that denials are attributed to.
#[derive(Debug)]
pub struct ActiveCommand {
    pub id: String,
    pub start_sequence: u64,
    pub pids: HashSet<i32>,
}

/// The command that denials are attributed to.
pub struct ActiveModel {
    pub id: Seq<char>,
    pub start_sequence: u64,
    pub pids: Set<i32>,
}

impl View for ActiveCommand {
    type V = ActiveModel;

    open spec fn view(&self) -> ActiveModel {
        ActiveModel { id: self.id@, start_sequence: self.start_sequence, pids: self.pids@ }
    }
}

/// How many bytes logged denials take.
pub open spec fn total_bytes(items: Seq<LoggedModel>) -> nat
    decreases items.len(),
{
    if items.len() == 0 {
        0
    } else {
        items[0].bytes + total_bytes(items.drop_first())
    }
}

/// What stays of logged denials: the oldest leave until the others fit.
pub open spec fn retained(items: Seq<LoggedModel>) -> Seq<LoggedModel>
    decreases items.len(),
{
    if items.len() > 0 && (items.len() > MAX_RECENT_ITEMS || total_bytes(items) > MAX_RECENT_BYTES) {
        retained(items.drop_first())
    } else {
        items
    }
}

/// Whether a logged denial belongs to a command: one of its processes was denied
/// something, after the command began.
pub open spec fn attributed(logged: LoggedModel, active: ActiveModel) -> bool {
    logged.sequence >= active.start_sequence && active.pids.contains(logged.pid)
}

/// Whether the command was denied the same before.
pub open spec fn reported_before(
    recent: Seq<LoggedModel>,
    denial: DenialModel,
    active: ActiveModel,
) -> bool {
    exists|i: int|
        0 <= i < recent.len() && attributed(#[trigger] recent[i], active) && recent[i].denial
            == denial
}

/// The denials of a command, each once, as many as fit, with the bytes that they
/// take.
pub open spec fn collected(recent: Seq<LoggedModel>, active: ActiveModel) -> (Seq<DenialModel>, nat)
    decreases recent.len(),
{
    if recent.len() == 0 {
        (Seq::empty(), 0)
    } else {
        let before = recent.drop_last();
        let last = recent.last();
        let (items, bytes) = collected(before, active);
        if attributed(last, active) && !reported_before(before, last.denial, active) && items.len()
            < MAX_COMMAND_ITEMS && bytes + last.bytes <= MAX_COMMAND_BYTES {
            (items.push(last.denial), bytes + last.bytes)
        } else {
            (items, bytes)
        }
    }
}

/// The denials of a command are no more than it may have, no two are the same, and
/// each was logged for one of its processes after it began.
pub proof fn collected_denials_belong_to_the_command(recent: Seq<LoggedModel>, active: ActiveModel)
    ensures
        collected(recent, active).0.len() <= MAX_COMMAND_ITEMS,
        collected(recent, active).1 <= MAX_COMMAND_BYTES,
        collected(recent, active).0.no_duplicates(),
        forall|i: int|
            0 <= i < collected(recent, active).0.len() ==> reported_before(
                recent,
                #[trigger] collected(recent, active).0[i],
                active,
            ),
    decreases recent.len(),
{
    if recent.len() > 0 {
        let before = recent.drop_last();
        let last = recent.last();
        collected_denials_belong_to_the_command(before, active);
        let items = collected(before, active).0;
        assert forall|i: int| 0 <= i < items.len() implies reported_before(
            recent,
            #[trigger] items[i],
            active,
        ) by {
            assert(reported_before(before, items[i], active));
            let j = choose|j: int|
                0 <= j < before.len() && attributed(#[trigger] before[j], active)
                    && before[j].denial == items[i];
            assert(recent[j] == before[j]);
        }
        if collected(recent, active).0.len() > items.len() {
            assert(recent[recent.len() - 1] == last);
            assert(reported_before(recent, last.denial, active));
            assert forall|i: int| 0 <= i < items.len() implies items[i] != last.denial by {
                assert(reported_before(before, items[i], active));
            }
        }
    }
}

proof fn lemma_total_push(items: Seq<LoggedModel>, item: LoggedModel)
    ensures
        total_bytes(items.push(item)) == total_bytes(items) + item.bytes,
    decreases items.len(),
{
    if items.len() == 0 {
        assert(items.push(item).drop_first() =~= items);
    } else {
        lemma_total_push(items.drop_first(), item);
        assert(items.push(item).drop_first() =~= items.drop_first().push(item));
    }
}

/// What stays of logged denials fits, and is the newest of them: a logged denial
/// that fits by itself is among them.
pub proof fn the_newest_denials_stay(items: Seq<LoggedModel>)
    ensures
        retained(items).len() <= MAX_RECENT_ITEMS,
        total_bytes(retained(items)) <= MAX_RECENT_BYTES,
        retained(items).len() <= items.len(),
        retained(items) == items.skip(items.len() - retained(items).len()),
        items.len() > 0 && items.last().bytes <= MAX_RECENT_BYTES ==> retained(items).len() > 0,
    decreases items.len(),
{
    if items.len() > 0 {
        let rest = items.drop_first();
        the_newest_denials_stay(rest);
        if items.len() == 1 {
            assert(rest =~= Seq::empty());
            assert(total_bytes(items) == items[0].bytes + total_bytes(rest));
        } else {
            assert(rest.last() == items.last());
        }
        assert(items.skip(items.len() - retained(rest).len()) =~= rest.skip(
            rest.len() - retained(rest).len(),
        ));
        assert(items.skip(0) =~= items);
    } else {
        assert(items.skip(0) =~= items);
    }
}

fn same_option(a: &Option<String>, b: &Option<String>) -> (same: bool)
    ensures
        same == (text_option(*a) == text_option(*b)),
{
    match (a, b) {
        (Some(a), Some(b)) => same_text(a.as_str(), b.as_str()),
        (None, None) => true,
        _ => false,
    }
}

fn same_denial(a: &Denial, b: &Denial) -> (same: bool)
    ensures
        same == (a@ == b@),
{
    same_text(a.operation.as_str(), b.operation.as_str()) && same_option(&a.path, &b.path)
        && same_option(&a.process, &b.process)
}

fn belongs(logged: &LoggedDenial, active: &ActiveCommand) -> (belongs: bool)
    ensures
        belongs == attributed(logged@, active@),
{
    logged.sequence >= active.start_sequence && active.pids.contains(&logged.pid)
}

/// Whether the command was denied the same before the item at `upto`.
fn was_reported(
    recent: &VecDeque<LoggedDenial>,
    upto: usize,
    denial: &Denial,
    active: &ActiveCommand,
) -> (found: bool)
    requires
        upto <= recent@.len(),
    ensures
        found == reported_before(models(recent@).take(upto as int), denial@, active@),
{
    let ghost before = models(recent@).take(upto as int);
    let mut i: usize = 0;
    while i < upto
        invariant
            i <= upto <= recent@.len(),
            before == models(recent@).take(upto as int),
            forall|j: int|
                0 <= j < i ==> !(attributed(#[trigger] before[j], active@) && before[j].denial
                    == denial@),
        decreases upto - i,
    {
        let logged = &recent[i];
        assert(before[i as int] == logged@);
        if belongs(logged, active) && same_denial(&logged.denial, denial) {
            return true;
        }
        i = i + 1;
    }
    false
}

/// The denials of a command.
pub fn collect_command_denials(recent: &VecDeque<LoggedDenial>, active: &ActiveCommand) -> (items:
    Vec<Denial>)
    ensures
        models(items@) == collected(models(recent@), active@).0,
{
    let ghost all = models(recent@);
    let mut items: Vec<Denial> = Vec::new();
    let mut bytes: usize = 0;
    let mut i: usize = 0;
    while i < recent.len()
        invariant
            i <= recent@.len(),
            all == models(recent@),
            (models(items@), bytes as nat) == collected(all.take(i as int), active@),
            bytes <= MAX_COMMAND_BYTES,
        decreases recent@.len() - i,
    {
        let logged = &recent[i];
        assert(all.take(i + 1).drop_last() =~= all.take(i as int));
        assert(all.take(i + 1).last() == logged@);
        if belongs(logged, active) && !was_reported(recent, i, &logged.denial, active)
            && items.len() < MAX_COMMAND_ITEMS && logged.bytes <= MAX_COMMAND_BYTES - bytes {
            bytes = bytes + logged.bytes;
            let ghost before = items@;
            items.push(logged.denial.clone());
            assert(models(items@) =~= models(before).push(logged@.denial));
        }
        i = i + 1;
    }
    assert(all.take(i as int) =~= all);
    items
}

/// What came of starting the log stream.
#[derive(Debug)]
pub enum LogStream {
    /// The platform has no such log.
    Unsupported,
    SpawnFailed(String),
    StdoutMissing,
    StderrMissing,
    ReaderFailed(String),
    DiagnosticsFailed(String),
    /// The stream did not say in time that it is ready.
    NotReady,
    Ready,
}

/// What there is to say against a log stream.
pub open spec fn stream_problem(stream: LogStream) -> Option<Seq<char>> {
    match stream {
        LogStream::Unsupported => Some("Seatbelt denial collection requires macOS"@),
        LogStream::SpawnFailed(error) => Some(
            "cannot start Seatbelt denial collector: "@ + error@,
        ),
        LogStream::StdoutMissing => Some("Seatbelt denial collector stdout is unavailable"@),
        LogStream::StderrMissing => Some("Seatbelt denial collector stderr is unavailable"@),
        LogStream::ReaderFailed(error) => Some("cannot start denial collector reader: "@ + error@),
        LogStream::DiagnosticsFailed(error) => Some(
            "cannot start denial collector diagnostics: "@ + error@,
        ),
        LogStream::NotReady => Some("Seatbelt denial collector readiness timed out"@),
        LogStream::Ready => None,
    }
}

/// The denials logged of late, and the command that they are attributed to.
pub struct DenialCollector {
    next_sequence: u64,
    recent_bytes: usize,
    recent: VecDeque<LoggedDenial>,
    active: Option<ActiveCommand>,
}

/// The denials logged of late, and the command that they are attributed to.
pub struct CollectorState {
    pub next_sequence: u64,
    pub recent: Seq<LoggedModel>,
    pub active: Option<ActiveModel>,
}

/// The command of a collector.
pub open spec fn active_model(active: Option<ActiveCommand>) -> Option<ActiveModel> {
    match active {
        Some(active) => Some(active@),
        None => None,
    }
}

impl View for DenialCollector {
    type V = CollectorState;

    closed spec fn view(&self) -> CollectorState {
        CollectorState {
            next_sequence: self.next_sequence,
            recent: models(self.recent@),
            active: active_model(self.active),
        }
    }
}

impl CollectorState {
    /// The collector before anything was logged.
    pub open spec fn new() -> CollectorState {
        CollectorState { next_sequence: 0, recent: Seq::empty(), active: None }
    }

    /// Whether denials are attributed to a command with this ID.
    pub open spec fn is_active(self, id: Seq<char>) -> bool {
        match self.active {
            Some(active) => active.id == id,
            None => false,
        }
    }

    /// The collector after a command has begun.
    pub open spec fn begun(self, id: Seq<char>) -> CollectorState {
        CollectorState {
            recent: Seq::empty(),
            active: Some(
                ActiveModel { id, start_sequence: self.next_sequence, pids: Set::empty() },
            ),
            ..self
        }
    }

    /// The collector after its command has ended.
    pub open spec fn ended(self) -> CollectorState {
        CollectorState { recent: Seq::empty(), active: None, ..self }
    }

    /// The collector after a process of a command was seen.
    pub open spec fn observed(self, id: Seq<char>, pid: i32) -> CollectorState {
        match self.active {
            Some(active) if active.id == id && pid > 0 => CollectorState {
                active: Some(ActiveModel { pids: active.pids.insert(pid), ..active }),
                ..self
            },
            _ => self,
        }
    }

    /// The collector after a denial was logged.
    pub open spec fn logged(self, pid: i32, denial: DenialModel, bytes: nat) -> CollectorState {
        CollectorState {
            next_sequence: if self.next_sequence == u64::MAX {
                0
            } else {
                (self.next_sequence + 1) as u64
            },
            recent: retained(
                self.recent.push(
                    LoggedModel { sequence: self.next_sequence, pid, denial, bytes },
                ),
            ),
            ..self
        }
    }

    /// The collector after a line of the log.
    pub open spec fn line_taken(self, line: Seq<u8>) -> CollectorState {
        if is_ready_line(line) || self.active is None {
            self
        } else {
            match line_denial(line) {
                Some((pid, denial, bytes)) => self.logged(pid, denial, bytes),
                None => self,
            }
        }
    }
}

/// Whether a line says that the log stream is ready.
pub open spec fn is_ready_line(line: Seq<u8>) -> bool {
    let prefix = encode_utf8(LOG_READY_PREFIX@);
    line.len() >= prefix.len() && line.take(prefix.len() as int) == prefix
}

/// Whether a line says that the log stream is ready.
pub fn says_ready(line: &[u8]) -> (ready: bool)
    ensures
        ready == is_ready_line(line@),
{
    let prefix = LOG_READY_PREFIX.as_bytes();
    if line.len() < prefix.len() {
        return false;
    }
    let mut i: usize = 0;
    while i < prefix.len()
        invariant
            i <= prefix@.len() <= line@.len(),
            prefix@ == encode_utf8(LOG_READY_PREFIX@),
            line@.take(i as int) == prefix@.take(i as int),
        decreases prefix@.len() - i,
    {
        if line[i] != prefix[i] {
            assert(line@.take(prefix@.len() as int)[i as int] != prefix@[i as int]);
            return false;
        }
        assert(line@.take(i + 1) =~= line@.take(i as int).push(line@[i as int]));
        assert(prefix@.take(i + 1) =~= prefix@.take(i as int).push(prefix@[i as int]));
        i = i + 1;
    }
    assert(prefix@.take(i as int) =~= prefix@);
    true
}

/// Hands the processes of one command to the collector.
#[derive(Debug)]
pub struct PidObserver {
    pub command_id: String,
}

impl PidObserver {
    /// Notes a process of the command, as long as denials are attributed to it.
    pub fn observe(&self, collector: &mut DenialCollector, pid: i32)
        ensures
            final(collector)@ == old(collector)@.observed(self.command_id@, pid),
    {
        let mut taken = DenialCollector::empty();
        std::mem::swap(collector, &mut taken);
        proof {
            use_type_invariant(&taken);
        }
        let DenialCollector { next_sequence, recent_bytes, recent, active } = taken;
        let active = match active {
            Some(command) => {
                let mut command = command;
                if pid > 0 && same_text(command.id.as_str(), self.command_id.as_str()) {
                    command.pids.insert(pid);
                }
                Some(command)
            },
            None => None,
        };
        *collector = DenialCollector { next_sequence, recent_bytes, recent, active };
    }
}

impl DenialCollector {
    #[verifier::type_invariant]
    spec fn well_formed(self) -> bool {
        &&& self.recent_bytes == total_bytes(models(self.recent@))
        &&& self.recent_bytes <= MAX_RECENT_BYTES
        &&& self.recent@.len() <= MAX_RECENT_ITEMS
    }

    fn empty() -> (collector: DenialCollector)
        ensures
            collector@ == CollectorState::new(),
    {
        let collector = DenialCollector {
            next_sequence: 0,
            recent_bytes: 0,
            recent: VecDeque::new(),
            active: None,
        };
        assert(collector@.recent =~= Seq::empty());
        collector
    }

    /// A collector on a log stream that is ready.
    pub fn start(stream: LogStream) -> (started: Result<DenialCollector, String>)
        ensures
            match started {
                Ok(collector) => stream_problem(stream) is None && collector@
                    == CollectorState::new(),
                Err(message) => stream_problem(stream) == Some(message@),
            },
    {
        match stream {
            LogStream::Unsupported => Err("Seatbelt denial collection requires macOS".to_owned()),
            LogStream::SpawnFailed(error) => Err(
                joined("cannot start Seatbelt denial collector: ", error.as_str()),
            ),
            LogStream::StdoutMissing => Err(
                "Seatbelt denial collector stdout is unavailable".to_owned(),
            ),
            LogStream::StderrMissing => Err(
                "Seatbelt denial collector stderr is unavailable".to_owned(),
            ),
            LogStream::ReaderFailed(error) => Err(
                joined("cannot start denial collector reader: ", error.as_str()),
            ),
            LogStream::DiagnosticsFailed(error) => Err(
                joined("cannot start denial collector diagnostics: ", error.as_str()),
            ),
            LogStream::NotReady => Err("Seatbelt denial collector readiness timed out".to_owned()),
            LogStream::Ready => Ok(DenialCollector::empty()),
        }
    }

    /// The command that denials are attributed to.
    pub fn active(&self) -> (active: Option<&ActiveCommand>)
        ensures
            match active {
                Some(active) => self@.active == Some(active@),
                None => self@.active is None,
            },
    {
        match &self.active {
            Some(active) => Some(active),
            None => None,
        }
    }

    /// Attributes denials to a command from now on.
    pub fn begin(&mut self, id: &str) -> (begun: Result<PidObserver, String>)
        ensures
            match begun {
                Ok(observer) => old(self)@.active is None && observer.command_id@ == id@
                    && final(self)@ == old(self)@.begun(id@),
                Err(message) => old(self)@.active is Some && message@
                    == "denial collector already has an active command"@ && final(self)@
                    == old(self)@,
            },
    {
        if self.active.is_some() {
            return Err("denial collector already has an active command".to_owned());
        }
        let next_sequence = self.next_sequence;
        let active = ActiveCommand {
            id: id.to_owned(),
            start_sequence: next_sequence,
            pids: HashSet::new(),
        };
        *self = DenialCollector {
            next_sequence,
            recent_bytes: 0,
            recent: VecDeque::new(),
            active: Some(active),
        };
        assert(self@.recent =~= Seq::empty());
        Ok(PidObserver { command_id: id.to_owned() })
    }

    /// Hands out the denials of a command and ends its attribution.
    pub fn finish(&mut self, id: &str) -> (items: Vec<Denial>)
        ensures
            old(self)@.is_active(id@) ==> models(items@) == collected(
                old(self)@.recent,
                old(self)@.active->0,
            ).0 && final(self)@ == old(self)@.ended(),
            !old(self)@.is_active(id@) ==> items@.len() == 0 && final(self)@ == old(self)@,
    {
        let items = match &self.active {
            Some(active) => if same_text(active.id.as_str(), id) {
                collect_command_denials(&self.recent, active)
            } else {
                return Vec::new();
            },
            None => {
                return Vec::new();
            },
        };
        self.forget();
        items
    }

    /// Ends the attribution to a command without its denials.
    pub fn abort(&mut self, id: &str)
        ensures
            final(self)@ == (if old(self)@.is_active(id@) {
                old(self)@.ended()
            } else {
                old(self)@
            }),
    {
        let matched = match &self.active {
            Some(active) => same_text(active.id.as_str(), id),
            None => false,
        };
        if matched {
            self.forget();
        }
    }

    fn forget(&mut self)
        ensures
            final(self)@ == old(self)@.ended(),
    {
        let next_sequence = self.next_sequence;
        *self = DenialCollector {
            next_sequence,
            recent_bytes: 0,
            recent: VecDeque::new(),
            active: None,
        };
        assert(self@.recent =~= Seq::empty());
    }

    fn push_recent(&mut self, parsed: (i32, Denial, usize))
        requires
            parsed.2 <= MAX_COMMAND_BYTES,
        ensures
            final(self)@ == old(self)@.logged(parsed.0, parsed.1@, parsed.2 as nat),
    {
        let (pid, denial, bytes) = parsed;
        let ghost before = self@;
        let mut taken = DenialCollector::empty();
        std::mem::swap(self, &mut taken);
        proof {
            use_type_invariant(&taken);
        }
        let DenialCollector { next_sequence, recent_bytes, recent, active } = taken;
        let mut recent = recent;
        let mut recent_bytes = recent_bytes + bytes;
        let logged = LoggedDenial { sequence: next_sequence, pid, denial, bytes };
        let ghost item = logged@;
        proof {
            lemma_total_push(models(recent@), item);
        }
        let ghost all = models(recent@).push(item);
        recent.push_back(logged);
        assert(models(recent@) =~= all);
        while recent.len() > MAX_RECENT_ITEMS || recent_bytes > MAX_RECENT_BYTES
            invariant
                retained(models(recent@)) == retained(all),
                recent_bytes == total_bytes(models(recent@)),
            decreases recent@.len(),
        {
            let ghost held = recent@;
            assert(models(held).len() > 0);
            if let Some(removed) = recent.pop_front() {
                assert(models(held)[0] == removed@);
                assert(models(recent@) =~= models(held).drop_first());
                recent_bytes = recent_bytes - removed.bytes;
            }
        }
        let next_sequence = if next_sequence == u64::MAX {
            0
        } else {
            next_sequence + 1
        };
        *self = DenialCollector { next_sequence, recent_bytes, recent, active };
    }

    /// Takes a line of the log, and says whether it is the one that says that the
    /// stream is ready.
    pub fn take_line(&mut self, line: &[u8]) -> (ready: bool)
        ensures
            ready == is_ready_line(line@),
            final(self)@ == old(self)@.line_taken(line@),
    {
        if says_ready(line) {
            return true;
        }
        if self.active.is_some() {
            if let Some(parsed) = parse_log_line(line) {
                proof {
                    lemma_line_bytes(line@);
                }
                self.push_recent(parsed);
            }
        }
        false
    }
}

proof fn lemma_line_bytes(line: Seq<u8>)
    ensures
        match line_denial(line) {
            Some((_, _, bytes)) => bytes <= MAX_COMMAND_BYTES,
            None => true,
        },
{
    match json_string(line, "eventMessage"@) {
        Some(message) => match regex_groups(DENIAL_PATTERN@, message) {
            Some((process, pid, capability)) => lemma_parsed_bytes(process, pid, capability),
            None => {},
        },
        None => {},
    }
}

/// An observer of a command that denials are no longer attributed to changes
/// nothing.
pub proof fn a_stale_observer_changes_nothing(collector: CollectorState, id: Seq<char>, pid: i32)
    requires
        !collector.is_active(id),
    ensures
        collector.observed(id, pid) == collector,
{
}

/// A command that has just begun has no denials, whatever was logged before.
pub proof fn a_command_begins_without_denials(collector: CollectorState, id: Seq<char>)
    ensures
        collected(collector.begun(id).recent, collector.begun(id).active->0).0.len() == 0,
{
}

} // verus!
