//! Bounded scans of directory trees: for control directories in the workspace,
//! and for the matches of deny globs.

use std::collections::HashSet;

use vstd::prelude::*;
use vstd::string::*;

use crate::facts::{
    models, EntryFacts, EntryKind, EntryModel, Facts, Host, Listing, Probe, ProbeModel, Target,
};
use crate::order::{in_order, insert_item, insertion, Order};
use crate::outside::{regex_accepts, regex_error, regex_is_match};
use crate::paths::{file_name_of, lies_under, path_file_name, path_join, path_starts_with, pushed};
use crate::seatbelt::{is_under_any, under_any};
use crate::text::{decimal, decimal_text, joined, joined3, joined4, same_text, texts};

verus! {

pub const MAX_SCAN_DIRECTORIES: usize = 200_000;
pub const MAX_PROTECTED_PATHS: usize = 8_192;
pub const MAX_GLOB_MATCHES: usize = 8_192;
pub const MAX_SCAN_DEPTH: usize = 64;
pub const MAX_SCAN_MS: u64 = 30_000;
pub const SCAN_DEADLINE_CHECK_INTERVAL: usize = 1_024;

/// What bounds a scan. Ordinary files are not counted against it; directories
/// are, and time is.
#[derive(Clone, Copy, Debug, PartialEq, Eq, Structural)]
pub struct ScanBudget {
    pub deadline: u64,
    pub inspected_entries: usize,
    pub visited_directories: usize,
    pub max_directories: usize,
}

/// The refusal of a scan that takes too long.
pub open spec fn overdue() -> Seq<char> {
    "filesystem policy scan exceeds 30 seconds"@
}

/// The refusal of a scan that meets too many directories.
pub open spec fn too_many_directories(max: usize) -> Seq<char> {
    "filesystem policy scan exceeds "@ + decimal(max as nat) + " directories"@
}

impl ScanBudget {
    /// A fresh budget.
    pub fn new(deadline: u64) -> (budget: ScanBudget)
        ensures
            budget == (ScanBudget {
                deadline,
                inspected_entries: 0,
                visited_directories: 0,
                max_directories: MAX_SCAN_DIRECTORIES,
            }),
    {
        ScanBudget::with_directory_limit(deadline, MAX_SCAN_DIRECTORIES)
    }

    /// A fresh budget for a given number of directories.
    pub fn with_directory_limit(deadline: u64, max_directories: usize) -> (budget: ScanBudget)
        ensures
            budget == (ScanBudget {
                deadline,
                inspected_entries: 0,
                visited_directories: 0,
                max_directories,
            }),
    {
        ScanBudget { deadline, inspected_entries: 0, visited_directories: 0, max_directories }
    }

    /// The budget after one more directory.
    pub open spec fn entered(self) -> ScanBudget {
        ScanBudget { visited_directories: (self.visited_directories + 1) as usize, ..self }
    }

    /// The budget after one more entry.
    pub open spec fn inspected(self) -> ScanBudget {
        ScanBudget {
            inspected_entries: if self.inspected_entries < usize::MAX {
                (self.inspected_entries + 1) as usize
            } else {
                usize::MAX
            },
            ..self
        }
    }

    /// Counts a directory.
    ///
    /// # Errors
    ///
    /// Fails where there are too many of them or the deadline has passed.
    pub fn enter_directory(&mut self, now: u64) -> (result: Result<(), String>)
        requires
            old(self).visited_directories < usize::MAX,
        ensures
            *final(self) == old(self).entered(),
            match result {
                Ok(_) => old(self).visited_directories < old(self).max_directories && now <= old(
                    self,
                ).deadline,
                Err(error) => if old(self).visited_directories >= old(self).max_directories {
                    error@ == too_many_directories(old(self).max_directories)
                } else {
                    now > old(self).deadline && error@ == overdue()
                },
            },
    {
        self.visited_directories = self.visited_directories + 1;
        if self.visited_directories > self.max_directories {
            let max = decimal_text(self.max_directories as u64);
            return Err(joined3("filesystem policy scan exceeds ", max.as_str(), " directories"));
        }
        self.check_deadline(now)
    }

    /// Counts an entry, and looks at the clock now and then.
    ///
    /// # Errors
    ///
    /// Fails where it looks and the deadline has passed.
    pub fn inspect_entry(&mut self, now: u64) -> (result: Result<(), String>)
        ensures
            *final(self) == old(self).inspected(),
            match result {
                Ok(_) => now <= old(self).deadline || old(self).inspected().inspected_entries
                    % SCAN_DEADLINE_CHECK_INTERVAL != 0,
                Err(error) => now > old(self).deadline && old(self).inspected().inspected_entries
                    % SCAN_DEADLINE_CHECK_INTERVAL == 0 && error@ == overdue(),
            },
    {
        self.inspected_entries = self.inspected_entries.saturating_add(1);
        if self.inspected_entries % SCAN_DEADLINE_CHECK_INTERVAL == 0 {
            return self.check_deadline(now);
        }
        Ok(())
    }

    /// Looks at the clock.
    ///
    /// # Errors
    ///
    /// Fails where the deadline has passed.
    pub fn check_deadline(&self, now: u64) -> (result: Result<(), String>)
        ensures
            match result {
                Ok(_) => now <= self.deadline,
                Err(error) => now > self.deadline && error@ == overdue(),
            },
    {
        if now > self.deadline {
            Err("filesystem policy scan exceeds 30 seconds".to_owned())
        } else {
            Ok(())
        }
    }
}

/// What a scan looks for.
pub enum Visitor {
    /// Control directories, but for a `.git` at or below an `approved` path;
    /// symbolic links are not followed.
    Controls { approved: Vec<String> },
    /// Paths that regular expressions match, each with the glob that it stands
    /// for; symbolic links to directories are followed.
    Globs { regexes: Vec<String>, patterns: Vec<String> },
}

/// What a scan looks for.
pub enum Search {
    Controls { approved: Seq<Seq<char>> },
    Globs { regexes: Seq<Seq<char>>, patterns: Seq<Seq<char>> },
}

impl View for Visitor {
    type V = Search;

    open spec fn view(&self) -> Search {
        match *self {
            Visitor::Controls { approved } => Search::Controls { approved: texts(approved@) },
            Visitor::Globs { regexes, patterns } => Search::Globs {
                regexes: texts(regexes@),
                patterns: texts(patterns@),
            },
        }
    }
}

/// One number for a device and an inode.
pub open spec fn file_key(target: Target) -> u128 {
    (target.device * 0x1_0000_0000_0000_0000 + target.inode) as u128
}

/// Files of different devices or inodes have different numbers.
pub proof fn file_keys_are_distinct(a: Target, b: Target)
    requires
        file_key(a) == file_key(b),
    ensures
        a.device == b.device,
        a.inode == b.inode,
{
    let base: int = 0x1_0000_0000_0000_0000;
    assert(a.device * base + a.inode <= u128::MAX);
    assert(b.device * base + b.inode <= u128::MAX);
    assert(a.device == b.device && a.inode == b.inode) by (nonlinear_arith)
        requires
            a.device * base + a.inode == b.device * base + b.inode,
            0 <= a.inode < base,
            0 <= b.inode < base,
            base == 0x1_0000_0000_0000_0000,
    ;
}

fn key_of(target: &Target) -> (key: u128)
    ensures
        key == file_key(*target),
{
    let device = target.device as u128;
    let inode = target.inode as u128;
    assert(device * 0x1_0000_0000_0000_0000 + inode <= u128::MAX) by (nonlinear_arith)
        requires
            0 <= device <= 0xffff_ffff_ffff_ffff,
            0 <= inode <= 0xffff_ffff_ffff_ffff,
    ;
    device * 0x1_0000_0000_0000_0000 + inode
}

/// The state of a scan.
pub struct Scan {
    pub budget: ScanBudget,
    /// The directories that were entered.
    pub visited: HashSet<u128>,
    /// What was found: control directories in one list, or the matches of each
    /// glob in a list of their own, in order.
    pub found: Vec<Vec<String>>,
    /// The last control directory that is a symbolic link.
    pub link: Option<String>,
    /// The facts that are missing.
    pub wanted: Vec<Probe>,
}

/// The state of a scan.
pub struct ScanState {
    pub budget: ScanBudget,
    pub visited: Set<u128>,
    pub found: Seq<Seq<Seq<char>>>,
    pub link: Option<Seq<char>>,
    pub wanted: Seq<ProbeModel>,
}

/// The views of lists of strings.
pub open spec fn lists(items: Seq<Vec<String>>) -> Seq<Seq<Seq<char>>> {
    Seq::new(items.len(), |i: int| texts(items[i]@))
}

impl View for Scan {
    type V = ScanState;

    open spec fn view(&self) -> ScanState {
        ScanState {
            budget: self.budget,
            visited: self.visited@,
            found: lists(self.found@),
            link: crate::protocol::text_option(self.link),
            wanted: models(self.wanted@),
        }
    }
}

/// Where a scan stands, and why it stopped, if it did.
pub struct Step {
    pub state: ScanState,
    pub failure: Option<Seq<char>>,
}

impl ScanState {
    /// The state with one more fact to ask for.
    pub open spec fn want(self, probe: ProbeModel) -> ScanState {
        ScanState { wanted: self.wanted.push(probe), ..self }
    }

    /// The scan goes on.
    pub open spec fn go(self) -> Step {
        Step { state: self, failure: None }
    }

    /// The scan stops.
    pub open spec fn stop(self, reason: Seq<char>) -> Step {
        Step { state: self, failure: Some(reason) }
    }
}

/// Whether a name is that of a control directory.
pub open spec fn is_control_name(name: Option<Seq<char>>) -> bool {
    name == Some(".git"@) || name == Some(".pi"@)
}

/// Whether a path is called like a control directory.
pub fn has_control_name(path: &str) -> (control: bool)
    ensures
        control == is_control_name(file_name_of(path@)),
{
    match path_file_name(path) {
        Some(name) => same_text(name.as_str(), ".git") || same_text(name.as_str(), ".pi"),
        None => false,
    }
}

/// Whether a control directory is open: a `.git` that is, or lies below, an approved
/// path. A `.pi` is never open.
pub open spec fn is_opened(path: Seq<char>, approved: Seq<Seq<char>>) -> bool {
    file_name_of(path) == Some(".git"@) && under_any(path, approved)
}

/// What a search for control directories makes of an entry.
pub open spec fn visit_control(
    approved: Seq<Seq<char>>,
    path: Seq<char>,
    kind: EntryKind,
    state: ScanState,
) -> Step {
    if !is_control_name(file_name_of(path)) {
        state.go()
    } else if kind == EntryKind::Symlink {
        (ScanState { link: Some(path), ..state }).go()
    } else if is_opened(path, approved) {
        state.go()
    } else {
        let paths = state.found[0].push(path);
        let next = ScanState { found: state.found.update(0, paths), ..state };
        if paths.len() > MAX_PROTECTED_PATHS {
            next.stop("filesystem policy scan found more than 8192 protected control paths"@)
        } else {
            next.go()
        }
    }
}

/// The matches of one glob with a path that it matches, and with that path's
/// resolved form where it is known and has one.
pub open spec fn with_match(host: Host, list: Seq<Seq<char>>, path: Seq<char>) -> Seq<Seq<char>> {
    let direct = insertion(Order::Path, list, path);
    if host.paths.contains_key(path) && host.paths[path].canonical is Ok {
        insertion(Order::Path, direct, host.paths[path].canonical->Ok_0)
    } else {
        direct
    }
}

/// Whether a regular expression compiles and accepts a path.
pub open spec fn regex_hits(regex: Seq<char>, path: Seq<char>) -> bool {
    regex_error(regex) is None && regex_accepts(regex, path)
}

/// What the first `n` globs make of a path.
pub open spec fn visit_globs(
    host: Host,
    regexes: Seq<Seq<char>>,
    patterns: Seq<Seq<char>>,
    path: Seq<char>,
    state: ScanState,
    n: nat,
) -> Step
    decreases n,
{
    if n == 0 {
        state.go()
    } else {
        let before = visit_globs(host, regexes, patterns, path, state, (n - 1) as nat);
        if before.failure is Some || !regex_hits(regexes[n - 1], path) {
            before
        } else {
            let list = with_match(host, before.state.found[n - 1], path);
            let marked = ScanState {
                found: before.state.found.update(n - 1, list),
                ..before.state
            };
            let next = if host.paths.contains_key(path) {
                marked
            } else {
                marked.want(ProbeModel::Path(path))
            };
            if list.len() > MAX_GLOB_MATCHES {
                next.stop("deny glob matched more than 8192 paths: "@ + patterns[n - 1])
            } else {
                next.go()
            }
        }
    }
}

/// Whether a symbolic link leads to a directory of the immutable Nix store.
pub open spec fn leads_to_store(host: Host, path: Seq<char>, kind: EntryKind) -> bool {
    kind == EntryKind::Symlink && host.paths.contains_key(path) && host.paths[path].canonical is Ok
        && host.paths[path].is_dir() && lies_under(
        host.paths[path].canonical->Ok_0,
        "/nix/store"@,
    )
}

/// What a search makes of an entry, and whether a directory there is entered.
pub open spec fn visit(
    host: Host,
    search: Search,
    path: Seq<char>,
    kind: EntryKind,
    state: ScanState,
) -> (Step, bool) {
    match search {
        Search::Controls { approved } => (
            visit_control(approved, path, kind, state),
            !is_control_name(file_name_of(path)) && kind == EntryKind::Directory,
        ),
        Search::Globs { regexes, patterns } => if kind == EntryKind::Symlink
            && !host.paths.contains_key(path) {
            (state.want(ProbeModel::Path(path)).go(), false)
        } else if leads_to_store(host, path, kind) {
            (state.go(), false)
        } else {
            (
                visit_globs(host, regexes, patterns, path, state, regexes.len()),
                kind == EntryKind::Directory || (kind == EntryKind::Symlink
                    && host.paths[path].is_dir()),
            )
        },
    }
}

/// A scan of the directory at `directory`, `depth` levels below where it began.
pub open spec fn walked(
    host: Host,
    search: Search,
    now: u64,
    directory: Seq<char>,
    depth: nat,
    state: ScanState,
) -> Step
    decreases MAX_SCAN_DEPTH + 1 - depth, 1int, 0int,
{
    if depth > MAX_SCAN_DEPTH {
        state.stop("filesystem policy scan exceeds depth 64"@)
    } else if now > state.budget.deadline {
        state.stop(overdue())
    } else if !host.paths.contains_key(directory) {
        state.want(ProbeModel::Path(directory)).want(ProbeModel::Listing(directory)).go()
    } else {
        match host.paths[directory].target {
            Err(error) => state.stop("cannot inspect policy root "@ + directory + ": "@ + error),
            Ok(target) => if state.visited.contains(file_key(target)) {
                state.go()
            } else {
                let entered = ScanState {
                    visited: state.visited.insert(file_key(target)),
                    budget: state.budget.entered(),
                    ..state
                };
                if state.budget.visited_directories >= state.budget.max_directories {
                    entered.stop(too_many_directories(state.budget.max_directories))
                } else if !host.listings.contains_key(directory) {
                    entered.want(ProbeModel::Listing(directory)).go()
                } else {
                    match host.listings[directory] {
                        Err(error) => entered.stop(
                            "cannot scan policy root "@ + directory + ": "@ + error,
                        ),
                        Ok(entries) => walked_entries(
                            host,
                            search,
                            now,
                            directory,
                            depth,
                            entered,
                            entries,
                        ),
                    }
                }
            },
        }
    }
}

/// A scan of entries of the directory at `directory`, up to the first that
/// stops it.
pub open spec fn walked_entries(
    host: Host,
    search: Search,
    now: u64,
    directory: Seq<char>,
    depth: nat,
    state: ScanState,
    entries: Seq<EntryModel>,
) -> Step
    decreases MAX_SCAN_DEPTH + 1 - depth, 0int, entries.len(),
{
    if entries.len() == 0 || depth > MAX_SCAN_DEPTH {
        state.go()
    } else {
        let before = walked_entries(
            host,
            search,
            now,
            directory,
            depth,
            state,
            entries.drop_last(),
        );
        if before.failure is Some {
            before
        } else {
            let counted = ScanState {
                budget: before.state.budget.inspected(),
                ..before.state
            };
            match entries.last() {
                EntryModel::Unreadable(error) => counted.stop("policy scan failed: "@ + error),
                EntryModel::Entry { name, kind } => {
                    let path = pushed(directory, name);
                    match kind {
                        Err(error) => counted.stop("cannot inspect "@ + path + ": "@ + error),
                        Ok(kind) => {
                            let (seen, enter) = visit(host, search, path, kind, counted);
                            if seen.failure is None && enter {
                                walked(host, search, now, path, depth + 1, seen.state)
                            } else {
                                seen
                            }
                        },
                    }
                },
            }
        }
    }
}

/// Whether a scan can go on: the directory count is in range, and there is a
/// list, in order where it has to be, for all that is looked for.
pub open spec fn scan_ready(state: ScanState, search: Search) -> bool {
    &&& state.budget.visited_directories <= state.budget.max_directories
    &&& state.budget.max_directories < usize::MAX
    &&& match search {
        Search::Controls { approved } => state.found.len() >= 1,
        Search::Globs { regexes, patterns } => {
            &&& regexes.len() <= patterns.len()
            &&& regexes.len() <= state.found.len()
            &&& forall|i: int|
                0 <= i < regexes.len() ==> in_order(Order::Path, #[trigger] state.found[i])
        },
    }
}

fn want_path(scan: &mut Scan, path: &str)
    ensures
        final(scan)@ == old(scan)@.want(ProbeModel::Path(path@)),
        final(scan).found@ == old(scan).found@,
{
    scan.wanted.push(Probe::Path(path.to_owned()));
    assert(models(scan.wanted@) =~= models(old(scan).wanted@).push(ProbeModel::Path(path@)));
}

fn want_listing(scan: &mut Scan, path: &str)
    ensures
        final(scan)@ == old(scan)@.want(ProbeModel::Listing(path@)),
        final(scan).found@ == old(scan).found@,
{
    scan.wanted.push(Probe::Listing(path.to_owned()));
    assert(models(scan.wanted@) =~= models(old(scan).wanted@).push(ProbeModel::Listing(path@)));
}

/// What an exec step reports, as a model.
spec fn reported(result: Result<(), String>) -> Option<Seq<char>> {
    match result {
        Ok(_) => None,
        Err(reason) => Some(reason@),
    }
}

fn is_open_control(path: &str, approved: &Vec<String>) -> (open: bool)
    ensures
        open == is_opened(path@, texts(approved@)),
{
    match path_file_name(path) {
        Some(name) => same_text(name.as_str(), ".git") && is_under_any(path, approved),
        None => false,
    }
}

fn visit_control_entry(
    approved: &Vec<String>,
    path: &str,
    kind: EntryKind,
    scan: &mut Scan,
) -> (result: Result<(), String>)
    requires
        old(scan).found@.len() >= 1,
    ensures
        visit_control(texts(approved@), path@, kind, old(scan)@) == (Step {
            state: final(scan)@,
            failure: reported(result),
        }),
        final(scan).found@.len() == old(scan).found@.len(),
        final(scan).budget == old(scan).budget,
{
    if !has_control_name(path) {
        return Ok(());
    }
    if kind == EntryKind::Symlink {
        scan.link = Some(path.to_owned());
        return Ok(());
    }
    if is_open_control(path, approved) {
        return Ok(());
    }
    let ghost before = scan@;
    scan.found[0].push(path.to_owned());
    assert(texts(scan.found@[0]@) =~= before.found[0].push(path@));
    assert(lists(scan.found@) =~= before.found.update(0, before.found[0].push(path@)));
    let n = scan.found[0].len();
    assert(texts(scan.found@[0]@).len() == n);
    if n > MAX_PROTECTED_PATHS {
        return Err(
            "filesystem policy scan found more than 8192 protected control paths".to_owned(),
        );
    }
    Ok(())
}

fn visit_glob_entry(
    regexes: &Vec<String>,
    patterns: &Vec<String>,
    path: &str,
    facts: &Facts,
    scan: &mut Scan,
) -> (result: Result<(), String>)
    requires
        scan_ready(
            old(scan)@,
            Search::Globs { regexes: texts(regexes@), patterns: texts(patterns@) },
        ),
    ensures
        visit_globs(
            facts@,
            texts(regexes@),
            texts(patterns@),
            path@,
            old(scan)@,
            regexes@.len(),
        ) == (Step { state: final(scan)@, failure: reported(result) }),
        scan_ready(
            final(scan)@,
            Search::Globs { regexes: texts(regexes@), patterns: texts(patterns@) },
        ),
        final(scan).budget == old(scan).budget,
{
    let ghost start = scan@;
    let ghost search = Search::Globs { regexes: texts(regexes@), patterns: texts(patterns@) };
    let ghost expressions = texts(regexes@);
    let ghost globs = texts(patterns@);
    let known = facts.path(path);
    let mut i: usize = 0;
    while i < regexes.len()
        invariant
            i <= regexes@.len(),
            start == old(scan)@,
            expressions == texts(regexes@),
            globs == texts(patterns@),
            search == (Search::Globs { regexes: expressions, patterns: globs }),
            match known {
                Ok(known) => facts@.paths.contains_key(path@) && facts@.paths[path@] == known@,
                Err(_) => !facts@.paths.contains_key(path@),
            },
            scan_ready(scan@, search),
            scan.budget == old(scan).budget,
            visit_globs(facts@, expressions, globs, path@, start, i as nat) == scan@.go(),
        decreases regexes@.len() - i,
    {
        let ghost before = scan@;
        assert(expressions[i as int] == regexes@[i as int]@);
        assert(globs[i as int] == patterns@[i as int]@);
        let accepted = match regex_is_match(regexes[i].as_str(), path) {
            Some(accepted) => accepted,
            None => false,
        };
        if accepted {
            assert(before.found[i as int] == texts(scan.found@[i as int]@));
            insert_item(Order::Path, &mut scan.found[i], path.to_owned());
            let ghost direct = insertion(Order::Path, before.found[i as int], path@);
            match &known {
                Ok(known) => {
                    if let Ok(canonical) = &known.canonical {
                        insert_item(Order::Path, &mut scan.found[i], canonical.clone());
                    }
                },
                Err(_) => {
                    want_path(scan, path);
                },
            }
            let ghost list = with_match(facts@, before.found[i as int], path@);
            assert(texts(scan.found@[i as int]@) == list);
            assert(lists(scan.found@) =~= before.found.update(i as int, list));
            let n = scan.found[i].len();
            assert(list.len() == n);
            if n > MAX_GLOB_MATCHES {
                proof {
                    lemma_globs_stay(
                        facts@,
                        expressions,
                        globs,
                        path@,
                        start,
                        (i + 1) as nat,
                        regexes@.len(),
                    );
                }
                return Err(
                    joined("deny glob matched more than 8192 paths: ", patterns[i].as_str()),
                );
            }
        }
        i = i + 1;
    }
    Ok(())
}

proof fn lemma_globs_stay(
    host: Host,
    regexes: Seq<Seq<char>>,
    patterns: Seq<Seq<char>>,
    path: Seq<char>,
    state: ScanState,
    from: nat,
    to: nat,
)
    requires
        from <= to,
        visit_globs(host, regexes, patterns, path, state, from).failure is Some,
    ensures
        visit_globs(host, regexes, patterns, path, state, to) == visit_globs(
            host,
            regexes,
            patterns,
            path,
            state,
            from,
        ),
    decreases to - from,
{
    if from < to {
        lemma_globs_stay(host, regexes, patterns, path, state, from, (to - 1) as nat);
    }
}

/// Whether a symbolic link leads to a directory of the immutable Nix store.
pub fn immutable_store_directory_symlink(path: &str, kind: EntryKind, facts: &Facts) -> (store:
    bool)
    ensures
        store == leads_to_store(facts@, path@, kind),
{
    if kind != EntryKind::Symlink {
        return false;
    }
    match facts.path(path) {
        Ok(known) => match &known.canonical {
            Ok(target) => known.is_dir() && path_starts_with(target.as_str(), "/nix/store"),
            Err(_) => false,
        },
        Err(_) => false,
    }
}

fn visit_entry(visitor: &Visitor, path: &str, kind: EntryKind, facts: &Facts, scan: &mut Scan) -> (
result: (Result<(), String>, bool))
    requires
        scan_ready(old(scan)@, visitor@),
    ensures
        visit(facts@, visitor@, path@, kind, old(scan)@) == (
            Step { state: final(scan)@, failure: reported(result.0) },
            result.1,
        ),
        scan_ready(final(scan)@, visitor@),
        final(scan).budget == old(scan).budget,
{
    match visitor {
        Visitor::Controls { approved } => {
            let enter = kind == EntryKind::Directory && !has_control_name(path);
            (visit_control_entry(approved, path, kind, scan), enter)
        },
        Visitor::Globs { regexes, patterns } => {
            let enter = match facts.path(path) {
                Ok(known) => kind == EntryKind::Directory || (kind == EntryKind::Symlink
                    && known.is_dir()),
                Err(_) => {
                    if kind == EntryKind::Symlink {
                        want_path(scan, path);
                        return (Ok(()), false);
                    }
                    kind == EntryKind::Directory
                },
            };
            if immutable_store_directory_symlink(path, kind, facts) {
                return (Ok(()), false);
            }
            (visit_glob_entry(regexes, patterns, path, facts, scan), enter)
        },
    }
}

proof fn lemma_entries_stay(
    host: Host,
    search: Search,
    now: u64,
    directory: Seq<char>,
    depth: nat,
    state: ScanState,
    entries: Seq<EntryModel>,
    from: int,
)
    requires
        0 <= from <= entries.len(),
        walked_entries(host, search, now, directory, depth, state, entries.take(from)).failure
            is Some,
    ensures
        walked_entries(host, search, now, directory, depth, state, entries) == walked_entries(
            host,
            search,
            now,
            directory,
            depth,
            state,
            entries.take(from),
        ),
    decreases entries.len() - from,
{
    if from == entries.len() {
        assert(entries.take(from) =~= entries);
    } else {
        assert(entries.take(from + 1).drop_last() =~= entries.take(from));
        lemma_entries_stay(host, search, now, directory, depth, state, entries, from + 1);
    }
}

/// Scans the directory at `directory`, `depth` levels below where the scan
/// began. Facts that are missing are noted in the scan, which goes on without
/// them.
///
/// # Errors
///
/// Fails where the tree is too deep or too large, where time is up, where
/// something cannot be inspected, and where too much is found.
pub fn walk(
    directory: &str,
    depth: usize,
    now: u64,
    visitor: &Visitor,
    facts: &Facts,
    scan: &mut Scan,
) -> (result: Result<(), String>)
    requires
        depth <= MAX_SCAN_DEPTH + 1,
        scan_ready(old(scan)@, visitor@),
    ensures
        walked(facts@, visitor@, now, directory@, depth as nat, old(scan)@) == (Step {
            state: final(scan)@,
            failure: match result {
                Ok(_) => None,
                Err(reason) => Some(reason@),
            },
        }),
        result is Ok ==> scan_ready(final(scan)@, visitor@),
        final(scan)@.budget.deadline == old(scan)@.budget.deadline,
    decreases MAX_SCAN_DEPTH + 1 - depth,
{
    broadcast use vstd::std_specs::hash::group_hash_axioms;

    if depth > MAX_SCAN_DEPTH {
        return Err("filesystem policy scan exceeds depth 64".to_owned());
    }
    match scan.budget.check_deadline(now) {
        Ok(_) => {},
        Err(reason) => {
            return Err(reason);
        },
    }
    let known = match facts.path(directory) {
        Ok(known) => known,
        Err(_) => {
            want_path(scan, directory);
            want_listing(scan, directory);
            return Ok(());
        },
    };
    let target = match &known.target {
        Ok(target) => target,
        Err(error) => {
            return Err(joined4("cannot inspect policy root ", directory, ": ", error.as_str()));
        },
    };
    let ghost start = scan@;
    if !scan.visited.insert(key_of(target)) {
        assert(scan@.visited =~= start.visited);
        return Ok(());
    }
    match scan.budget.enter_directory(now) {
        Ok(_) => {},
        Err(reason) => {
            return Err(reason);
        },
    }
    let ghost entered = ScanState {
        visited: start.visited.insert(file_key(*target)),
        budget: start.budget.entered(),
        ..start
    };
    assert(scan@ == entered);
    let listing = match facts.listing(directory) {
        Some(listing) => listing,
        None => {
            want_listing(scan, directory);
            return Ok(());
        },
    };
    let entries = match listing {
        Ok(entries) => entries,
        Err(error) => {
            return Err(joined4("cannot scan policy root ", directory, ": ", error.as_str()));
        },
    };
    let ghost all = models(entries@);
    let mut i: usize = 0;
    assert(all.take(0) =~= Seq::empty());
    while i < entries.len()
        invariant
            i <= entries@.len(),
            depth <= MAX_SCAN_DEPTH,
            now <= scan@.budget.deadline == old(scan)@.budget.deadline,
            all == models(entries@),
            scan_ready(scan@, visitor@),
            walked_entries(
                facts@,
                visitor@,
                now,
                directory@,
                depth as nat,
                entered,
                all.take(i as int),
            ) == scan@.go(),
            walked(facts@, visitor@, now, directory@, depth as nat, old(scan)@) == walked_entries(
                facts@,
                visitor@,
                now,
                directory@,
                depth as nat,
                entered,
                all,
            ),
        decreases entries@.len() - i,
    {
        assert(all.take(i + 1).drop_last() =~= all.take(i as int));
        assert(all.take(i + 1).last() == entries@[i as int]@);
        let ghost before = scan@;
        match scan.budget.inspect_entry(now) {
            Ok(_) => {},
            Err(reason) => {
                return Err(reason);
            },
        }
        i = i + 1;
        match &entries[i - 1] {
            EntryFacts::Unreadable(error) => {
                proof {
                    lemma_entries_stay(
                        facts@,
                        visitor@,
                        now,
                        directory@,
                        depth as nat,
                        entered,
                        all,
                        i as int,
                    );
                }
                return Err(joined("policy scan failed: ", error.as_str()));
            },
            EntryFacts::Entry { name, kind } => {
                let path = path_join(directory, name.as_str());
                let kind = match kind {
                    Ok(kind) => *kind,
                    Err(error) => {
                        proof {
                            lemma_entries_stay(
                                facts@,
                                visitor@,
                                now,
                                directory@,
                                depth as nat,
                                entered,
                                all,
                                i as int,
                            );
                        }
                        return Err(
                            joined4("cannot inspect ", path.as_str(), ": ", error.as_str()),
                        );
                    },
                };
                let (seen, enter) = visit_entry(visitor, path.as_str(), kind, facts, scan);
                match seen {
                    Ok(_) => {},
                    Err(reason) => {
                        proof {
                            lemma_entries_stay(
                                facts@,
                                visitor@,
                                now,
                                directory@,
                                depth as nat,
                                entered,
                                all,
                                i as int,
                            );
                        }
                        return Err(reason);
                    },
                }
                if enter {
                    match walk(path.as_str(), depth + 1, now, visitor, facts, scan) {
                        Ok(_) => {},
                        Err(reason) => {
                            proof {
                                lemma_entries_stay(
                                    facts@,
                                    visitor@,
                                    now,
                                    directory@,
                                    depth as nat,
                                    entered,
                                    all,
                                    i as int,
                                );
                            }
                            return Err(reason);
                        },
                    }
                }
            },
        }
    }
    assert(all.take(i as int) =~= all);
    scan.budget.check_deadline(now)
}

} // verus!
