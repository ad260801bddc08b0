//! What a scan of the filesystem is bounded by.

use vstd::prelude::*;

use crate::expansion::{control_paths, glob_matches, regex_step, root_step, scan_start, trees_walked};
use crate::facts::{each, EntryKind, EntryModel, Host, ScanKind};
use crate::guarantees::{lemma_collected_len, lemma_each_all};
use crate::order::{collected, Order};
use crate::scan::{
    file_key, visit, visit_globs, walked, walked_entries, ScanState, Search, MAX_GLOB_MATCHES,
    MAX_PROTECTED_PATHS, MAX_SCAN_DEPTH, MAX_SCAN_DIRECTORIES,
};

verus! {

/// Whether a scan keeps to its bounds: on the directories that it enters, and on
/// what it finds.
pub open spec fn in_bounds(search: Search, state: ScanState) -> bool {
    &&& state.budget.visited_directories <= state.budget.max_directories
    &&& match search {
        Search::Controls { approved } => state.found.len() >= 1 && state.found[0].len()
            <= MAX_PROTECTED_PATHS,
        Search::Globs { regexes, patterns } => {
            &&& regexes.len() <= state.found.len()
            &&& forall|i: int|
                0 <= i < state.found.len() ==> (#[trigger] state.found[i]).len() <= MAX_GLOB_MATCHES
        },
    }
}

spec fn same_size(early: ScanState, late: ScanState) -> bool {
    early.found.len() == late.found.len() && early.budget.max_directories
        == late.budget.max_directories
}

proof fn lemma_globs_in_bounds(
    host: Host,
    regexes: Seq<Seq<char>>,
    patterns: Seq<Seq<char>>,
    path: Seq<char>,
    state: ScanState,
    n: nat,
)
    requires
        n <= regexes.len(),
        in_bounds(Search::Globs { regexes, patterns }, state),
        visit_globs(host, regexes, patterns, path, state, n).failure is None,
    ensures
        in_bounds(
            Search::Globs { regexes, patterns },
            visit_globs(host, regexes, patterns, path, state, n).state,
        ),
        same_size(state, visit_globs(host, regexes, patterns, path, state, n).state),
        visit_globs(host, regexes, patterns, path, state, n).state.budget == state.budget,
    decreases n,
{
    if n > 0 {
        lemma_globs_in_bounds(host, regexes, patterns, path, state, (n - 1) as nat);
    }
}

proof fn lemma_visit_in_bounds(
    host: Host,
    search: Search,
    path: Seq<char>,
    kind: EntryKind,
    state: ScanState,
)
    requires
        in_bounds(search, state),
        visit(host, search, path, kind, state).0.failure is None,
    ensures
        in_bounds(search, visit(host, search, path, kind, state).0.state),
        same_size(state, visit(host, search, path, kind, state).0.state),
{
    if let Search::Globs { regexes, patterns } = search {
        if visit_globs(host, regexes, patterns, path, state, regexes.len()).failure is None {
            lemma_globs_in_bounds(host, regexes, patterns, path, state, regexes.len());
        }
    }
}

proof fn lemma_walk_in_bounds(
    host: Host,
    search: Search,
    now: u64,
    directory: Seq<char>,
    depth: nat,
    state: ScanState,
)
    requires
        in_bounds(search, state),
        walked(host, search, now, directory, depth, state).failure is None,
    ensures
        in_bounds(search, walked(host, search, now, directory, depth, state).state),
        same_size(state, walked(host, search, now, directory, depth, state).state),
    decreases MAX_SCAN_DEPTH + 1 - depth, 1int, 0int,
{
    if host.paths.contains_key(directory) {
        if let Ok(target) = host.paths[directory].target {
            if !state.visited.contains(file_key(target)) {
                let entered = ScanState {
                    visited: state.visited.insert(file_key(target)),
                    budget: state.budget.entered(),
                    ..state
                };
                assert(in_bounds(search, entered));
                if host.listings.contains_key(directory) {
                    if let Ok(entries) = host.listings[directory] {
                        lemma_entries_in_bounds(
                            host,
                            search,
                            now,
                            directory,
                            depth,
                            entered,
                            entries,
                        );
                    }
                }
            }
        }
    }
}

proof fn lemma_entries_in_bounds(
    host: Host,
    search: Search,
    now: u64,
    directory: Seq<char>,
    depth: nat,
    state: ScanState,
    entries: Seq<EntryModel>,
)
    requires
        in_bounds(search, state),
        depth <= MAX_SCAN_DEPTH,
        walked_entries(host, search, now, directory, depth, state, entries).failure is None,
    ensures
        in_bounds(
            search,
            walked_entries(host, search, now, directory, depth, state, entries).state,
        ),
        same_size(
            state,
            walked_entries(host, search, now, directory, depth, state, entries).state,
        ),
    decreases MAX_SCAN_DEPTH + 1 - depth, 0int, entries.len(),
{
    if entries.len() > 0 {
        let front = entries.drop_last();
        lemma_entries_in_bounds(host, search, now, directory, depth, state, front);
        let before = walked_entries(host, search, now, directory, depth, state, front);
        let counted = ScanState { budget: before.state.budget.inspected(), ..before.state };
        assert(in_bounds(search, counted));
        if let EntryModel::Entry { name, kind: Ok(kind) } = entries.last() {
            let path = crate::paths::pushed(directory, name);
            let (seen, enter) = visit(host, search, path, kind, counted);
            lemma_visit_in_bounds(host, search, path, kind, counted);
            if enter {
                lemma_walk_in_bounds(host, search, now, path, depth + 1, seen.state);
            }
        }
    }
}

proof fn lemma_trees_in_bounds(
    host: Host,
    search: Search,
    now: u64,
    roots: Seq<Seq<char>>,
    state: ScanState,
)
    requires
        in_bounds(search, state),
        trees_walked(host, search, now, roots, state).failure is None,
    ensures
        in_bounds(search, trees_walked(host, search, now, roots, state).state),
        same_size(state, trees_walked(host, search, now, roots, state).state),
    decreases roots.len(),
{
    if roots.len() > 0 {
        let front = roots.drop_last();
        lemma_trees_in_bounds(host, search, now, front, state);
        let before = trees_walked(host, search, now, front, state);
        let root = roots.last();
        if host.paths.contains_key(root) && host.paths[root].is_dir() {
            let fresh = ScanState { visited: Set::empty(), ..before.state };
            assert(in_bounds(search, fresh));
            lemma_walk_in_bounds(host, search, now, root, 0, fresh);
        }
    }
}

/// A scan for control directories that succeeds entered no more directories and
/// found no more control directories than the bounds allow.
pub proof fn control_scans_are_bounded(
    host: Host,
    now: u64,
    cwd: Seq<char>,
    approved: Seq<Seq<char>>,
)
    requires
        control_paths(host, now, cwd, approved) is Ok,
    ensures
        control_paths(host, now, cwd, approved)->Ok_0.len() <= MAX_PROTECTED_PATHS,
        ({
            let deadline = host.deadline(ScanKind::Controls)->Ok_0;
            let search = Search::Controls { approved };
            walked(
                host,
                search,
                now,
                cwd,
                0,
                scan_start(deadline, 1),
            ).state.budget.visited_directories <= MAX_SCAN_DIRECTORIES
        }),
{
    let deadline = host.deadline(ScanKind::Controls)->Ok_0;
    let search = Search::Controls { approved };
    let start = scan_start(deadline, 1);
    assert(in_bounds(search, start));
    lemma_walk_in_bounds(host, search, now, cwd, 0, start);
    lemma_collected_len(Order::Path, walked(host, search, now, cwd, 0, start).state.found[0]);
}

/// A scan for the matches of globs that succeeds has a list for each glob, and none
/// is longer than the bounds allow.
pub proof fn glob_scans_are_bounded(
    host: Host,
    now: u64,
    patterns: Seq<Seq<char>>,
    cwd: Seq<char>,
)
    requires
        glob_matches(host, now, patterns, cwd) is Ok,
    ensures
        glob_matches(host, now, patterns, cwd)->Ok_0.len() == patterns.len(),
        forall|i: int|
            0 <= i < patterns.len() ==> (#[trigger] glob_matches(
                host,
                now,
                patterns,
                cwd,
            )->Ok_0[i]).len() <= MAX_GLOB_MATCHES,
{
    lemma_each_all(patterns, regex_step());
    let regexes = each(patterns, regex_step())->Ok_0;
    let places = each(patterns, root_step(cwd))->Ok_0;
    let roots = collected(Order::Path, places);
    let deadline = host.deadline(ScanKind::Globs)->Ok_0;
    let search = Search::Globs { regexes, patterns };
    let start = scan_start(deadline, patterns.len());
    assert(in_bounds(search, start));
    lemma_trees_in_bounds(host, search, now, roots, start);
}

} // verus!
