//! What holds of scans: one that comes to its end has looked at everything, and what
//! it found stands.

use vstd::prelude::*;

use crate::expansion::{
    control_paths, glob_matches, regex_step, root_step, scan_start, trees_walked,
};
use crate::facts::{each, EntryKind, EntryModel, Host, ScanKind};
use crate::guarantees::{is_reached, lemma_each_all};
use crate::order::{collected, collected_is_a_set, holds, insertion, item_same, Order};
use crate::paths::{file_name_of, pushed};
use crate::scan::{
    file_key, is_control_name, is_opened, leads_to_store, regex_hits, visit, visit_control,
    visit_globs, walked, walked_entries, with_match, ScanState, Search, Step, MAX_SCAN_DEPTH,
};

verus! {

/// Whether a path is known to lead to a file with the given identity.
pub open spec fn has_key(host: Host, path: Seq<char>, key: u128) -> bool {
    host.paths.contains_key(path) && host.paths[path].target is Ok && file_key(
        host.paths[path].target->Ok_0,
    ) == key
}

/// Whether a search goes on into an entry.
pub open spec fn enters(host: Host, search: Search, path: Seq<char>, kind: EntryKind) -> bool {
    match search {
        Search::Controls { .. } => !is_control_name(file_name_of(path)) && kind
            == EntryKind::Directory,
        Search::Globs { .. } => {
            &&& !(kind == EntryKind::Symlink && !host.paths.contains_key(path))
            &&& !leads_to_store(host, path, kind)
            &&& kind == EntryKind::Directory || (kind == EntryKind::Symlink
                && host.paths[path].is_dir())
        },
    }
}

/// Whether a list holds a path that matched, and what the path leads to.
pub open spec fn match_listed(host: Host, list: Seq<Seq<char>>, path: Seq<char>) -> bool {
    &&& host.paths.contains_key(path)
    &&& holds(Order::Path, list, path)
    &&& host.paths[path].canonical matches Ok(canonical) ==> holds(Order::Path, list, canonical)
}

/// Whether an entry was judged: a control directory was found, unless it is open or a
/// link, which is noted; a path that a glob matches was found, with what it
/// leads to, unless it leads into the immutable store.
pub open spec fn is_judged(
    host: Host,
    search: Search,
    path: Seq<char>,
    kind: EntryKind,
    found: Seq<Seq<Seq<char>>>,
    link: Option<Seq<char>>,
) -> bool {
    match search {
        Search::Controls { approved } => is_control_name(file_name_of(path)) ==> {
            if kind == EntryKind::Symlink {
                link is Some
            } else {
                is_opened(path, approved) || holds(Order::Path, found[0], path)
            }
        },
        Search::Globs { regexes, .. } => leads_to_store(host, path, kind) || forall|k: int|
            0 <= k < regexes.len() && regex_hits(#[trigger] regexes[k], path) ==> match_listed(
                host,
                found[k],
                path,
            ),
    }
}

/// Whether a directory was looked at: it was listed, each of its entries was judged,
/// and of each entry that the search goes on into, that directory or one with the
/// same identity is among the directories that were looked at.
pub open spec fn is_covered(
    host: Host,
    search: Search,
    directory: Seq<char>,
    tree: Set<Seq<char>>,
    found: Seq<Seq<Seq<char>>>,
    link: Option<Seq<char>>,
) -> bool {
    &&& host.listings.contains_key(directory)
    &&& host.listings[directory] is Ok
    &&& forall|i: int|
        0 <= i < host.listings[directory]->Ok_0.len() ==> {
            &&& #[trigger] host.listings[directory]->Ok_0[i] matches EntryModel::Entry {
                name,
                kind,
            }
            &&& kind is Ok
            &&& is_judged(host, search, pushed(directory, name), kind->Ok_0, found, link)
            &&& enters(host, search, pushed(directory, name), kind->Ok_0) ==> exists|other: Seq<
                char,
            >|
                tree.contains(other) && #[trigger] host.paths.contains_key(other)
                    && host.paths.contains_key(pushed(directory, name))
                    && host.paths[other].target is Ok && has_key(
                    host,
                    pushed(directory, name),
                    file_key(host.paths[other].target->Ok_0),
                )
        }
}

/// Whether a tree was looked at as a whole: its root, and every directory below it
/// that the search goes on into.
pub open spec fn tree_covered(
    host: Host,
    search: Search,
    root: Seq<char>,
    tree: Set<Seq<char>>,
    found: Seq<Seq<Seq<char>>>,
    link: Option<Seq<char>>,
) -> bool {
    &&& tree.contains(root)
    &&& forall|directory: Seq<char>| #[trigger]
        tree.contains(directory) ==> is_covered(host, search, directory, tree, found, link)
}

/// The directories that a scan lists.
pub open spec fn scanned(
    host: Host,
    search: Search,
    now: u64,
    directory: Seq<char>,
    depth: nat,
    state: ScanState,
) -> Set<Seq<char>>
    decreases MAX_SCAN_DEPTH + 1 - depth, 1int, 0int,
{
    if depth > MAX_SCAN_DEPTH || now > state.budget.deadline || !host.paths.contains_key(directory) {
        Set::empty()
    } else {
        match host.paths[directory].target {
            Err(_) => Set::empty(),
            Ok(target) => if state.visited.contains(file_key(target))
                || state.budget.visited_directories >= state.budget.max_directories
                || !host.listings.contains_key(directory) || host.listings[directory] is Err {
                Set::empty()
            } else {
                let entered = ScanState {
                    visited: state.visited.insert(file_key(target)),
                    budget: state.budget.entered(),
                    ..state
                };
                scanned_entries(
                    host,
                    search,
                    now,
                    directory,
                    depth,
                    entered,
                    host.listings[directory]->Ok_0,
                ).insert(directory)
            },
        }
    }
}

/// The directories that a scan lists below some entries of a directory.
pub open spec fn scanned_entries(
    host: Host,
    search: Search,
    now: u64,
    directory: Seq<char>,
    depth: nat,
    state: ScanState,
    entries: Seq<EntryModel>,
) -> Set<Seq<char>>
    decreases MAX_SCAN_DEPTH + 1 - depth, 0int, entries.len(),
{
    if entries.len() == 0 || depth > MAX_SCAN_DEPTH {
        Set::empty()
    } else {
        let front = entries.drop_last();
        let earlier = scanned_entries(host, search, now, directory, depth, state, front);
        let before = walked_entries(host, search, now, directory, depth, state, front);
        match entries.last() {
            EntryModel::Entry { name, kind: Ok(kind) } if before.failure is None => {
                let path = pushed(directory, name);
                let counted = ScanState {
                    budget: before.state.budget.inspected(),
                    ..before.state
                };
                let (seen, enter) = visit(host, search, path, kind, counted);
                if seen.failure is None && enter {
                    earlier.union(scanned(host, search, now, path, depth + 1, seen.state))
                } else {
                    earlier
                }
            },
            _ => earlier,
        }
    }
}

spec fn has_lists(search: Search, state: ScanState) -> bool {
    match search {
        Search::Controls { .. } => state.found.len() >= 1,
        Search::Globs { regexes, .. } => state.found.len() >= regexes.len(),
    }
}

spec fn grew(early: ScanState, late: ScanState) -> bool {
    &&& late.found.len() == early.found.len()
    &&& forall|k: int, item: Seq<char>|
        0 <= k < early.found.len() && #[trigger] holds(Order::Path, early.found[k], item) ==> holds(
            Order::Path,
            late.found[k],
            item,
        )
    &&& early.visited.subset_of(late.visited)
    &&& early.link is Some ==> late.link is Some
    &&& early.wanted.len() <= late.wanted.len()
}

spec fn is_clean(early: ScanState, step: Step) -> bool {
    step.failure is None && step.state.wanted.len() == early.wanted.len()
}

spec fn is_visited(host: Host, path: Seq<char>, state: ScanState) -> bool {
    host.paths.contains_key(path) && host.paths[path].target is Ok && state.visited.contains(
        file_key(host.paths[path].target->Ok_0),
    )
}

spec fn entry_done(
    host: Host,
    search: Search,
    directory: Seq<char>,
    entry: EntryModel,
    state: ScanState,
) -> bool {
    &&& entry matches EntryModel::Entry { name, kind }
    &&& kind is Ok
    &&& is_judged(host, search, pushed(directory, name), kind->Ok_0, state.found, state.link)
    &&& enters(host, search, pushed(directory, name), kind->Ok_0) ==> is_visited(
        host,
        pushed(directory, name),
        state,
    )
}

spec fn directory_done(host: Host, search: Search, directory: Seq<char>, state: ScanState) -> bool {
    &&& host.paths.contains_key(directory)
    &&& host.paths[directory].target is Ok
    &&& host.listings.contains_key(directory)
    &&& host.listings[directory] is Ok
    &&& forall|i: int|
        0 <= i < host.listings[directory]->Ok_0.len() ==> entry_done(
            host,
            search,
            directory,
            #[trigger] host.listings[directory]->Ok_0[i],
            state,
        )
}

spec fn keys_from(host: Host, early: ScanState, late: ScanState, tree: Set<Seq<char>>) -> bool {
    forall|key: u128| #[trigger]
        late.visited.contains(key) ==> early.visited.contains(key) || exists|directory: Seq<char>| #[
        trigger]
            tree.contains(directory) && has_key(host, directory, key)
}

proof fn lemma_insertion_holds(list: Seq<Seq<char>>, item: Seq<char>)
    ensures
        holds(Order::Path, insertion(Order::Path, list, item), item),
        forall|other: Seq<char>| #[trigger]
            holds(Order::Path, list, other) ==> holds(
                Order::Path,
                insertion(Order::Path, list, item),
                other,
            ),
    decreases list.len(),
{
    let out = insertion(Order::Path, list, item);
    if list.len() == 0 {
        assert(item_same(Order::Path, out[0], item));
    } else if item_same(Order::Path, list.last(), item) {
        assert(item_same(Order::Path, out[out.len() - 1], item));
    } else {
        let front = list.drop_last();
        lemma_insertion_holds(front, item);
        let inner = insertion(Order::Path, front, item);
        assert(out == list.push(item) || out == inner.push(list.last()));
        if out == list.push(item) {
            assert(item_same(Order::Path, out[out.len() - 1], item));
            assert forall|other: Seq<char>| #[trigger] holds(Order::Path, list, other) implies holds(
                Order::Path,
                out,
                other,
            ) by {
                let i = choose|i: int|
                    0 <= i < list.len() && item_same(Order::Path, #[trigger] list[i], other);
                assert(out[i] == list[i]);
            }
        } else {
            let j = choose|j: int|
                0 <= j < inner.len() && item_same(Order::Path, #[trigger] inner[j], item);
            assert(out[j] == inner[j]);
            assert forall|other: Seq<char>| #[trigger] holds(Order::Path, list, other) implies holds(
                Order::Path,
                out,
                other,
            ) by {
                let i = choose|i: int|
                    0 <= i < list.len() && item_same(Order::Path, #[trigger] list[i], other);
                if i < front.len() {
                    assert(front[i] == list[i]);
                    assert(holds(Order::Path, front, other));
                    let k = choose|k: int|
                        0 <= k < inner.len() && item_same(Order::Path, #[trigger] inner[k], other);
                    assert(out[k] == inner[k]);
                } else {
                    assert(out[out.len() - 1] == list.last());
                }
            }
        }
    }
}

proof fn lemma_grew_twice(a: ScanState, b: ScanState, c: ScanState)
    requires
        grew(a, b),
        grew(b, c),
    ensures
        grew(a, c),
{
    assert forall|k: int, item: Seq<char>|
        0 <= k < a.found.len() && #[trigger] holds(Order::Path, a.found[k], item) implies holds(
        Order::Path,
        c.found[k],
        item,
    ) by {
        assert(holds(Order::Path, b.found[k], item));
    }
}

proof fn lemma_judged_stays(
    host: Host,
    search: Search,
    path: Seq<char>,
    kind: EntryKind,
    early: ScanState,
    late: ScanState,
)
    requires
        grew(early, late),
        has_lists(search, early),
        is_judged(host, search, path, kind, early.found, early.link),
    ensures
        is_judged(host, search, path, kind, late.found, late.link),
{
    match search {
        Search::Controls { approved } => {
            if holds(Order::Path, early.found[0], path) {
                assert(holds(Order::Path, late.found[0], path));
            }
        },
        Search::Globs { regexes, .. } => {
            if !leads_to_store(host, path, kind) {
                assert forall|k: int|
                    0 <= k < regexes.len() && regex_hits(
                        #[trigger] regexes[k],
                        path,
                    ) implies match_listed(host, late.found[k], path) by {
                    assert(match_listed(host, early.found[k], path));
                    assert(holds(Order::Path, late.found[k], path));
                    if let Ok(canonical) = host.paths[path].canonical {
                        assert(holds(Order::Path, early.found[k], canonical));
                        assert(holds(Order::Path, late.found[k], canonical));
                    }
                }
            }
        },
    }
}

proof fn lemma_entry_stays(
    host: Host,
    search: Search,
    directory: Seq<char>,
    entry: EntryModel,
    early: ScanState,
    late: ScanState,
)
    requires
        grew(early, late),
        has_lists(search, early),
        entry_done(host, search, directory, entry, early),
    ensures
        entry_done(host, search, directory, entry, late),
{
    if let EntryModel::Entry { name, kind } = entry {
        lemma_judged_stays(host, search, pushed(directory, name), kind->Ok_0, early, late);
    }
}

proof fn lemma_directory_stays(
    host: Host,
    search: Search,
    directory: Seq<char>,
    early: ScanState,
    late: ScanState,
)
    requires
        grew(early, late),
        has_lists(search, early),
        directory_done(host, search, directory, early),
    ensures
        directory_done(host, search, directory, late),
{
    let entries = host.listings[directory]->Ok_0;
    assert forall|i: int| 0 <= i < entries.len() implies entry_done(
        host,
        search,
        directory,
        #[trigger] host.listings[directory]->Ok_0[i],
        late,
    ) by {
        lemma_entry_stays(host, search, directory, entries[i], early, late);
    }
}

proof fn lemma_globs_visited(
    host: Host,
    regexes: Seq<Seq<char>>,
    patterns: Seq<Seq<char>>,
    path: Seq<char>,
    state: ScanState,
    n: nat,
)
    requires
        n <= regexes.len() <= state.found.len(),
    ensures
        grew(state, visit_globs(host, regexes, patterns, path, state, n).state),
        visit_globs(host, regexes, patterns, path, state, n).state.visited == state.visited,
        is_clean(state, visit_globs(host, regexes, patterns, path, state, n)) ==> forall|k: int|
            0 <= k < n && regex_hits(#[trigger] regexes[k], path) ==> match_listed(
                host,
                visit_globs(host, regexes, patterns, path, state, n).state.found[k],
                path,
            ),
    decreases n,
{
    if n > 0 {
        let m = (n - 1) as nat;
        lemma_globs_visited(host, regexes, patterns, path, state, m);
        let before = visit_globs(host, regexes, patterns, path, state, m);
        let after = visit_globs(host, regexes, patterns, path, state, n);
        if before.failure is None && regex_hits(regexes[n - 1], path) {
            let old_list = before.state.found[n - 1];
            let list = with_match(host, old_list, path);
            let direct = insertion(Order::Path, old_list, path);
            lemma_insertion_holds(old_list, path);
            if host.paths.contains_key(path) && host.paths[path].canonical is Ok {
                lemma_insertion_holds(direct, host.paths[path].canonical->Ok_0);
                assert(holds(Order::Path, direct, path));
            }
            assert(after.state.found == before.state.found.update(n - 1, list));
            assert forall|k: int, item: Seq<char>|
                0 <= k < state.found.len() && #[trigger] holds(
                    Order::Path,
                    state.found[k],
                    item,
                ) implies holds(Order::Path, after.state.found[k], item) by {
                assert(holds(Order::Path, before.state.found[k], item));
                if k == n - 1 {
                    assert(holds(Order::Path, direct, item));
                    assert(holds(Order::Path, list, item));
                }
            }
            if is_clean(state, after) {
                assert(host.paths.contains_key(path));
                assert(is_clean(state, before));
                assert(match_listed(host, list, path));
            }
        }
    }
}

proof fn lemma_visited(
    host: Host,
    search: Search,
    path: Seq<char>,
    kind: EntryKind,
    state: ScanState,
)
    requires
        has_lists(search, state),
    ensures
        grew(state, visit(host, search, path, kind, state).0.state),
        visit(host, search, path, kind, state).0.state.visited == state.visited,
        visit(host, search, path, kind, state).1 == enters(host, search, path, kind),
        is_clean(state, visit(host, search, path, kind, state).0) ==> is_judged(
            host,
            search,
            path,
            kind,
            visit(host, search, path, kind, state).0.state.found,
            visit(host, search, path, kind, state).0.state.link,
        ),
{
    match search {
        Search::Controls { approved } => {
            let after = visit_control(approved, path, kind, state).state;
            if is_control_name(file_name_of(path)) && kind != EntryKind::Symlink && !is_opened(
                path,
                approved,
            ) {
                let list = state.found[0];
                assert(after.found == state.found.update(0, list.push(path)));
                assert forall|k: int, item: Seq<char>|
                    0 <= k < state.found.len() && #[trigger] holds(
                        Order::Path,
                        state.found[k],
                        item,
                    ) implies holds(Order::Path, after.found[k], item) by {
                    if k == 0 {
                        let i = choose|i: int|
                            0 <= i < list.len() && item_same(Order::Path, #[trigger] list[i], item);
                        assert(after.found[0][i] == list[i]);
                    }
                }
                assert(item_same(Order::Path, after.found[0][list.len() as int], path));
            }
        },
        Search::Globs { regexes, patterns } => {
            lemma_globs_visited(host, regexes, patterns, path, state, regexes.len());
        },
    }
}

proof fn lemma_walked(
    host: Host,
    search: Search,
    now: u64,
    directory: Seq<char>,
    depth: nat,
    state: ScanState,
)
    requires
        has_lists(search, state),
    ensures
        grew(state, walked(host, search, now, directory, depth, state).state),
        is_clean(state, walked(host, search, now, directory, depth, state)) ==> {
            let late = walked(host, search, now, directory, depth, state).state;
            let tree = scanned(host, search, now, directory, depth, state);
            &&& is_visited(host, directory, late)
            &&& forall|d: Seq<char>| #[trigger]
                tree.contains(d) ==> directory_done(host, search, d, late)
            &&& keys_from(host, state, late, tree)
            &&& !is_visited(host, directory, state) ==> tree.contains(directory)
        },
    decreases MAX_SCAN_DEPTH + 1 - depth, 1int, 0int,
{
    let step = walked(host, search, now, directory, depth, state);
    if depth <= MAX_SCAN_DEPTH && now <= state.budget.deadline && host.paths.contains_key(directory)
        && host.paths[directory].target is Ok {
        let key = file_key(host.paths[directory].target->Ok_0);
        if !state.visited.contains(key) {
            let entered = ScanState {
                visited: state.visited.insert(key),
                budget: state.budget.entered(),
                ..state
            };
            assert(grew(state, entered));
            if state.budget.visited_directories < state.budget.max_directories
                && host.listings.contains_key(directory) && host.listings[directory] is Ok {
                let entries = host.listings[directory]->Ok_0;
                lemma_walked_entries(host, search, now, directory, depth, entered, entries);
                lemma_grew_twice(state, entered, step.state);
                if is_clean(state, step) {
                    let below = scanned_entries(
                        host,
                        search,
                        now,
                        directory,
                        depth,
                        entered,
                        entries,
                    );
                    let tree = scanned(host, search, now, directory, depth, state);
                    assert(tree == below.insert(directory));
                    assert(directory_done(host, search, directory, step.state));
                    assert forall|d: Seq<char>| #[trigger] tree.contains(d) implies directory_done(
                        host,
                        search,
                        d,
                        step.state,
                    ) by {
                        if d != directory {
                            assert(below.contains(d));
                        }
                    }
                    assert forall|k: u128| #[trigger]
                        step.state.visited.contains(k) implies state.visited.contains(k) || exists|
                        d: Seq<char>,
                    | #[trigger] tree.contains(d) && has_key(host, d, k) by {
                        if k == key {
                            assert(tree.contains(directory) && has_key(host, directory, k));
                        } else if !state.visited.contains(k) {
                            assert(!entered.visited.contains(k));
                            let d = choose|d: Seq<char>| #[trigger]
                                below.contains(d) && has_key(host, d, k);
                            assert(tree.contains(d));
                        }
                    }
                }
            }
        }
    }
}

proof fn lemma_walked_entries(
    host: Host,
    search: Search,
    now: u64,
    directory: Seq<char>,
    depth: nat,
    state: ScanState,
    entries: Seq<EntryModel>,
)
    requires
        has_lists(search, state),
        depth <= MAX_SCAN_DEPTH,
    ensures
        grew(state, walked_entries(host, search, now, directory, depth, state, entries).state),
        is_clean(
            state,
            walked_entries(host, search, now, directory, depth, state, entries),
        ) ==> {
            let late = walked_entries(host, search, now, directory, depth, state, entries).state;
            let tree = scanned_entries(host, search, now, directory, depth, state, entries);
            &&& forall|i: int|
                0 <= i < entries.len() ==> entry_done(
                    host,
                    search,
                    directory,
                    #[trigger] entries[i],
                    late,
                )
            &&& forall|d: Seq<char>| #[trigger]
                tree.contains(d) ==> directory_done(host, search, d, late)
            &&& keys_from(host, state, late, tree)
        },
    decreases MAX_SCAN_DEPTH + 1 - depth, 0int, entries.len(),
{
    if entries.len() > 0 {
        let front = entries.drop_last();
        lemma_walked_entries(host, search, now, directory, depth, state, front);
        let before = walked_entries(host, search, now, directory, depth, state, front);
        let step = walked_entries(host, search, now, directory, depth, state, entries);
        if before.failure is None {
            let counted = ScanState {
                budget: before.state.budget.inspected(),
                ..before.state
            };
            assert(grew(before.state, counted));
            lemma_grew_twice(state, before.state, counted);
            if let EntryModel::Entry { name, kind: Ok(kind) } = entries.last() {
                let path = pushed(directory, name);
                lemma_visited(host, search, path, kind, counted);
                let (seen, enter) = visit(host, search, path, kind, counted);
                lemma_grew_twice(state, counted, seen.state);
                let earlier = scanned_entries(host, search, now, directory, depth, state, front);
                let tree = scanned_entries(host, search, now, directory, depth, state, entries);
                if seen.failure is None && enter {
                    lemma_walked(host, search, now, path, depth + 1, seen.state);
                    lemma_grew_twice(state, seen.state, step.state);
                    lemma_grew_twice(counted, seen.state, step.state);
                    assert(tree == earlier.union(
                        scanned(host, search, now, path, depth + 1, seen.state),
                    ));
                } else {
                    assert(tree == earlier);
                    assert(step == seen);
                }
                if is_clean(state, step) {
                    assert(is_clean(state, before));
                    assert(is_clean(counted, seen));
                    assert(grew(counted, step.state));
                    lemma_judged_stays(host, search, path, kind, seen.state, step.state);
                    assert forall|i: int| 0 <= i < entries.len() implies entry_done(
                        host,
                        search,
                        directory,
                        #[trigger] entries[i],
                        step.state,
                    ) by {
                        if i < front.len() {
                            assert(front[i] == entries[i]);
                            lemma_entry_stays(
                                host,
                                search,
                                directory,
                                entries[i],
                                before.state,
                                step.state,
                            );
                        }
                    }
                    let below = if enter {
                        scanned(host, search, now, path, depth + 1, seen.state)
                    } else {
                        Set::empty()
                    };
                    assert forall|d: Seq<char>| #[trigger] tree.contains(d) implies directory_done(
                        host,
                        search,
                        d,
                        step.state,
                    ) by {
                        if earlier.contains(d) {
                            lemma_directory_stays(host, search, d, before.state, step.state);
                        } else {
                            assert(below.contains(d));
                        }
                    }
                    assert forall|k: u128| #[trigger]
                        step.state.visited.contains(k) implies state.visited.contains(k) || exists|
                        d: Seq<char>,
                    | #[trigger] tree.contains(d) && has_key(host, d, k) by {
                        if !seen.state.visited.contains(k) {
                            let d = choose|d: Seq<char>| #[trigger]
                                below.contains(d) && has_key(host, d, k);
                            assert(tree.contains(d));
                        } else if !state.visited.contains(k) {
                            assert(before.state.visited.contains(k));
                            let d = choose|d: Seq<char>| #[trigger]
                                earlier.contains(d) && has_key(host, d, k);
                            assert(tree.contains(d));
                        }
                    }
                }
            }
        }
    }
}

proof fn lemma_tree_covered(
    host: Host,
    search: Search,
    root: Seq<char>,
    tree: Set<Seq<char>>,
    early: ScanState,
    late: ScanState,
    found: Seq<Seq<Seq<char>>>,
    link: Option<Seq<char>>,
)
    requires
        early.visited == Set::<u128>::empty(),
        tree.contains(root),
        forall|d: Seq<char>| #[trigger] tree.contains(d) ==> directory_done(host, search, d, late),
        keys_from(host, early, late, tree),
        found == late.found,
        link == late.link,
    ensures
        tree_covered(host, search, root, tree, found, link),
{
    assert forall|directory: Seq<char>| #[trigger] tree.contains(directory) implies is_covered(
        host,
        search,
        directory,
        tree,
        found,
        link,
    ) by {
        assert(directory_done(host, search, directory, late));
        let entries = host.listings[directory]->Ok_0;
        assert forall|i: int| 0 <= i < entries.len() implies {
            &&& #[trigger] host.listings[directory]->Ok_0[i] matches EntryModel::Entry {
                name,
                kind,
            }
            &&& kind is Ok
            &&& is_judged(host, search, pushed(directory, name), kind->Ok_0, found, link)
            &&& enters(host, search, pushed(directory, name), kind->Ok_0) ==> exists|other: Seq<
                char,
            >|
                tree.contains(other) && #[trigger] host.paths.contains_key(other)
                    && host.paths.contains_key(pushed(directory, name))
                    && host.paths[other].target is Ok && has_key(
                    host,
                    pushed(directory, name),
                    file_key(host.paths[other].target->Ok_0),
                )
        } by {
            assert(entry_done(host, search, directory, entries[i], late));
            if let EntryModel::Entry { name, kind } = entries[i] {
                let path = pushed(directory, name);
                if enters(host, search, path, kind->Ok_0) {
                    assert(is_visited(host, path, late));
                    let key = file_key(host.paths[path].target->Ok_0);
                    assert(late.visited.contains(key));
                    let other = choose|other: Seq<char>| #[trigger]
                        tree.contains(other) && has_key(host, other, key);
                    assert(host.paths.contains_key(other));
                }
            }
        }
    }
}

/// Where the control directories of a workspace were found, none was missed: the
/// workspace and every directory below it was looked at, each control directory in
/// one of them is among those that were found, unless it is open, and none is a
/// link.
pub proof fn no_control_directory_is_missed(
    host: Host,
    now: u64,
    cwd: Seq<char>,
    approved: Seq<Seq<char>>,
) -> (tree: Set<Seq<char>>)
    requires
        control_paths(host, now, cwd, approved) is Ok,
    ensures
        tree_covered(
            host,
            Search::Controls { approved },
            cwd,
            tree,
            seq![control_paths(host, now, cwd, approved)->Ok_0],
            None,
        ),
{
    let search = Search::Controls { approved };
    let start = scan_start(host.deadline(ScanKind::Controls)->Ok_0, 1);
    let step = walked(host, search, now, cwd, 0, start);
    let tree = scanned(host, search, now, cwd, 0, start);
    lemma_walked(host, search, now, cwd, 0, start);
    assert(is_clean(start, step));
    let list = step.state.found[0];
    collected_is_a_set(Order::Path, list);
    let ordered = ScanState { found: seq![collected(Order::Path, list)], ..step.state };
    assert forall|d: Seq<char>| #[trigger] tree.contains(d) implies directory_done(
        host,
        search,
        d,
        ordered,
    ) by {
        assert(directory_done(host, search, d, step.state));
        let entries = host.listings[d]->Ok_0;
        assert forall|i: int| 0 <= i < entries.len() implies entry_done(
            host,
            search,
            d,
            #[trigger] host.listings[d]->Ok_0[i],
            ordered,
        ) by {
            assert(entry_done(host, search, d, entries[i], step.state));
        }
    }
    assert(keys_from(host, start, ordered, tree)) by {
        assert(keys_from(host, start, step.state, tree));
    }
    lemma_tree_covered(
        host,
        search,
        cwd,
        tree,
        start,
        ordered,
        seq![control_paths(host, now, cwd, approved)->Ok_0],
        None,
    );
    tree
}

spec fn tree_found(
    host: Host,
    search: Search,
    root: Seq<char>,
    found: Seq<Seq<Seq<char>>>,
) -> bool {
    host.paths.contains_key(root) && (host.paths[root].is_dir() ==> exists|tree: Set<Seq<char>>| #[
    trigger] tree_covered(host, search, root, tree, found, None))
}

proof fn lemma_covered_stays(
    host: Host,
    search: Search,
    root: Seq<char>,
    tree: Set<Seq<char>>,
    early: ScanState,
    late: ScanState,
)
    requires
        search is Globs,
        has_lists(search, early),
        grew(ScanState { visited: Set::empty(), ..early }, late),
        tree_covered(host, search, root, tree, early.found, None),
    ensures
        tree_covered(host, search, root, tree, late.found, None),
{
    let reset = ScanState { visited: Set::empty(), link: None, ..early };
    let later = ScanState { link: None, ..late };
    assert forall|directory: Seq<char>| #[trigger] tree.contains(directory) implies is_covered(
        host,
        search,
        directory,
        tree,
        late.found,
        None,
    ) by {
        assert(is_covered(host, search, directory, tree, early.found, None));
        let entries = host.listings[directory]->Ok_0;
        assert forall|i: int| 0 <= i < entries.len() implies ((
        #[trigger] host.listings[directory]->Ok_0[i]) matches EntryModel::Entry { name, kind }
            && is_judged(host, search, pushed(directory, name), kind->Ok_0, late.found, None)) by {
            if let EntryModel::Entry { name, kind } = entries[i] {
                assert(grew(reset, later));
                lemma_judged_stays(
                    host,
                    search,
                    pushed(directory, name),
                    kind->Ok_0,
                    reset,
                    later,
                );
            }
        }
    }
}

proof fn lemma_trees(
    host: Host,
    search: Search,
    now: u64,
    roots: Seq<Seq<char>>,
    state: ScanState,
)
    requires
        search is Globs,
        has_lists(search, state),
    ensures
        trees_walked(host, search, now, roots, state).state.found.len() == state.found.len(),
        trees_walked(host, search, now, roots, state).state.wanted.len() >= state.wanted.len(),
        is_clean(state, trees_walked(host, search, now, roots, state)) ==> forall|i: int|
            0 <= i < roots.len() ==> tree_found(
                host,
                search,
                #[trigger] roots[i],
                trees_walked(host, search, now, roots, state).state.found,
            ),
    decreases roots.len(),
{
    if roots.len() > 0 {
        let front = roots.drop_last();
        let root = roots.last();
        lemma_trees(host, search, now, front, state);
        let before = trees_walked(host, search, now, front, state);
        let step = trees_walked(host, search, now, roots, state);
        let reset = ScanState { visited: Set::empty(), ..before.state };
        let enters_root = before.failure is None && host.paths.contains_key(root)
            && host.paths[root].is_dir();
        if enters_root {
            lemma_walked(host, search, now, root, 0, reset);
        }
        if is_clean(state, step) {
            assert(before.failure is None);
            assert(host.paths.contains_key(root));
            assert(is_clean(state, before));
            if enters_root {
                let tree = scanned(host, search, now, root, 0, reset);
                lemma_links_aside(host, search, now, root, 0, reset);
                lemma_tree_covered(
                    host,
                    search,
                    root,
                    tree,
                    reset,
                    ScanState { link: None, ..step.state },
                    step.state.found,
                    None,
                );
                assert(tree_found(host, search, root, step.state.found));
            }
            assert forall|i: int| 0 <= i < roots.len() implies tree_found(
                host,
                search,
                #[trigger] roots[i],
                step.state.found,
            ) by {
                if i < front.len() {
                    assert(front[i] == roots[i]);
                    assert(tree_found(host, search, front[i], before.state.found));
                    if enters_root && host.paths[roots[i]].is_dir() {
                        let tree = choose|tree: Set<Seq<char>>| #[trigger]
                            tree_covered(host, search, roots[i], tree, before.state.found, None);
                        lemma_covered_stays(
                            host,
                            search,
                            roots[i],
                            tree,
                            before.state,
                            step.state,
                        );
                    }
                }
            }
        }
    }
}

proof fn lemma_links_aside(
    host: Host,
    search: Search,
    now: u64,
    root: Seq<char>,
    depth: nat,
    state: ScanState,
)
    requires
        search is Globs,
        has_lists(search, state),
        is_clean(state, walked(host, search, now, root, depth, state)),
    ensures
        forall|d: Seq<char>| #[trigger]
            scanned(host, search, now, root, depth, state).contains(d) ==> directory_done(
                host,
                search,
                d,
                ScanState {
                    link: None,
                    ..walked(host, search, now, root, depth, state).state
                },
            ),
        keys_from(
            host,
            state,
            ScanState { link: None, ..walked(host, search, now, root, depth, state).state },
            scanned(host, search, now, root, depth, state),
        ),
{
    lemma_walked(host, search, now, root, depth, state);
    let late = walked(host, search, now, root, depth, state).state;
    let aside = ScanState { link: None, ..late };
    let tree = scanned(host, search, now, root, depth, state);
    assert forall|d: Seq<char>| #[trigger] tree.contains(d) implies directory_done(
        host,
        search,
        d,
        aside,
    ) by {
        assert(directory_done(host, search, d, late));
        let entries = host.listings[d]->Ok_0;
        assert forall|i: int| 0 <= i < entries.len() implies entry_done(
            host,
            search,
            d,
            #[trigger] host.listings[d]->Ok_0[i],
            aside,
        ) by {
            assert(entry_done(host, search, d, entries[i], late));
        }
    }
    assert(keys_from(host, state, late, tree));
}

/// Where the matches of deny globs were found, none was missed: every place where
/// matches can lie is known, and where it is a directory, it and every directory
/// below it was looked at, links to directories included; each path in one of them
/// that a glob matches is among the matches of that glob, with what it leads to. Only
/// links into the immutable store are left out.
pub proof fn no_match_is_missed(
    host: Host,
    now: u64,
    patterns: Seq<Seq<char>>,
    cwd: Seq<char>,
    root: Seq<char>,
) -> (tree: Set<Seq<char>>)
    requires
        glob_matches(host, now, patterns, cwd) is Ok,
        collected(
            Order::Path,
            each(patterns, root_step(cwd))->Ok_0,
        ).contains(root),
    ensures
        host.paths.contains_key(root),
        host.paths[root].is_dir() ==> tree_covered(
            host,
            Search::Globs {
                regexes: each(patterns, regex_step())->Ok_0,
                patterns,
            },
            root,
            tree,
            glob_matches(host, now, patterns, cwd)->Ok_0,
            None,
        ),
{
    let regexes = each(patterns, regex_step())->Ok_0;
    let search = Search::Globs { regexes, patterns };
    let roots = collected(Order::Path, each(patterns, root_step(cwd))->Ok_0);
    let start = scan_start(host.deadline(ScanKind::Globs)->Ok_0, patterns.len());
    lemma_each_all(patterns, regex_step());
    lemma_trees(host, search, now, roots, start);
    let i = choose|i: int| 0 <= i < roots.len() && roots[i] == root;
    let found = glob_matches(host, now, patterns, cwd)->Ok_0;
    assert(tree_found(host, search, roots[i], found));
    choose|tree: Set<Seq<char>>| #[trigger]
        tree_covered(host, search, root, tree, found, None)
}

proof fn lemma_visit_stands(
    host: Host,
    later: Host,
    search: Search,
    path: Seq<char>,
    kind: EntryKind,
    state: ScanState,
)
    requires
        host.extended_by(later),
        has_lists(search, state),
        visit(host, search, path, kind, state).0.state.wanted.len() == state.wanted.len(),
    ensures
        visit(later, search, path, kind, state) == visit(host, search, path, kind, state),
{
    if let Search::Globs { regexes, patterns } = search {
        if !(kind == EntryKind::Symlink && !host.paths.contains_key(path)) {
            assert(leads_to_store(later, path, kind) == leads_to_store(host, path, kind));
            if !leads_to_store(host, path, kind) {
                lemma_globs_stand(host, later, regexes, patterns, path, state, regexes.len());
            }
        }
    }
}

proof fn lemma_globs_stand(
    host: Host,
    later: Host,
    regexes: Seq<Seq<char>>,
    patterns: Seq<Seq<char>>,
    path: Seq<char>,
    state: ScanState,
    n: nat,
)
    requires
        host.extended_by(later),
        n <= regexes.len() <= state.found.len(),
        visit_globs(host, regexes, patterns, path, state, n).state.wanted.len()
            == state.wanted.len(),
    ensures
        visit_globs(later, regexes, patterns, path, state, n) == visit_globs(
            host,
            regexes,
            patterns,
            path,
            state,
            n,
        ),
    decreases n,
{
    if n > 0 {
        let m = (n - 1) as nat;
        lemma_globs_visited(host, regexes, patterns, path, state, m);
        let before = visit_globs(host, regexes, patterns, path, state, m);
        assert(before.state.wanted.len() == state.wanted.len());
        lemma_globs_stand(host, later, regexes, patterns, path, state, m);
        if before.failure is None && regex_hits(regexes[n - 1], path) {
            assert(host.paths.contains_key(path));
        }
    }
}

proof fn lemma_walk_stands(
    host: Host,
    later: Host,
    search: Search,
    now: u64,
    directory: Seq<char>,
    depth: nat,
    state: ScanState,
)
    requires
        host.extended_by(later),
        has_lists(search, state),
        walked(host, search, now, directory, depth, state).state.wanted.len()
            == state.wanted.len(),
    ensures
        walked(later, search, now, directory, depth, state) == walked(
            host,
            search,
            now,
            directory,
            depth,
            state,
        ),
    decreases MAX_SCAN_DEPTH + 1 - depth, 1int, 0int,
{
    if depth <= MAX_SCAN_DEPTH && now <= state.budget.deadline {
        assert(host.paths.contains_key(directory));
        assert(later.paths[directory] == host.paths[directory]);
        if let Ok(target) = host.paths[directory].target {
            if !state.visited.contains(file_key(target)) {
                let entered = ScanState {
                    visited: state.visited.insert(file_key(target)),
                    budget: state.budget.entered(),
                    ..state
                };
                if state.budget.visited_directories < state.budget.max_directories {
                    assert(host.listings.contains_key(directory));
                    assert(later.listings[directory] == host.listings[directory]);
                    if let Ok(entries) = host.listings[directory] {
                        lemma_entries_stand(
                            host,
                            later,
                            search,
                            now,
                            directory,
                            depth,
                            entered,
                            entries,
                        );
                    }
                }
            }
        }
    }
}

proof fn lemma_entries_stand(
    host: Host,
    later: Host,
    search: Search,
    now: u64,
    directory: Seq<char>,
    depth: nat,
    state: ScanState,
    entries: Seq<EntryModel>,
)
    requires
        host.extended_by(later),
        has_lists(search, state),
        depth <= MAX_SCAN_DEPTH,
        walked_entries(host, search, now, directory, depth, state, entries).state.wanted.len()
            == state.wanted.len(),
    ensures
        walked_entries(later, search, now, directory, depth, state, entries) == walked_entries(
            host,
            search,
            now,
            directory,
            depth,
            state,
            entries,
        ),
    decreases MAX_SCAN_DEPTH + 1 - depth, 0int, entries.len(),
{
    if entries.len() > 0 {
        let front = entries.drop_last();
        lemma_walked_entries(host, search, now, directory, depth, state, front);
        let before = walked_entries(host, search, now, directory, depth, state, front);
        let step = walked_entries(host, search, now, directory, depth, state, entries);
        if before.failure is None {
            let counted = ScanState {
                budget: before.state.budget.inspected(),
                ..before.state
            };
            if let EntryModel::Entry { name, kind: Ok(kind) } = entries.last() {
                let path = pushed(directory, name);
                lemma_visited(host, search, path, kind, counted);
                let (seen, enter) = visit(host, search, path, kind, counted);
                if seen.failure is None && enter {
                    lemma_walked(host, search, now, path, depth + 1, seen.state);
                    assert(seen.state.wanted.len() == state.wanted.len());
                    assert(before.state.wanted.len() == state.wanted.len());
                    lemma_entries_stand(
                        host,
                        later,
                        search,
                        now,
                        directory,
                        depth,
                        state,
                        front,
                    );
                    lemma_visit_stands(host, later, search, path, kind, counted);
                    lemma_walk_stands(host, later, search, now, path, depth + 1, seen.state);
                } else {
                    assert(step == seen);
                    assert(before.state.wanted.len() == state.wanted.len());
                    lemma_entries_stand(
                        host,
                        later,
                        search,
                        now,
                        directory,
                        depth,
                        state,
                        front,
                    );
                    lemma_visit_stands(host, later, search, path, kind, counted);
                }
            } else {
                lemma_entries_stand(host, later, search, now, directory, depth, state, front);
            }
        } else {
            lemma_entries_stand(host, later, search, now, directory, depth, state, front);
        }
    }
}

proof fn lemma_trees_stand(
    host: Host,
    later: Host,
    search: Search,
    now: u64,
    roots: Seq<Seq<char>>,
    state: ScanState,
)
    requires
        host.extended_by(later),
        search is Globs,
        has_lists(search, state),
        trees_walked(host, search, now, roots, state).state.wanted.len() == state.wanted.len(),
    ensures
        trees_walked(later, search, now, roots, state) == trees_walked(
            host,
            search,
            now,
            roots,
            state,
        ),
    decreases roots.len(),
{
    if roots.len() > 0 {
        let front = roots.drop_last();
        let root = roots.last();
        lemma_trees(host, search, now, front, state);
        let before = trees_walked(host, search, now, front, state);
        let reset = ScanState { visited: Set::empty(), ..before.state };
        if before.failure is None && host.paths.contains_key(root) && host.paths[root].is_dir() {
            lemma_walked(host, search, now, root, 0, reset);
            assert(before.state.wanted.len() == state.wanted.len());
            lemma_trees_stand(host, later, search, now, front, state);
            lemma_walk_stands(host, later, search, now, root, 0, reset);
        } else {
            assert(before.state.wanted.len() == state.wanted.len());
            lemma_trees_stand(host, later, search, now, front, state);
        }
    }
}

/// What was found of control directories, or said against looking for them, stands
/// whatever else becomes known.
pub proof fn control_directories_stand(
    host: Host,
    later: Host,
    now: u64,
    cwd: Seq<char>,
    approved: Seq<Seq<char>>,
)
    requires
        host.extended_by(later),
        is_reached(control_paths(host, now, cwd, approved)),
    ensures
        control_paths(later, now, cwd, approved) == control_paths(host, now, cwd, approved),
{
    if let Ok(deadline) = host.deadline(ScanKind::Controls) {
        let search = Search::Controls { approved };
        let start = scan_start(deadline, 1);
        lemma_walk_stands(host, later, search, now, cwd, 0, start);
    }
}

/// What was found of matches, or said against looking for them, stands whatever else
/// becomes known.
pub proof fn matches_stand(
    host: Host,
    later: Host,
    now: u64,
    patterns: Seq<Seq<char>>,
    cwd: Seq<char>,
)
    requires
        host.extended_by(later),
        is_reached(glob_matches(host, now, patterns, cwd)),
    ensures
        glob_matches(later, now, patterns, cwd) == glob_matches(host, now, patterns, cwd),
{
    if each(patterns, regex_step()) is Ok && each(patterns, root_step(cwd)) is Ok {
        if let Ok(deadline) = host.deadline(ScanKind::Globs) {
            let regexes = each(patterns, regex_step())->Ok_0;
            let roots = collected(Order::Path, each(patterns, root_step(cwd))->Ok_0);
            lemma_each_all(patterns, regex_step());
            let none = Seq::<Seq<char>>::empty();
            lemma_trees_stand(
                host,
                later,
                Search::Globs { regexes: none, patterns: none },
                now,
                roots,
                scan_start(deadline, 0),
            );
            lemma_trees_stand(
                host,
                later,
                Search::Globs { regexes, patterns },
                now,
                roots,
                scan_start(deadline, patterns.len()),
            );
        }
    }
}

} // verus!
