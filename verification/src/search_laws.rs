//! What scans find, and what globs stand for.

use vstd::prelude::*;

use crate::expansion::{
    compiled_regex, control_paths, first_glob_char, glob_matches, last_slash, regex_step, root_step,
    scan_root, scan_start, trees_walked,
};
use crate::facts::{each, EntryKind, EntryModel, FileKind, HaltModel, Host, ScanKind, Target};
use crate::globs::{glob_body, scan_regex, seatbelt_regex};
use crate::guarantees::lemma_each_all;
use crate::order::{
    collected, collected_is_a_set, holds, in_order, insertion, insertion_adds_one_item, item_same,
    Order,
};
use crate::outside::{escaped, regex_accepts, regex_error};
use crate::paths::{
    a_pushed_name_is_a_component, components, file_name_of, is_absolute, is_entry_name, lies_under,
    pushed,
};
use crate::scan::{
    file_key, is_opened, leads_to_store, regex_hits, visit, visit_control, visit_globs, walked,
    walked_entries, with_match, ScanState, Search, MAX_SCAN_DEPTH,
};
use crate::scan_laws::{
    enters, has_key, is_covered, is_judged, match_listed, no_control_directory_is_missed,
    no_match_is_missed,
};

verus! {

/// One piece of a glob.
pub enum Piece {
    /// A character that stands for itself.
    Itself(char),
    /// Any name, or a part of one.
    Name,
    /// One character of a name.
    One,
    /// Any number of folders.
    Folders,
    /// Anything.
    Anything,
}

/// How a piece is written in a glob.
pub open spec fn in_glob(piece: Piece) -> Seq<char> {
    match piece {
        Piece::Itself(c) => seq![c],
        Piece::Name => seq!['*'],
        Piece::One => seq!['?'],
        Piece::Folders => seq!['*', '*', '/'],
        Piece::Anything => seq!['*', '*'],
    }
}

/// How a piece is written in a regular expression.
pub open spec fn in_expression(piece: Piece) -> Seq<char> {
    match piece {
        Piece::Itself(c) => escaped(seq![c]),
        Piece::Name => "[^/]*"@,
        Piece::One => "[^/]"@,
        Piece::Folders => "(.*/)?"@,
        Piece::Anything => ".*"@,
    }
}

/// A glob made of pieces.
pub open spec fn glob_of(pieces: Seq<Piece>) -> Seq<char>
    decreases pieces.len(),
{
    if pieces.len() == 0 {
        Seq::empty()
    } else {
        in_glob(pieces[0]) + glob_of(pieces.skip(1))
    }
}

/// The regular expression made of pieces.
pub open spec fn expression_of(pieces: Seq<Piece>) -> Seq<char>
    decreases pieces.len(),
{
    if pieces.len() == 0 {
        Seq::empty()
    } else {
        in_expression(pieces[0]) + expression_of(pieces.skip(1))
    }
}

/// Whether the pieces of a glob can be told apart where they meet: no star directly
/// before another that is no part of it, and no separator directly behind two stars that
/// do not stand for folders; and what stands for itself has no other meaning.
pub open spec fn is_told_apart(pieces: Seq<Piece>) -> bool
    decreases pieces.len(),
{
    pieces.len() > 0 ==> {
        let rest = glob_of(pieces.skip(1));
        &&& match pieces[0] {
            Piece::Itself(c) => c != '*' && c != '?' && c != '[' && c != ']',
            Piece::Name => rest.len() == 0 || rest[0] != '*',
            Piece::Anything => rest.len() == 0 || rest[0] != '/',
            _ => true,
        }
        &&& is_told_apart(pieces.skip(1))
    }
}

proof fn lemma_glob_body(pieces: Seq<Piece>)
    requires
        is_told_apart(pieces),
    ensures
        glob_body(glob_of(pieces)) == Some(expression_of(pieces)),
    decreases pieces.len(),
{
    if pieces.len() > 0 {
        let rest = pieces.skip(1);
        lemma_glob_body(rest);
        let glob = glob_of(pieces);
        let head = in_glob(pieces[0]);
        assert(glob.skip(head.len() as int) =~= glob_of(rest));
        assert forall|i: int| 0 <= i < head.len() implies glob[i] == #[trigger] head[i] by {}
        if glob.len() > head.len() {
            assert(glob[head.len() as int] == glob_of(rest)[0]);
        }
        match pieces[0] {
            Piece::Itself(c) => {
                assert(glob[0] == head[0]);
                assert(seq![glob[0]] =~= head);
            },
            Piece::Name => {
                assert(glob[0] == head[0]);
            },
            Piece::One => {
                assert(glob[0] == head[0]);
            },
            Piece::Folders => {
                assert(glob[0] == head[0] && glob[1] == head[1] && glob[2] == head[2]);
            },
            Piece::Anything => {
                assert(glob[0] == head[0] && glob[1] == head[1]);
            },
        }
    }
}

/// A glob is read piece by piece: its regular expression is that of its pieces, from the
/// first character of the path to the last, for the profile as for the scan.
pub proof fn globs_are_read_piece_by_piece(pieces: Seq<Piece>)
    requires
        is_told_apart(pieces),
        pieces.len() > 0,
        pieces[0] == Piece::Itself('/'),
    ensures
        seatbelt_regex(glob_of(pieces)) == Ok::<Seq<char>, Seq<char>>(
            "^"@ + expression_of(pieces) + "$"@,
        ),
        scan_regex(glob_of(pieces)) == Ok::<Seq<char>, Seq<char>>(
            "^"@ + expression_of(pieces) + "$"@,
        ),
{
    lemma_glob_body(pieces);
    assert(glob_of(pieces)[0] == in_glob(pieces[0])[0]);
}

proof fn lemma_no_class(glob: Seq<char>)
    ensures
        glob_body(glob) is None <==> glob.contains('[') || glob.contains(']'),
    decreases glob.len(),
{
    if glob.len() > 0 {
        let n: int = if glob[0] == '*' && glob.len() > 1 && glob[1] == '*' {
            if glob.len() > 2 && glob[2] == '/' {
                3
            } else {
                2
            }
        } else {
            1
        };
        let rest = glob.skip(n);
        lemma_no_class(rest);
        assert forall|c: char| c == '[' || c == ']' implies (glob.contains(c) <==> glob[0] == c
            || rest.contains(c)) by {
            if glob.contains(c) {
                let i = choose|i: int| 0 <= i < glob.len() && glob[i] == c;
                if i >= n {
                    assert(rest[i - n] == c);
                }
            }
            if rest.contains(c) {
                let i = choose|i: int| 0 <= i < rest.len() && rest[i] == c;
                assert(glob[i + n] == c);
            }
            if glob[0] == c {
                assert(glob.contains(c));
            }
        }
        assert(glob.contains('[') <==> glob[0] == '[' || rest.contains('['));
        assert(glob.contains(']') <==> glob[0] == ']' || rest.contains(']'));
    }
}

/// A glob has no expression exactly where it is not absolute or holds a character class.
pub proof fn globs_without_classes_are_read(pattern: Seq<char>)
    ensures
        seatbelt_regex(pattern) is Ok <==> pattern.len() > 0 && pattern[0] == '/'
            && !pattern.contains('[') && !pattern.contains(']'),
        scan_regex(pattern) is Ok <==> seatbelt_regex(pattern) is Ok,
{
    lemma_no_class(pattern);
}

proof fn lemma_first_glob_char(pattern: Seq<char>, from: int)
    requires
        0 <= from,
    ensures
        first_glob_char(pattern, from) matches Some(at) ==> {
            &&& from <= at < pattern.len()
            &&& pattern[at] == '*' || pattern[at] == '?' || pattern[at] == '['
            &&& forall|i: int|
                from <= i < at ==> #[trigger] pattern[i] != '*' && pattern[i] != '?' && pattern[i]
                    != '['
        },
        first_glob_char(pattern, from) is None ==> forall|i: int|
            from <= i < pattern.len() ==> #[trigger] pattern[i] != '*' && pattern[i] != '?'
                && pattern[i] != '[',
    decreases pattern.len() - from,
{
    if from < pattern.len() {
        lemma_first_glob_char(pattern, from + 1);
    }
}

proof fn lemma_last_slash(text: Seq<char>)
    ensures
        0 <= last_slash(text) <= text.len(),
        last_slash(text) > 0 ==> last_slash(text) < text.len() && text[last_slash(text)] == '/',
        forall|i: int| last_slash(text) < i < text.len() ==> #[trigger] text[i] != '/',
    decreases text.len(),
{
    if text.len() > 0 && text.last() != '/' {
        lemma_last_slash(text.drop_last());
        let n = last_slash(text);
        assert forall|i: int| n < i < text.len() implies #[trigger] text[i] != '/' by {
            if i < text.len() - 1 {
                assert(text.drop_last()[i] == text[i]);
            }
        }
        if n > 0 {
            assert(text.drop_last()[n] == text[n]);
        }
    }
}

/// Whether a character makes a pattern a glob.
pub open spec fn is_wild(c: char) -> bool {
    c == '*' || c == '?' || c == '['
}

/// Whether the first wild character of a pattern is at `at`, and the last separator
/// before it at `slash`, or none but at the very start.
pub open spec fn is_parted(pattern: Seq<char>, slash: int, at: int) -> bool {
    &&& 0 <= slash <= at < pattern.len()
    &&& is_wild(pattern[at])
    &&& forall|i: int| 0 <= i < at ==> !is_wild(#[trigger] pattern[i])
    &&& slash > 0 ==> pattern[slash] == '/'
    &&& forall|i: int| slash < i < at ==> #[trigger] pattern[i] != '/'
}

/// Matches are looked for where they can lie: below the directory that all of the glob's
/// matches share, up to the last separator before its first star, question mark or
/// bracket; and below the workspace where that is the root. A pattern without any of
/// these is refused.
pub proof fn matches_are_looked_for_where_they_can_lie(pattern: Seq<char>, cwd: Seq<char>) -> (at: (
    int,
    int,
))
    ensures
        scan_root(pattern, cwd) is Ok <==> exists|i: int|
            0 <= i < pattern.len() && is_wild(#[trigger] pattern[i]),
        scan_root(pattern, cwd) is Ok ==> is_parted(pattern, at.0, at.1),
        scan_root(pattern, cwd) matches Ok(root) ==> {
            let shared = if at.0 == 0 {
                seq!['/']
            } else {
                pattern.take(at.0)
            };
            if components(shared) == components(seq!['/']) {
                root == cwd
            } else {
                root == shared
            }
        },
{
    lemma_first_glob_char(pattern, 0);
    if let Some(first) = first_glob_char(pattern, 0) {
        let front = pattern.take(first);
        lemma_last_slash(front);
        let end = last_slash(front);
        assert(is_wild(pattern[first]));
        if end > 0 {
            assert(front[end] == pattern[end]);
        }
        assert forall|i: int| end < i < first implies #[trigger] pattern[i] != '/' by {
            assert(front[i] == pattern[i]);
        }
        (end, first)
    } else {
        (0, 0)
    }
}

/// Whether a directory was listed with an entry that makes up a path, of the given kind.
pub open spec fn is_entry(host: Host, path: Seq<char>, kind: EntryKind) -> bool {
    exists|directory: Seq<char>, i: int|
        {
            &&& #[trigger] host.listings.contains_key(directory)
            &&& host.listings[directory] is Ok
            &&& 0 <= i < host.listings[directory]->Ok_0.len()
            &&& #[trigger] host.listings[directory]->Ok_0[i] matches EntryModel::Entry {
                name,
                kind: Ok(told),
            }
            &&& told == kind
            &&& path == pushed(directory, name)
        }
}

/// Whether a path is a control directory that is to be protected: one that was listed,
/// that is no link, that is called `.pi`, or `.git` and neither at nor below an approved
/// path.
pub open spec fn is_control(host: Host, approved: Seq<Seq<char>>, path: Seq<char>) -> bool {
    &&& exists|kind: EntryKind| kind != EntryKind::Symlink && #[trigger] is_entry(host, path, kind)
    &&& file_name_of(path) == Some(".pi"@) || (file_name_of(path) == Some(".git"@) && forall|
        a: int,
    |
        0 <= a < approved.len() ==> !lies_under(path, #[trigger] approved[a]))
}

/// Whether a path is what an expression accepts, or what that leads to.
pub open spec fn is_match(host: Host, regex: Seq<char>, path: Seq<char>) -> bool {
    exists|hit: Seq<char>|
        {
            &&& #[trigger] regex_accepts(regex, hit)
            &&& regex_error(regex) is None
            &&& exists|kind: EntryKind| #[trigger] is_entry(host, hit, kind)
            &&& components(path) == components(hit) || (host.paths[hit].canonical is Ok
                && components(path) == components(host.paths[hit].canonical->Ok_0))
        }
}

/// Whether all that a scan has found is what it looks for.
#[verifier::opaque]
pub open spec fn is_sound(host: Host, search: Search, found: Seq<Seq<Seq<char>>>) -> bool {
    match search {
        Search::Controls { approved } => found.len() >= 1 && forall|k: int|
            0 <= k < found[0].len() ==> is_control(host, approved, #[trigger] found[0][k]),
        Search::Globs { regexes, .. } => regexes.len() <= found.len() && forall|i: int, k: int|
            0 <= i < regexes.len() && 0 <= k < found[i].len() ==> is_match(
                host,
                regexes[i],
                #[trigger] found[i][k],
            ),
    }
}

/// Whether the lists of a scan for globs are in order.
pub open spec fn is_ordered(search: Search, found: Seq<Seq<Seq<char>>>) -> bool {
    search matches Search::Globs { regexes, .. } ==> forall|i: int|
        0 <= i < regexes.len() ==> in_order(Order::Path, #[trigger] found[i])
}

proof fn lemma_visit_control_sound(
    host: Host,
    approved: Seq<Seq<char>>,
    path: Seq<char>,
    kind: EntryKind,
    state: ScanState,
)
    requires
        is_sound(host, Search::Controls { approved }, state.found),
        is_entry(host, path, kind),
    ensures
        is_sound(
            host,
            Search::Controls { approved },
            visit_control(approved, path, kind, state).state.found,
        ),
{
    reveal(is_sound);
    let after = visit_control(approved, path, kind, state).state.found;
    assert forall|k: int| 0 <= k < after[0].len() implies is_control(
        host,
        approved,
        #[trigger] after[0][k],
    ) by {
        if k < state.found[0].len() {
            assert(after[0][k] == state.found[0][k]);
        } else {
            assert(after[0][k] == path);
            assert(!is_opened(path, approved));
        }
    }
}

proof fn lemma_with_match_sound(
    host: Host,
    regex: Seq<char>,
    list: Seq<Seq<char>>,
    path: Seq<char>,
    kind: EntryKind,
)
    requires
        in_order(Order::Path, list),
        forall|k: int| 0 <= k < list.len() ==> is_match(host, regex, #[trigger] list[k]),
        is_entry(host, path, kind),
        regex_hits(regex, path),
    ensures
        in_order(Order::Path, with_match(host, list, path)),
        forall|k: int|
            0 <= k < with_match(host, list, path).len() ==> is_match(
                host,
                regex,
                #[trigger] with_match(host, list, path)[k],
            ),
{
    let direct = insertion(Order::Path, list, path);
    let all = with_match(host, list, path);
    insertion_adds_one_item(Order::Path, list, path);
    if host.paths.contains_key(path) && host.paths[path].canonical is Ok {
        insertion_adds_one_item(Order::Path, direct, host.paths[path].canonical->Ok_0);
    }
    assert forall|k: int| 0 <= k < all.len() implies is_match(host, regex, #[trigger] all[k]) by {
        assert(item_same(Order::Path, all[k], all[k]));
        assert(holds(Order::Path, all, all[k]));
        if holds(Order::Path, list, all[k]) {
            let m = choose|m: int|
                0 <= m < list.len() && item_same(Order::Path, #[trigger] list[m], all[k]);
            let hit = choose|hit: Seq<char>|
                {
                    &&& #[trigger] regex_accepts(regex, hit)
                    &&& regex_error(regex) is None
                    &&& exists|kind: EntryKind| #[trigger] is_entry(host, hit, kind)
                    &&& components(list[m]) == components(hit) || (host.paths[hit].canonical is Ok
                        && components(list[m]) == components(host.paths[hit].canonical->Ok_0))
                };
            assert(regex_accepts(regex, hit));
            assert(components(all[k]) == components(list[m]));
        } else {
            assert(regex_accepts(regex, path));
        }
    }
}

proof fn lemma_visit_globs_sound(
    host: Host,
    regexes: Seq<Seq<char>>,
    patterns: Seq<Seq<char>>,
    path: Seq<char>,
    kind: EntryKind,
    state: ScanState,
    n: nat,
)
    requires
        n <= regexes.len(),
        is_sound(host, Search::Globs { regexes, patterns }, state.found),
        is_ordered(Search::Globs { regexes, patterns }, state.found),
        is_entry(host, path, kind),
    ensures
        is_sound(
            host,
            Search::Globs { regexes, patterns },
            visit_globs(host, regexes, patterns, path, state, n).state.found,
        ),
        is_ordered(
            Search::Globs { regexes, patterns },
            visit_globs(host, regexes, patterns, path, state, n).state.found,
        ),
    decreases n,
{
    reveal(is_sound);
    if n > 0 {
        lemma_visit_globs_sound(host, regexes, patterns, path, kind, state, (n - 1) as nat);
        let before = visit_globs(host, regexes, patterns, path, state, (n - 1) as nat);
        let after = visit_globs(host, regexes, patterns, path, state, n).state.found;
        let found = before.state.found;
        if before.failure is None && regex_hits(regexes[n - 1], path) {
            let list = found[n - 1];
            assert forall|k: int| 0 <= k < list.len() implies is_match(
                host,
                regexes[n - 1],
                #[trigger] list[k],
            ) by {
                assert(found[n - 1][k] == list[k]);
            }
            lemma_with_match_sound(host, regexes[n - 1], list, path, kind);
            assert(after == found.update(n - 1, with_match(host, list, path)));
            assert forall|i: int, k: int|
                0 <= i < regexes.len() && 0 <= k < after[i].len() implies is_match(
                host,
                regexes[i],
                #[trigger] after[i][k],
            ) by {
                if i != n - 1 {
                    assert(after[i] == found[i]);
                    assert(is_match(host, regexes[i], found[i][k]));
                }
            }
        }
    }
}

proof fn lemma_visit_sound(
    host: Host,
    search: Search,
    path: Seq<char>,
    kind: EntryKind,
    state: ScanState,
)
    requires
        is_sound(host, search, state.found),
        is_ordered(search, state.found),
        is_entry(host, path, kind),
    ensures
        is_sound(host, search, visit(host, search, path, kind, state).0.state.found),
        is_ordered(search, visit(host, search, path, kind, state).0.state.found),
{
    match search {
        Search::Controls { approved } => {
            lemma_visit_control_sound(host, approved, path, kind, state);
        },
        Search::Globs { regexes, patterns } => {
            lemma_visit_globs_sound(host, regexes, patterns, path, kind, state, regexes.len());
        },
    }
}

proof fn lemma_walk_sound(
    host: Host,
    search: Search,
    now: u64,
    directory: Seq<char>,
    depth: nat,
    state: ScanState,
)
    requires
        is_sound(host, search, state.found),
        is_ordered(search, state.found),
    ensures
        is_sound(host, search, walked(host, search, now, directory, depth, state).state.found),
        is_ordered(search, walked(host, search, now, directory, depth, state).state.found),
    decreases MAX_SCAN_DEPTH + 1 - depth, 1int, 0int,
{
    if depth <= MAX_SCAN_DEPTH && now <= state.budget.deadline && host.paths.contains_key(directory) {
        if let Ok(target) = host.paths[directory].target {
            if !state.visited.contains(file_key(target)) {
                let entered = ScanState {
                    visited: state.visited.insert(file_key(target)),
                    budget: state.budget.entered(),
                    ..state
                };
                if state.budget.visited_directories < state.budget.max_directories
                    && host.listings.contains_key(directory) {
                    if let Ok(entries) = host.listings[directory] {
                        lemma_walk_entries_sound(
                            host,
                            search,
                            now,
                            directory,
                            depth,
                            entered,
                            entries.len() as int,
                        );
                        assert(entries.take(entries.len() as int) =~= entries);
                    }
                }
            }
        }
    }
}

proof fn lemma_walk_entries_sound(
    host: Host,
    search: Search,
    now: u64,
    directory: Seq<char>,
    depth: nat,
    state: ScanState,
    n: int,
)
    requires
        depth <= MAX_SCAN_DEPTH,
        host.listings.contains_key(directory),
        host.listings[directory] is Ok,
        0 <= n <= host.listings[directory]->Ok_0.len(),
        is_sound(host, search, state.found),
        is_ordered(search, state.found),
    ensures
        ({
            let entries = host.listings[directory]->Ok_0.take(n);
            let step = walked_entries(host, search, now, directory, depth, state, entries);
            &&& is_sound(host, search, step.state.found)
            &&& is_ordered(search, step.state.found)
        }),
    decreases MAX_SCAN_DEPTH + 1 - depth, 0int, n,
{
    let listed = host.listings[directory]->Ok_0;
    let entries = listed.take(n);
    if n > 0 {
        assert(entries.drop_last() =~= listed.take(n - 1));
        lemma_walk_entries_sound(host, search, now, directory, depth, state, n - 1);
        let before = walked_entries(
            host,
            search,
            now,
            directory,
            depth,
            state,
            listed.take(n - 1),
        );
        assert(entries.last() == listed[n - 1]);
        if before.failure is None {
            let counted = ScanState {
                budget: before.state.budget.inspected(),
                ..before.state
            };
            if let EntryModel::Entry { name, kind: Ok(kind) } = entries.last() {
                let path = pushed(directory, name);
                assert(is_entry(host, path, kind)) by {
                    assert(host.listings[directory]->Ok_0[n - 1] == entries.last());
                }
                lemma_visit_sound(host, search, path, kind, counted);
                let (seen, enter) = visit(host, search, path, kind, counted);
                if seen.failure is None && enter {
                    lemma_walk_sound(host, search, now, path, depth + 1, seen.state);
                }
            }
        }
    }
}

proof fn lemma_trees_sound(
    host: Host,
    search: Search,
    now: u64,
    roots: Seq<Seq<char>>,
    state: ScanState,
)
    requires
        is_sound(host, search, state.found),
        is_ordered(search, state.found),
    ensures
        is_sound(host, search, trees_walked(host, search, now, roots, state).state.found),
        is_ordered(search, trees_walked(host, search, now, roots, state).state.found),
    decreases roots.len(),
{
    if roots.len() > 0 {
        lemma_trees_sound(host, search, now, roots.drop_last(), state);
        let before = trees_walked(host, search, now, roots.drop_last(), state);
        let root = roots.last();
        if before.failure is None && host.paths.contains_key(root) && host.paths[root].is_dir() {
            lemma_walk_sound(
                host,
                search,
                now,
                root,
                0,
                ScanState { visited: Set::empty(), ..before.state },
            );
        }
    }
}

/// Only control directories are protected: each of them was listed, is no link, and is
/// called `.pi`, or `.git` and not approved.
pub proof fn only_control_directories_are_found(
    host: Host,
    now: u64,
    cwd: Seq<char>,
    approved: Seq<Seq<char>>,
    k: int,
)
    requires
        control_paths(host, now, cwd, approved) is Ok,
        0 <= k < control_paths(host, now, cwd, approved)->Ok_0.len(),
    ensures
        exists|path: Seq<char>|
            components(path) == components(control_paths(host, now, cwd, approved)->Ok_0[k])
                && #[trigger] is_control(host, approved, path),
{
    let search = Search::Controls { approved };
    let start = scan_start(host.deadline(ScanKind::Controls)->Ok_0, 1);
    assert(is_sound(host, search, start.found)) by {
        reveal(is_sound);
    }
    lemma_walk_sound(host, search, now, cwd, 0, start);
    let list = walked(host, search, now, cwd, 0, start).state.found[0];
    let paths = control_paths(host, now, cwd, approved)->Ok_0;
    collected_is_a_set(Order::Path, list);
    assert(item_same(Order::Path, paths[k], paths[k]));
    assert(holds(Order::Path, paths, paths[k]));
    assert(holds(Order::Path, list, paths[k]));
    let m = choose|m: int|
        0 <= m < list.len() && item_same(Order::Path, #[trigger] list[m], paths[k]);
    reveal(is_sound);
    assert(is_control(host, approved, list[m]));
}

/// Only matches are found: each path among the matches of a glob was listed and is
/// accepted by the glob's expression, or is what such a path leads to.
pub proof fn only_matches_are_found(
    host: Host,
    now: u64,
    patterns: Seq<Seq<char>>,
    cwd: Seq<char>,
    i: int,
    k: int,
)
    requires
        glob_matches(host, now, patterns, cwd) is Ok,
        0 <= i < patterns.len(),
        0 <= k < glob_matches(host, now, patterns, cwd)->Ok_0[i].len(),
    ensures
        scan_regex(patterns[i]) is Ok,
        is_match(
            host,
            scan_regex(patterns[i])->Ok_0,
            glob_matches(host, now, patterns, cwd)->Ok_0[i][k],
        ),
{
    let regexes = each(patterns, regex_step())->Ok_0;
    let roots = collected(Order::Path, each(patterns, root_step(cwd))->Ok_0);
    let search = Search::Globs { regexes, patterns };
    let start = scan_start(host.deadline(ScanKind::Globs)->Ok_0, patterns.len());
    lemma_each_all(patterns, regex_step());
    assert(is_sound(host, search, start.found)) by {
        reveal(is_sound);
    }
    lemma_trees_sound(host, search, now, roots, start);
    assert(regex_step()(patterns[i]) == Ok::<Seq<char>, HaltModel>(regexes[i]));
    reveal(is_sound);
    let found = glob_matches(host, now, patterns, cwd)->Ok_0;
    assert(is_match(host, regexes[i], found[i][k]));
}

/// Whether two files are the same.
pub open spec fn same_file(a: Target, b: Target) -> bool {
    a.device == b.device && a.inode == b.inode
}

proof fn lemma_file_key(a: Target, b: Target)
    requires
        file_key(a) == file_key(b),
    ensures
        same_file(a, b),
{
    let x = a.device * 0x1_0000_0000_0000_0000 + a.inode;
    let y = b.device * 0x1_0000_0000_0000_0000 + b.inode;
    assert(0 <= x <= u128::MAX);
    assert(0 <= y <= u128::MAX);
    assert(x == y);
}

/// Every control directory of a workspace is found: the workspace is among the
/// directories that were looked at; with each of them, so is every directory in it that
/// is not itself a control directory, or the same one by another path; and in each of
/// them whatever is called `.pi` is protected, and whatever is called `.git`, unless it
/// is at or below an approved path. None of these is a link.
pub proof fn every_control_directory_is_found(
    host: Host,
    now: u64,
    cwd: Seq<char>,
    approved: Seq<Seq<char>>,
) -> (tree: Set<Seq<char>>)
    requires
        control_paths(host, now, cwd, approved) is Ok,
    ensures
        tree.contains(cwd),
        forall|directory: Seq<char>, i: int| #[trigger]
            tree.contains(directory) ==> host.listings.contains_key(directory)
                && host.listings[directory] is Ok && (0 <= i < host.listings[directory]->Ok_0.len()
                ==> {
                &&& #[trigger] host.listings[directory]->Ok_0[i] matches EntryModel::Entry {
                    name,
                    kind: Ok(kind),
                }
                &&& is_absolute(directory) && is_entry_name(name) ==> {
                    let path = pushed(directory, name);
                    &&& name == ".pi"@ ==> kind != EntryKind::Symlink && is_among(
                        control_paths(host, now, cwd, approved)->Ok_0,
                        path,
                    )
                    &&& name == ".git"@ ==> kind != EntryKind::Symlink && (is_among(
                        control_paths(host, now, cwd, approved)->Ok_0,
                        path,
                    ) || exists|a: int|
                        0 <= a < approved.len() && lies_under(path, #[trigger] approved[a]))
                    &&& kind == EntryKind::Directory && name != ".pi"@ && name != ".git"@
                        ==> is_looked_at(host, tree, path)
                }
            }),
{
    let tree = no_control_directory_is_missed(host, now, cwd, approved);
    let search = Search::Controls { approved };
    let paths = control_paths(host, now, cwd, approved)->Ok_0;
    let found = seq![paths];
    reveal_strlit(".pi");
    reveal_strlit(".git");
    assert(".pi"@.len() == 3 && ".git"@.len() == 4);
    assert forall|directory: Seq<char>, i: int| #[trigger]
        tree.contains(directory) implies host.listings.contains_key(directory)
        && host.listings[directory] is Ok && (0 <= i < host.listings[directory]->Ok_0.len() ==> {
        &&& #[trigger] host.listings[directory]->Ok_0[i] matches EntryModel::Entry {
            name,
            kind: Ok(kind),
        }
        &&& is_absolute(directory) && is_entry_name(name) ==> {
            let path = pushed(directory, name);
            &&& name == ".pi"@ ==> kind != EntryKind::Symlink && is_among(paths, path)
            &&& name == ".git"@ ==> kind != EntryKind::Symlink && (is_among(paths, path) || exists|
                a: int,
            |
                0 <= a < approved.len() && lies_under(path, #[trigger] approved[a]))
            &&& kind == EntryKind::Directory && name != ".pi"@ && name != ".git"@ ==> is_looked_at(
                host,
                tree,
                path,
            )
        }
    }) by {
        assert(is_covered(host, search, directory, tree, found, None));
        if 0 <= i < host.listings[directory]->Ok_0.len() {
            let entry = host.listings[directory]->Ok_0[i];
            assert(entry is Entry);
            let name = entry->name;
            assert(entry->kind is Ok);
            let kind = entry->kind->Ok_0;
            let path = pushed(directory, name);
            if is_absolute(directory) && is_entry_name(name) {
                a_pushed_name_is_a_component(directory, name);
                assert(components(path).last() == name);
                if name == seq!['/'] {
                    assert(name[0] == '/');
                    assert(name.contains('/'));
                }
                assert(file_name_of(path) == Some(name) || name == seq!['.', '.']);
                assert(is_judged(host, search, path, kind, found, None));
                assert(found[0] == paths);
                if holds(Order::Path, paths, path) {
                    let k = choose|k: int|
                        0 <= k < paths.len() && item_same(Order::Path, #[trigger] paths[k], path);
                    assert(components(paths[k]) == components(path));
                }
                if enters(host, search, path, kind) {
                    let other = choose|other: Seq<char>|
                        tree.contains(other) && #[trigger] host.paths.contains_key(other)
                            && host.paths.contains_key(path) && host.paths[other].target is Ok
                            && has_key(
                            host,
                            path,
                            file_key(host.paths[other].target->Ok_0),
                        );
                    lemma_file_key(host.paths[path].target->Ok_0, host.paths[other].target->Ok_0);
                }
            }
        }
    }
    tree
}

/// Whether a list holds a path.
pub open spec fn is_among(list: Seq<Seq<char>>, path: Seq<char>) -> bool {
    exists|k: int| 0 <= k < list.len() && components(#[trigger] list[k]) == components(path)
}

/// Whether a directory was looked at, by this path or another.
pub open spec fn is_looked_at(host: Host, tree: Set<Seq<char>>, path: Seq<char>) -> bool {
    exists|other: Seq<char>|
        #[trigger] tree.contains(other) && host.paths[other].target is Ok
            && host.paths[path].target is Ok && same_file(
            host.paths[path].target->Ok_0,
            host.paths[other].target->Ok_0,
        )
}

/// Every match of a glob is found below a place that is looked at: the place is among
/// the directories that were looked at; with each of them, so is every directory in it
/// and every one that a link in it leads to, or the same one by another path; and each
/// path in one of them that a glob's expression accepts is among the glob's matches, and
/// so is what it leads to. Only links to directories of the immutable store are left
/// out.
pub proof fn every_match_is_found(
    host: Host,
    now: u64,
    patterns: Seq<Seq<char>>,
    cwd: Seq<char>,
    p: int,
    root: Seq<char>,
) -> (tree: Set<Seq<char>>)
    requires
        glob_matches(host, now, patterns, cwd) is Ok,
        0 <= p < patterns.len(),
        collected(
            Order::Path,
            each(patterns, root_step(cwd))->Ok_0,
        ).contains(root),
        host.paths[root].target is Ok,
        host.paths[root].target->Ok_0.kind == FileKind::Directory,
    ensures
        tree.contains(root),
        forall|directory: Seq<char>, i: int| #[trigger]
            tree.contains(directory) ==> host.listings.contains_key(directory)
                && host.listings[directory] is Ok && (0 <= i < host.listings[directory]->Ok_0.len()
                ==> {
                &&& #[trigger] host.listings[directory]->Ok_0[i] matches EntryModel::Entry {
                    name,
                    kind: Ok(kind),
                }
                &&& {
                    let path = pushed(directory, name);
                    let regex = scan_regex(patterns[p])->Ok_0;
                    let list = glob_matches(host, now, patterns, cwd)->Ok_0[p];
                    let linked = kind == EntryKind::Symlink && host.paths[path].target is Ok
                        && host.paths[path].target->Ok_0.kind == FileKind::Directory;
                    let stored = linked && host.paths[path].canonical is Ok && lies_under(
                        host.paths[path].canonical->Ok_0,
                        "/nix/store"@,
                    );
                    &&& !stored && regex_accepts(regex, path) ==> {
                        &&& is_among(list, path)
                        &&& host.paths[path].canonical is Ok ==> is_among(
                            list,
                            host.paths[path].canonical->Ok_0,
                        )
                    }
                    &&& kind == EntryKind::Directory ==> is_looked_at(host, tree, path)
                    &&& linked && !stored && host.paths.contains_key(path) ==> is_looked_at(
                        host,
                        tree,
                        path,
                    )
                }
            }),
{
    let tree = no_match_is_missed(host, now, patterns, cwd, root);
    let regexes = each(patterns, regex_step())->Ok_0;
    let search = Search::Globs { regexes, patterns };
    let found = glob_matches(host, now, patterns, cwd)->Ok_0;
    lemma_each_all(patterns, regex_step());
    assert(regex_step()(patterns[p]) == Ok::<Seq<char>, HaltModel>(regexes[p]));
    assert(compiled_regex(patterns[p]) is Ok);
    let regex = scan_regex(patterns[p])->Ok_0;
    assert(regexes[p] == regex && regex_error(regex) is None);
    let list = found[p];
    assert forall|directory: Seq<char>, i: int| #[trigger]
        tree.contains(directory) implies host.listings.contains_key(directory)
        && host.listings[directory] is Ok && (0 <= i < host.listings[directory]->Ok_0.len() ==> {
        &&& #[trigger] host.listings[directory]->Ok_0[i] matches EntryModel::Entry {
            name,
            kind: Ok(kind),
        }
        &&& {
            let path = pushed(directory, name);
            let linked = kind == EntryKind::Symlink && host.paths[path].target is Ok
                && host.paths[path].target->Ok_0.kind == FileKind::Directory;
            let stored = linked && host.paths[path].canonical is Ok && lies_under(
                host.paths[path].canonical->Ok_0,
                "/nix/store"@,
            );
            &&& !stored && regex_accepts(regex, path) ==> {
                &&& is_among(list, path)
                &&& host.paths[path].canonical is Ok ==> is_among(
                    list,
                    host.paths[path].canonical->Ok_0,
                )
            }
            &&& kind == EntryKind::Directory ==> is_looked_at(host, tree, path)
            &&& linked && !stored && host.paths.contains_key(path) ==> is_looked_at(
                host,
                tree,
                path,
            )
        }
    }) by {
        assert(is_covered(host, search, directory, tree, found, None));
        if 0 <= i < host.listings[directory]->Ok_0.len() {
            let entry = host.listings[directory]->Ok_0[i];
            assert(entry is Entry);
            let name = entry->name;
            assert(entry->kind is Ok);
            let kind = entry->kind->Ok_0;
            let path = pushed(directory, name);
            assert(is_judged(host, search, path, kind, found, None));
            if !leads_to_store(host, path, kind) && regex_accepts(regex, path) {
                assert(regex_hits(regexes[p], path));
                assert(match_listed(host, found[p], path));
                lemma_holds_among(list, path);
                if let Ok(canonical) = host.paths[path].canonical {
                    lemma_holds_among(list, canonical);
                }
            }
            if enters(host, search, path, kind) {
                let other = choose|other: Seq<char>|
                    tree.contains(other) && #[trigger] host.paths.contains_key(other)
                        && host.paths.contains_key(path) && host.paths[other].target is Ok
                        && has_key(
                        host,
                        path,
                        file_key(host.paths[other].target->Ok_0),
                    );
                lemma_file_key(host.paths[path].target->Ok_0, host.paths[other].target->Ok_0);
            }
        }
    }
    tree
}

proof fn lemma_holds_among(list: Seq<Seq<char>>, path: Seq<char>)
    requires
        holds(Order::Path, list, path),
    ensures
        is_among(list, path),
{
    let k = choose|k: int|
        0 <= k < list.len() && item_same(Order::Path, #[trigger] list[k], path);
    assert(components(list[k]) == components(path));
}

/// A control directory that is found is noted, up to eight thousand one hundred and
/// ninety-two of them; one more stops the scan.
pub proof fn control_directories_are_counted(
    approved: Seq<Seq<char>>,
    path: Seq<char>,
    kind: EntryKind,
    state: ScanState,
)
    requires
        kind != EntryKind::Symlink,
        file_name_of(path) == Some(".pi"@),
        state.found.len() > 0,
    ensures
        visit_control(approved, path, kind, state).failure is Some <==> state.found[0].len()
            >= 8_192,
        visit_control(approved, path, kind, state).state.found[0] == state.found[0].push(path),
{
    reveal_strlit(".pi");
    reveal_strlit(".git");
    assert(".pi"@.len() != ".git"@.len());
}

/// A glob's matches are counted, and more than eight thousand one hundred and ninety-two
/// stop the scan.
pub proof fn matches_are_counted(
    host: Host,
    regexes: Seq<Seq<char>>,
    patterns: Seq<Seq<char>>,
    path: Seq<char>,
    state: ScanState,
    n: nat,
)
    requires
        n > 0,
        n <= state.found.len(),
        visit_globs(host, regexes, patterns, path, state, (n - 1) as nat).failure is None,
        visit_globs(host, regexes, patterns, path, state, (n - 1) as nat).state.found.len()
            == state.found.len(),
        regex_error(regexes[n - 1]) is None,
        regex_accepts(regexes[n - 1], path),
    ensures
        visit_globs(host, regexes, patterns, path, state, n).failure is Some <==> visit_globs(
            host,
            regexes,
            patterns,
            path,
            state,
            n,
        ).state.found[n - 1].len() > 8_192,
{
}

} // verus!
