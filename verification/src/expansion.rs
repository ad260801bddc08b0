//! What scans of the filesystem find: the control directories of a workspace,
//! and the paths that deny globs match.

use std::collections::HashSet;

use vstd::prelude::*;
use vstd::string::*;

use crate::facts::{
    decided, decided_all, each, lemma_each_step, models, refusal, refused, Decision, Facts, Halt,
    HaltModel, Host, Probe, ProbeModel, ScanKind,
};
use crate::globs::{glob_regex, scan_regex};
use crate::order::{collected, collected_is_a_set, insert_item, Order};
use crate::outside::{regex_error, regex_problem};
use crate::paths::{paths_equal, same_path};
use crate::scan::{
    lists, scan_ready, walk, walked, Scan, ScanBudget, ScanState, Search, Step, Visitor,
    MAX_SCAN_DIRECTORIES,
};
use crate::text::{chars_of, copy_texts, joined, text_of, texts};

verus! {

/// The start of a scan with `n` lists to fill.
pub open spec fn scan_start(deadline: u64, n: nat) -> ScanState {
    ScanState {
        budget: ScanBudget {
            deadline,
            inspected_entries: 0,
            visited_directories: 0,
            max_directories: MAX_SCAN_DIRECTORIES,
        },
        visited: Set::empty(),
        found: Seq::new(n, |i: int| Seq::empty()),
        link: None,
        wanted: Seq::empty(),
    }
}

fn start_scan(deadline: u64, n: usize) -> (scan: Scan)
    ensures
        scan@ == scan_start(deadline, n as nat),
{
    broadcast use vstd::std_specs::hash::group_hash_axioms;

    let mut found: Vec<Vec<String>> = Vec::new();
    let ghost empty: Seq<Seq<Seq<char>>> = Seq::new(n as nat, |i: int| Seq::empty());
    let mut i: usize = 0;
    while i < n
        invariant
            i <= n,
            empty == Seq::new(n as nat, |i: int| Seq::<Seq<char>>::empty()),
            lists(found@) == empty.take(i as int),
        decreases n - i,
    {
        let list: Vec<String> = Vec::new();
        assert(texts(list@) =~= Seq::empty());
        let ghost before = lists(found@);
        found.push(list);
        i = i + 1;
        assert(lists(found@) =~= before.push(Seq::empty()));
        assert(empty.take(i as int) =~= empty.take(i - 1).push(Seq::empty()));
    }
    assert(empty.take(n as int) =~= empty);
    let scan = Scan {
        budget: ScanBudget::new(deadline),
        visited: HashSet::new(),
        found,
        link: None,
        wanted: Vec::new(),
    };
    assert(scan@.wanted =~= Seq::empty());
    assert(scan@.visited =~= Set::empty());
    assert(scan@.found == scan_start(deadline, n as nat).found);
    scan
}

/// What a scan came to: missing facts come first, then the reason for which it
/// stopped, then its state.
pub open spec fn scan_outcome(step: Step) -> Decision<ScanState> {
    if step.state.wanted.len() > 0 {
        Err(HaltModel::Probe(step.state.wanted))
    } else {
        match step.failure {
            Some(reason) => refusal(reason),
            None => Ok(step.state),
        }
    }
}

fn finish_scan(scan: Scan, result: Result<(), String>) -> (outcome: Result<Scan, Halt>)
    ensures
        decided(outcome) == scan_outcome(
            Step {
                state: scan@,
                failure: match result {
                    Ok(_) => None,
                    Err(reason) => Some(reason@),
                },
            },
        ),
{
    assert(models(scan.wanted@).len() == scan.wanted@.len());
    if scan.wanted.len() > 0 {
        return Err(Halt::Probe(scan.wanted));
    }
    match result {
        Ok(_) => Ok(scan),
        Err(reason) => Err(refused(reason)),
    }
}

/// The control directories of a workspace outside approved ones, in order.
pub open spec fn control_paths(host: Host, now: u64, cwd: Seq<char>, approved: Seq<Seq<char>>) -> Decision<
    Seq<Seq<char>>,
> {
    match host.deadline(ScanKind::Controls) {
        Err(halt) => Err(halt),
        Ok(deadline) => match scan_outcome(
            walked(
                host,
                Search::Controls { approved },
                now,
                cwd,
                0,
                scan_start(deadline, 1),
            ),
        ) {
            Err(halt) => Err(halt),
            Ok(state) => match state.link {
                Some(path) => refusal(
                    "cannot enforce writable workspace control symlink: "@ + path,
                ),
                None => Ok(collected(Order::Path, state.found[0])),
            },
        },
    }
}

/// Puts a list in order, each item once.
pub fn collect_items(order: Order, items: &Vec<String>) -> (list: Vec<String>)
    ensures
        texts(list@) == collected(order, texts(items@)),
{
    let ghost all = texts(items@);
    let mut list: Vec<String> = Vec::new();
    let mut i: usize = 0;
    assert(all.take(0) =~= Seq::empty());
    assert(texts(list@) =~= Seq::empty());
    while i < items.len()
        invariant
            i <= items@.len(),
            all == texts(items@),
            texts(list@) == collected(order, all.take(i as int)),
        decreases items@.len() - i,
    {
        proof {
            collected_is_a_set(order, all.take(i as int));
        }
        insert_item(order, &mut list, items[i].clone());
        i = i + 1;
        assert(all.take(i as int).drop_last() =~= all.take(i - 1));
        assert(all.take(i as int).last() == items@[i - 1]@);
    }
    assert(all.take(i as int) =~= all);
    list
}

/// Finds the control directories of a workspace outside approved ones.
///
/// # Errors
///
/// Refuses a workspace that cannot be scanned within bounds or whose control
/// directories are symbolic links, and asks for the facts that are missing.
pub fn protected_workspace_paths(cwd: &str, approved: &Vec<String>, facts: &Facts, now: u64) -> (
result: Result<Vec<String>, Halt>)
    ensures
        decided_all(result) == control_paths(facts@, now, cwd@, texts(approved@)),
{
    let deadline = match facts.deadline(ScanKind::Controls) {
        Ok(deadline) => deadline,
        Err(halt) => {
            return Err(halt);
        },
    };
    let mut scan = start_scan(deadline, 1);
    let visitor = Visitor::Controls { approved: copy_texts(approved) };
    let result = walk(cwd, 0, now, &visitor, facts, &mut scan);
    let ghost ended = scan@;
    let scan = match finish_scan(scan, result) {
        Ok(scan) => scan,
        Err(halt) => {
            return Err(halt);
        },
    };
    if let Some(path) = &scan.link {
        return Err(
            refused(joined("cannot enforce writable workspace control symlink: ", path.as_str())),
        );
    }
    assert(scan@.found[0] == texts(scan.found@[0]@));
    let list = collect_items(Order::Path, &scan.found[0]);
    assert(models(list@) =~= texts(list@));
    Ok(list)
}

/// Whether `c` makes a pattern a glob.
pub open spec fn is_glob_char(c: char) -> bool {
    c == '*' || c == '?' || c == '['
}

/// The index of the first glob character at or behind `from`.
pub open spec fn first_glob_char(pattern: Seq<char>, from: int) -> Option<int>
    decreases pattern.len() - from,
{
    if from < 0 || from >= pattern.len() {
        None
    } else if is_glob_char(pattern[from]) {
        Some(from)
    } else {
        first_glob_char(pattern, from + 1)
    }
}

/// The index of the last separator in `text`, or 0.
pub open spec fn last_slash(text: Seq<char>) -> int
    decreases text.len(),
{
    if text.len() == 0 {
        0
    } else if text.last() == '/' {
        text.len() - 1
    } else {
        last_slash(text.drop_last())
    }
}

/// Where the matches of a glob are looked for: below its longest directory
/// without glob characters, or below the workspace where that is the root.
/// Scans of the whole filesystem are never made.
pub open spec fn scan_root(pattern: Seq<char>, cwd: Seq<char>) -> Decision<Seq<char>> {
    match first_glob_char(pattern, 0) {
        None => refusal("glob deny has no metacharacter: "@ + pattern),
        Some(first) => {
            let end = last_slash(pattern.take(first));
            let root = if end == 0 {
                seq!['/']
            } else {
                pattern.take(end)
            };
            if same_path(root, seq!['/']) {
                Ok(cwd)
            } else {
                Ok(root)
            }
        },
    }
}

/// Where the matches of a glob are looked for.
///
/// # Errors
///
/// Refuses a pattern without glob characters.
pub fn glob_scan_roots(pattern: &str, cwd: &str) -> (result: Result<String, Halt>)
    ensures
        decided(result) == scan_root(pattern@, cwd@),
{
    let chars = chars_of(pattern);
    let mut first: usize = 0;
    while first < chars.len() && !(chars[first] == '*' || chars[first] == '?' || chars[first]
        == '[')
        invariant
            first <= chars@.len(),
            first_glob_char(chars@, 0) == first_glob_char(chars@, first as int),
        decreases chars@.len() - first,
    {
        first = first + 1;
    }
    if first == chars.len() {
        return Err(refused(joined("glob deny has no metacharacter: ", pattern)));
    }
    assert(first_glob_char(chars@, 0) == Some(first as int));
    let ghost prefix = pattern@.take(first as int);
    let mut n: usize = first;
    assert(prefix.take(n as int) =~= prefix);
    while n > 0 && chars[n - 1] != '/'
        invariant
            n <= first <= chars@.len(),
            chars@ == pattern@,
            prefix == pattern@.take(first as int),
            last_slash(prefix) == last_slash(prefix.take(n as int)),
        decreases n,
    {
        n = n - 1;
        assert(prefix.take(n + 1).drop_last() =~= prefix.take(n as int));
    }
    let end: usize = if n > 0 {
        n - 1
    } else {
        0
    };
    assert(end == last_slash(prefix));
    let root = if end == 0 {
        let mut root = String::new();
        root.push('/');
        assert(root@ =~= seq!['/']);
        root
    } else {
        text_of(&chars, 0, end)
    };
    assert(end != 0 ==> root@ =~= pattern@.take(end as int));
    proof {
        reveal_strlit("/");
        assert("/"@ =~= seq!['/']);
    }
    if paths_equal(root.as_str(), "/") {
        Ok(cwd.to_owned())
    } else {
        Ok(root)
    }
}

/// A scan of several trees, one after the other.
pub open spec fn trees_walked(
    host: Host,
    search: Search,
    now: u64,
    roots: Seq<Seq<char>>,
    state: ScanState,
) -> Step
    decreases roots.len(),
{
    if roots.len() == 0 {
        state.go()
    } else {
        let before = trees_walked(host, search, now, roots.drop_last(), state);
        let root = roots.last();
        if before.failure is Some {
            before
        } else if !host.paths.contains_key(root) {
            before.state.want(ProbeModel::Path(root)).want(ProbeModel::Listing(root)).go()
        } else if !host.paths[root].is_dir() {
            before
        } else {
            walked(
                host,
                search,
                now,
                root,
                0,
                ScanState { visited: Set::empty(), ..before.state },
            )
        }
    }
}

proof fn lemma_trees_stay(
    host: Host,
    search: Search,
    now: u64,
    roots: Seq<Seq<char>>,
    state: ScanState,
    from: int,
)
    requires
        0 <= from <= roots.len(),
        trees_walked(host, search, now, roots.take(from), state).failure is Some,
    ensures
        trees_walked(host, search, now, roots, state) == trees_walked(
            host,
            search,
            now,
            roots.take(from),
            state,
        ),
    decreases roots.len() - from,
{
    if from == roots.len() {
        assert(roots.take(from) =~= roots);
    } else {
        assert(roots.take(from + 1).drop_last() =~= roots.take(from));
        lemma_trees_stay(host, search, now, roots, state, from + 1);
    }
}

fn walk_trees(roots: &Vec<String>, now: u64, visitor: &Visitor, facts: &Facts, scan: &mut Scan) -> (
result: Result<(), String>)
    requires
        scan_ready(old(scan)@, visitor@),
    ensures
        trees_walked(facts@, visitor@, now, texts(roots@), old(scan)@) == (Step {
            state: final(scan)@,
            failure: match result {
                Ok(_) => None,
                Err(reason) => Some(reason@),
            },
        }),
        result is Ok ==> scan_ready(final(scan)@, visitor@),
{
    broadcast use vstd::std_specs::hash::group_hash_axioms;

    let ghost start = scan@;
    let ghost all = texts(roots@);
    let mut i: usize = 0;
    assert(all.take(0) =~= Seq::empty());
    while i < roots.len()
        invariant
            i <= roots@.len(),
            start == old(scan)@,
            all == texts(roots@),
            scan_ready(scan@, visitor@),
            trees_walked(facts@, visitor@, now, all.take(i as int), start) == scan@.go(),
        decreases roots@.len() - i,
    {
        broadcast use vstd::std_specs::hash::group_hash_axioms;

        let root = roots[i].as_str();
        i = i + 1;
        assert(all.take(i as int).drop_last() =~= all.take(i - 1));
        assert(all.take(i as int).last() == root@);
        let ghost before = scan@;
        match facts.path(root) {
            Ok(known) => {
                if known.is_dir() {
                    scan.visited = HashSet::new();
                    assert(scan@.visited =~= Set::empty());
                    assert(scan@ == (ScanState { visited: Set::empty(), ..before }));
                    match walk(root, 0, now, visitor, facts, scan) {
                        Ok(_) => {},
                        Err(reason) => {
                            proof {
                                lemma_trees_stay(facts@, visitor@, now, all, start, i as int);
                            }
                            return Err(reason);
                        },
                    }
                }
            },
            Err(_) => {
                scan.wanted.push(Probe::Path(root.to_owned()));
                scan.wanted.push(Probe::Listing(root.to_owned()));
                assert(scan@.wanted =~= before.wanted.push(ProbeModel::Path(root@)).push(
                    ProbeModel::Listing(root@),
                ));
            },
        }
    }
    assert(all.take(i as int) =~= all);
    Ok(())
}

/// The regular expression of a glob, compiled.
pub open spec fn compiled_regex(pattern: Seq<char>) -> Decision<Seq<char>> {
    match scan_regex(pattern) {
        Err(error) => refusal(error),
        Ok(regex) => match regex_error(regex) {
            Some(error) => refusal(error),
            None => Ok(regex),
        },
    }
}

/// How globs become regular expressions.
pub open spec fn regex_step() -> spec_fn(Seq<char>) -> Decision<Seq<char>> {
    |pattern: Seq<char>| compiled_regex(pattern)
}

/// How the places to look for matches are found.
pub open spec fn root_step(cwd: Seq<char>) -> spec_fn(Seq<char>) -> Decision<Seq<char>> {
    |pattern: Seq<char>| scan_root(pattern, cwd)
}

/// The paths that each of several globs matches, in order. The trees are first
/// surveyed without looking at names, so that all of their directories are
/// asked for before the first name is matched.
pub open spec fn glob_matches(
    host: Host,
    now: u64,
    patterns: Seq<Seq<char>>,
    cwd: Seq<char>,
) -> Decision<Seq<Seq<Seq<char>>>> {
    match each(patterns, regex_step()) {
        Err(halt) => Err(halt),
        Ok(regexes) => match each(patterns, root_step(cwd)) {
            Err(halt) => Err(halt),
            Ok(places) => {
                let roots = collected(Order::Path, places);
                match host.deadline(ScanKind::Globs) {
                    Err(halt) => Err(halt),
                    Ok(deadline) => {
                        let none = Seq::<Seq<char>>::empty();
                        let survey = trees_walked(
                            host,
                            Search::Globs { regexes: none, patterns: none },
                            now,
                            roots,
                            scan_start(deadline, 0),
                        );
                        if survey.state.wanted.len() > 0 {
                            Err(HaltModel::Probe(survey.state.wanted))
                        } else {
                            match scan_outcome(
                                trees_walked(
                                    host,
                                    Search::Globs { regexes, patterns },
                                    now,
                                    roots,
                                    scan_start(deadline, patterns.len()),
                                ),
                            ) {
                                Err(halt) => Err(halt),
                                Ok(state) => Ok(state.found),
                            }
                        }
                    },
                }
            },
        },
    }
}

fn compile_globs(patterns: &Vec<String>) -> (result: Result<Vec<String>, Halt>)
    ensures
        decided_all(result) == each(texts(patterns@), regex_step()),
        result is Ok ==> result->Ok_0@.len() == patterns@.len(),
{
    let ghost all = texts(patterns@);
    let ghost step = regex_step();
    let mut regexes: Vec<String> = Vec::new();
    let mut i: usize = 0;
    assert(all.take(0) =~= Seq::empty());
    assert(models(regexes@) =~= Seq::empty());
    while i < patterns.len()
        invariant
            i <= patterns@.len(),
            regexes@.len() == i,
            all == texts(patterns@),
            step == regex_step(),
            each(all.take(i as int), step) == Ok::<Seq<Seq<char>>, HaltModel>(models(regexes@)),
        decreases patterns@.len() - i,
    {
        proof {
            lemma_each_step(all, step, i as int);
        }
        assert(all[i as int] == patterns@[i as int]@);
        let ghost before = models(regexes@);
        let regex = match glob_regex(patterns[i].as_str()) {
            Ok(regex) => regex,
            Err(error) => {
                return Err(refused(error));
            },
        };
        match regex_problem(regex.as_str()) {
            Some(error) => {
                return Err(refused(error));
            },
            None => {},
        }
        regexes.push(regex);
        i = i + 1;
        assert(models(regexes@) =~= before.push(regex@));
    }
    assert(all.take(i as int) =~= all);
    Ok(regexes)
}

fn find_scan_roots(patterns: &Vec<String>, cwd: &str) -> (result: Result<Vec<String>, Halt>)
    ensures
        match result {
            Ok(roots) => each(texts(patterns@), root_step(cwd@)) is Ok && texts(roots@)
                == collected(Order::Path, each(texts(patterns@), root_step(cwd@))->Ok_0),
            Err(halt) => each(texts(patterns@), root_step(cwd@)) == Err::<
                Seq<Seq<char>>,
                HaltModel,
            >(halt@),
        },
{
    let ghost all = texts(patterns@);
    let ghost step = root_step(cwd@);
    let mut roots: Vec<String> = Vec::new();
    let mut i: usize = 0;
    assert(all.take(0) =~= Seq::empty());
    assert(texts(roots@) =~= Seq::empty());
    while i < patterns.len()
        invariant
            i <= patterns@.len(),
            all == texts(patterns@),
            step == root_step(cwd@),
            each(all.take(i as int), step) is Ok,
            texts(roots@) == collected(Order::Path, each(all.take(i as int), step)->Ok_0),
        decreases patterns@.len() - i,
    {
        proof {
            lemma_each_step(all, step, i as int);
            collected_is_a_set(Order::Path, each(all.take(i as int), step)->Ok_0);
        }
        assert(all[i as int] == patterns@[i as int]@);
        let ghost before = each(all.take(i as int), step)->Ok_0;
        let root = match glob_scan_roots(patterns[i].as_str(), cwd) {
            Ok(root) => root,
            Err(halt) => {
                return Err(halt);
            },
        };
        insert_item(Order::Path, &mut roots, root);
        i = i + 1;
        assert(before.push(root@).drop_last() =~= before);
    }
    assert(all.take(i as int) =~= all);
    Ok(roots)
}

/// Finds the paths that each of several globs matches.
///
/// # Errors
///
/// Refuses globs that cannot be translated and trees that cannot be scanned
/// within bounds, and asks for the facts that are missing.
pub fn expand_globs(patterns: &Vec<String>, cwd: &str, facts: &Facts, now: u64) -> (result: Result<
    Vec<Vec<String>>,
    Halt,
>)
    ensures
        match result {
            Ok(found) => glob_matches(facts@, now, texts(patterns@), cwd@) == Ok::<
                Seq<Seq<Seq<char>>>,
                HaltModel,
            >(lists(found@)),
            Err(halt) => glob_matches(facts@, now, texts(patterns@), cwd@) == Err::<
                Seq<Seq<Seq<char>>>,
                HaltModel,
            >(halt@),
        },
{
    let regexes = match compile_globs(patterns) {
        Ok(regexes) => regexes,
        Err(halt) => {
            return Err(halt);
        },
    };
    assert(models(regexes@) =~= texts(regexes@));
    let roots = match find_scan_roots(patterns, cwd) {
        Ok(roots) => roots,
        Err(halt) => {
            return Err(halt);
        },
    };
    let deadline = match facts.deadline(ScanKind::Globs) {
        Ok(deadline) => deadline,
        Err(halt) => {
            return Err(halt);
        },
    };
    let survey = Visitor::Globs { regexes: Vec::new(), patterns: Vec::new() };
    assert(survey@ == (Search::Globs { regexes: Seq::empty(), patterns: Seq::empty() })) by {
        assert(texts(Seq::<String>::empty()) =~= Seq::empty());
    }
    let mut scan = start_scan(deadline, 0);
    let _ = walk_trees(&roots, now, &survey, facts, &mut scan);
    assert(models(scan.wanted@).len() == scan.wanted@.len());
    if scan.wanted.len() > 0 {
        return Err(Halt::Probe(scan.wanted));
    }
    assert(texts(regexes@).len() == regexes@.len());
    assert(texts(patterns@).len() == patterns@.len());
    let visitor = Visitor::Globs { regexes, patterns: copy_texts(patterns) };
    let mut scan = start_scan(deadline, patterns.len());
    let result = walk_trees(&roots, now, &visitor, facts, &mut scan);
    match finish_scan(scan, result) {
        Ok(scan) => Ok(scan.found),
        Err(halt) => Err(halt),
    }
}

} // verus!
