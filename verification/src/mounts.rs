//! Which denied paths become mounts on Linux, and in what order.

use vstd::prelude::*;
use vstd::string::*;

use crate::expansion::{expand_globs, glob_matches};
use crate::facts::{
    decided, each, lemma_each_step, models, refusal, refused, Decision, Facts, Halt, HaltModel,
    Host, Probe, ProbeModel,
};
use crate::order::{in_order, insertion_at, item_less, locate, order_is_total, Order};
use crate::paths::{components, lies_under, path_starts_with, same_path};
use crate::protocol::{DeniedAccess, DenyScope};
use crate::scan::lists;
use crate::seatbelt::{is_under_any, under_any, Deny, NormalizedDeny, NormalizedRight, Right};
use crate::text::{joined, joined4, texts};

verus! {

/// A path that is denied as it stands.
#[derive(Debug, PartialEq, Eq)]
pub struct ConcreteDeny {
    pub access: DeniedAccess,
    pub path: String,
}

/// A path that is denied as it stands.
pub struct DeniedPath {
    pub access: DeniedAccess,
    pub path: Seq<char>,
}

impl View for ConcreteDeny {
    type V = DeniedPath;

    open spec fn view(&self) -> DeniedPath {
        DeniedPath { access: self.access, path: self.path@ }
    }
}

/// The paths of several denies.
pub open spec fn paths_of(denies: Seq<DeniedPath>) -> Seq<Seq<char>> {
    Seq::new(denies.len(), |i: int| denies[i].path)
}

/// What two denies of one path amount to.
pub open spec fn merged(left: DeniedAccess, right: DeniedAccess) -> DeniedAccess {
    if left == right {
        left
    } else {
        DeniedAccess::ReadWrite
    }
}

/// What two denies of one path amount to.
pub fn merge_denied_access(left: DeniedAccess, right: DeniedAccess) -> (both: DeniedAccess)
    ensures
        both == merged(left, right),
{
    if left == right {
        left
    } else {
        DeniedAccess::ReadWrite
    }
}

/// Denied paths in order with one more of them: at its place, or merged into
/// the deny that the path has already.
pub open spec fn deny_insertion(table: Seq<DeniedPath>, deny: DeniedPath) -> Seq<DeniedPath>
    decreases table.len(),
{
    if table.len() == 0 {
        seq![deny]
    } else {
        let last = table.last();
        if same_path(last.path, deny.path) {
            table.drop_last().push(
                DeniedPath { access: merged(last.access, deny.access), path: last.path },
            )
        } else if item_less(Order::Path, last.path, deny.path) {
            table.push(deny)
        } else {
            deny_insertion(table.drop_last(), deny).push(last)
        }
    }
}

/// Denied paths, in order, each path once.
pub struct DenyTable {
    paths: Vec<String>,
    accesses: Vec<DeniedAccess>,
}

impl View for DenyTable {
    type V = Seq<DeniedPath>;

    closed spec fn view(&self) -> Seq<DeniedPath> {
        Seq::new(
            self.paths@.len(),
            |i: int| DeniedPath { access: self.accesses@[i], path: self.paths@[i]@ },
        )
    }
}

proof fn lemma_table_paths(table: DenyTable)
    ensures
        paths_of(table@) == texts(table.paths@),
{
    assert(paths_of(table@) =~= texts(table.paths@));
}

proof fn lemma_found(table: Seq<DeniedPath>, deny: DeniedPath, at: int)
    requires
        in_order(Order::Path, paths_of(table)),
        0 <= at < table.len(),
        same_path(table[at].path, deny.path),
    ensures
        deny_insertion(table, deny) == table.update(
            at,
            DeniedPath { access: merged(table[at].access, deny.access), path: table[at].path },
        ),
    decreases table.len(),
{
    let last = table.last();
    let paths = paths_of(table);
    if at == table.len() - 1 {
        assert(deny_insertion(table, deny) =~= table.update(
            at,
            DeniedPath { access: merged(table[at].access, deny.access), path: table[at].path },
        ));
    } else {
        assert(item_less(Order::Path, paths[at], paths[table.len() - 1]));
        assert(components(paths[at]) == components(deny.path));
        assert(item_less(Order::Path, deny.path, last.path));
        order_is_total(Order::Path, last.path, deny.path);
        let front = table.drop_last();
        assert forall|i: int, j: int| 0 <= i < j < paths_of(front).len() implies item_less(
            Order::Path,
            paths_of(front)[i],
            paths_of(front)[j],
        ) by {
            assert(paths_of(front)[i] == paths[i] && paths_of(front)[j] == paths[j]);
        }
        lemma_found(front, deny, at);
        assert(deny_insertion(table, deny) =~= table.update(
            at,
            DeniedPath { access: merged(table[at].access, deny.access), path: table[at].path },
        ));
    }
}

proof fn lemma_new(table: Seq<DeniedPath>, deny: DeniedPath, at: int)
    requires
        0 <= at <= table.len(),
        forall|j: int|
            0 <= j < at ==> item_less(Order::Path, #[trigger] paths_of(table)[j], deny.path),
        forall|j: int|
            at <= j < table.len() ==> item_less(
                Order::Path,
                deny.path,
                #[trigger] paths_of(table)[j],
            ),
    ensures
        deny_insertion(table, deny) == table.insert(at, deny),
    decreases table.len(),
{
    if table.len() == 0 {
        assert(table.insert(at, deny) =~= seq![deny]);
    } else {
        let last = table.last();
        assert(paths_of(table)[table.len() - 1] == last.path);
        order_is_total(Order::Path, last.path, deny.path);
        if at == table.len() {
            assert(item_less(Order::Path, paths_of(table)[table.len() - 1], deny.path));
            assert(table.insert(at, deny) =~= table.push(deny));
        } else {
            assert(item_less(Order::Path, deny.path, paths_of(table)[table.len() - 1]));
            let front = table.drop_last();
            assert forall|j: int| 0 <= j < at implies item_less(
                Order::Path,
                #[trigger] paths_of(front)[j],
                deny.path,
            ) by {
                assert(paths_of(front)[j] == paths_of(table)[j]);
            }
            assert forall|j: int| at <= j < front.len() implies item_less(
                Order::Path,
                deny.path,
                #[trigger] paths_of(front)[j],
            ) by {
                assert(paths_of(front)[j] == paths_of(table)[j]);
            }
            lemma_new(front, deny, at);
            assert(table.insert(at, deny) =~= front.insert(at, deny).push(last));
        }
    }
}

impl DenyTable {
    #[verifier::type_invariant]
    spec fn is_valid(self) -> bool {
        &&& self.paths@.len() == self.accesses@.len()
        &&& in_order(Order::Path, texts(self.paths@))
    }

    /// No denied paths.
    pub fn new() -> (table: DenyTable)
        ensures
            table@ == Seq::<DeniedPath>::empty(),
    {
        let table = DenyTable { paths: Vec::new(), accesses: Vec::new() };
        assert(table@ =~= Seq::<DeniedPath>::empty());
        table
    }

    /// Denies one more path.
    pub fn insert(&mut self, path: String, access: DeniedAccess)
        ensures
            final(self)@ == deny_insertion(old(self)@, DeniedPath { access, path: path@ }),
            in_order(Order::Path, paths_of(final(self)@)),
    {
        let ghost before = self@;
        let ghost deny = DeniedPath { access, path: path@ };
        proof {
            use_type_invariant(&*self);
            lemma_table_paths(*self);
        }
        let mut taken = DenyTable::new();
        std::mem::swap(self, &mut taken);
        let DenyTable { mut paths, mut accesses } = taken;
        let (found, at) = locate(Order::Path, &paths, path.as_str());
        if found {
            proof {
                lemma_found(before, deny, at as int);
            }
            let both = merge_denied_access(accesses[at], access);
            accesses.set(at, both);
            let table = DenyTable { paths, accesses };
            assert(table@ =~= deny_insertion(before, deny));
            assert(paths_of(table@) =~= paths_of(before));
            *self = table;
        } else {
            proof {
                lemma_new(before, deny, at as int);
                insertion_at(Order::Path, texts(paths@), path@, at as int);
            }
            let ghost old_paths = texts(paths@);
            paths.insert(at, path);
            accesses.insert(at, access);
            assert(texts(paths@) =~= old_paths.insert(at as int, path@));
            let table = DenyTable { paths, accesses };
            assert(table@ =~= before.insert(at as int, deny));
            assert(paths_of(table@) =~= texts(paths@));
            *self = table;
        }
    }

    /// The denied paths, in order.
    pub fn into_denies(self) -> (denies: Vec<ConcreteDeny>)
        ensures
            models(denies@) == self@,
    {
        proof {
            use_type_invariant(&self);
        }
        let ghost all = self@;
        let DenyTable { paths, accesses } = self;
        let mut denies: Vec<ConcreteDeny> = Vec::new();
        let mut i: usize = 0;
        while i < paths.len()
            invariant
                i <= paths@.len() == accesses@.len() == all.len(),
                forall|j: int|
                    0 <= j < all.len() ==> (#[trigger] all[j]) == (DeniedPath {
                        access: accesses@[j],
                        path: paths@[j]@,
                    }),
                models(denies@) == all.take(i as int),
            decreases paths@.len() - i,
        {
            let ghost before = models(denies@);
            denies.push(ConcreteDeny { access: accesses[i], path: paths[i].clone() });
            i = i + 1;
            assert(models(denies@) =~= before.push(all[i - 1]));
            assert(all.take(i as int) =~= all.take(i - 1).push(all[i - 1]));
        }
        assert(all.take(i as int) =~= all);
        denies
    }
}

/// The probes for those of `paths` that nothing is known of.
pub open spec fn unknown_paths(host: Host, paths: Seq<Seq<char>>) -> Seq<ProbeModel>
    decreases paths.len(),
{
    if paths.len() == 0 {
        Seq::empty()
    } else if host.paths.contains_key(paths.last()) {
        unknown_paths(host, paths.drop_last())
    } else {
        unknown_paths(host, paths.drop_last()).push(ProbeModel::Path(paths.last()))
    }
}

/// Whether something is known of each of `paths`.
pub open spec fn all_known(host: Host, paths: Seq<Seq<char>>) -> Decision<()> {
    if unknown_paths(host, paths).len() > 0 {
        Err(HaltModel::Probe(unknown_paths(host, paths)))
    } else {
        Ok(())
    }
}

/// Asks for those of `paths` that nothing is known of, all at once.
///
/// # Errors
///
/// Asks for the facts that are missing.
pub fn require_paths(paths: &Vec<String>, facts: &Facts) -> (result: Result<(), Halt>)
    ensures
        decided(result) == all_known(facts@, texts(paths@)),
{
    let ghost all = texts(paths@);
    let mut probes: Vec<Probe> = Vec::new();
    let mut i: usize = 0;
    assert(all.take(0) =~= Seq::empty());
    assert(models(probes@) =~= Seq::empty());
    while i < paths.len()
        invariant
            i <= paths@.len(),
            all == texts(paths@),
            models(probes@) == unknown_paths(facts@, all.take(i as int)),
        decreases paths@.len() - i,
    {
        let ghost before = models(probes@);
        let path = paths[i].as_str();
        i = i + 1;
        assert(all.take(i as int).drop_last() =~= all.take(i - 1));
        assert(all.take(i as int).last() == path@);
        match facts.path(path) {
            Ok(_) => {},
            Err(_) => {
                probes.push(Probe::Path(path.to_owned()));
                assert(models(probes@) =~= before.push(ProbeModel::Path(path@)));
            },
        }
    }
    assert(all.take(i as int) =~= all);
    assert(models(probes@).len() == probes@.len());
    if probes.len() > 0 {
        return Err(Halt::Probe(probes));
    }
    Ok(())
}

/// The paths of those denies that have one.
pub open spec fn deny_paths(denies: Seq<Deny>) -> Seq<Seq<char>>
    decreases denies.len(),
{
    if denies.len() == 0 {
        Seq::empty()
    } else {
        let before = deny_paths(denies.drop_last());
        let deny = denies.last();
        if deny.scope != DenyScope::Glob && deny.path is Some {
            before.push(deny.path->Some_0)
        } else {
            before
        }
    }
}

/// The paths of those denies that have one.
pub fn collect_deny_paths(denies: &Vec<NormalizedDeny>) -> (paths: Vec<String>)
    ensures
        texts(paths@) == deny_paths(models(denies@)),
{
    let ghost all = models(denies@);
    let mut paths: Vec<String> = Vec::new();
    let mut i: usize = 0;
    assert(all.take(0) =~= Seq::empty());
    assert(texts(paths@) =~= Seq::empty());
    while i < denies.len()
        invariant
            i <= denies@.len(),
            all == models(denies@),
            texts(paths@) == deny_paths(all.take(i as int)),
        decreases denies@.len() - i,
    {
        let ghost before = texts(paths@);
        let deny = &denies[i];
        i = i + 1;
        assert(all.take(i as int).drop_last() =~= all.take(i - 1));
        assert(all.take(i as int).last() == deny@);
        if deny.scope != DenyScope::Glob {
            if let Some(path) = &deny.path {
                paths.push(path.clone());
                assert(texts(paths@) =~= before.push(path@));
            }
        }
    }
    assert(all.take(i as int) =~= all);
    paths
}

/// Whether a path and one of the rights meet: one of them lies below the other.
pub open spec fn meets_any(path: Seq<char>, rights: Seq<Right>) -> bool {
    exists|i: int|
        0 <= i < rights.len() && (lies_under(path, (#[trigger] rights[i]).path) || lies_under(
            rights[i].path,
            path,
        ))
}

fn any_meets(path: &str, rights: &Vec<NormalizedRight>) -> (found: bool)
    ensures
        found == meets_any(path@, models(rights@)),
{
    let mut i: usize = 0;
    while i < rights.len()
        invariant
            i <= rights@.len(),
            forall|j: int|
                0 <= j < i ==> !(lies_under(path@, (#[trigger] models(rights@)[j]).path)
                    || lies_under(models(rights@)[j].path, path@)),
        decreases rights@.len() - i,
    {
        assert(models(rights@)[i as int] == rights@[i as int]@);
        if path_starts_with(path, rights[i].path.as_str()) || path_starts_with(
            rights[i].path.as_str(),
            path,
        ) {
            return true;
        }
        i = i + 1;
    }
    false
}

/// Whether one deny can be enforced by a mount: its path exists, or no right to
/// write meets it.
pub open spec fn mountable(host: Host, deny: Deny, writable: Seq<Right>) -> Decision<()> {
    if deny.scope == DenyScope::Glob || deny.path is None {
        Ok(())
    } else {
        let path = deny.path->Some_0;
        match host.path(path) {
            Err(halt) => Err(halt),
            Ok(facts) => if !facts.is_present() && meets_any(path, writable) {
                refusal("cannot enforce missing deny below writable root: "@ + path)
            } else {
                Ok(())
            },
        }
    }
}

/// How denies are checked for mounts.
pub open spec fn mountable_step(host: Host, writable: Seq<Right>) -> spec_fn(Deny) -> Decision<()> {
    |deny: Deny| mountable(host, deny, writable)
}

/// Refuses denies that no mount can enforce.
///
/// # Errors
///
/// Refuses a deny of a missing path that a right to write meets.
pub fn reject_missing_concrete_denies(
    denies: &Vec<NormalizedDeny>,
    writable: &Vec<NormalizedRight>,
    facts: &Facts,
) -> (result: Result<(), Halt>)
    ensures
        match result {
            Ok(_) => each(models(denies@), mountable_step(facts@, models(writable@))) is Ok,
            Err(halt) => each(models(denies@), mountable_step(facts@, models(writable@))) == Err::<
                Seq<()>,
                HaltModel,
            >(halt@),
        },
{
    let ghost all = models(denies@);
    let ghost step = mountable_step(facts@, models(writable@));
    let mut i: usize = 0;
    assert(all.take(0) =~= Seq::empty());
    while i < denies.len()
        invariant
            i <= denies@.len(),
            all == models(denies@),
            step == mountable_step(facts@, models(writable@)),
            each(all.take(i as int), step) is Ok,
        decreases denies@.len() - i,
    {
        proof {
            lemma_each_step(all, step, i as int);
        }
        let deny = &denies[i];
        assert(all[i as int] == deny@);
        if deny.scope != DenyScope::Glob {
            if let Some(path) = &deny.path {
                match facts.path(path.as_str()) {
                    Ok(known) => {
                        if !known.is_present() && any_meets(path.as_str(), writable) {
                            return Err(
                                refused(
                                    joined(
                                        "cannot enforce missing deny below writable root: ",
                                        path.as_str(),
                                    ),
                                ),
                            );
                        }
                    },
                    Err(halt) => {
                        return Err(halt);
                    },
                }
            }
        }
        i = i + 1;
    }
    assert(all.take(i as int) =~= all);
    Ok(())
}

/// The denies with a glob.
pub open spec fn glob_denies(denies: Seq<Deny>) -> Seq<Deny>
    decreases denies.len(),
{
    if denies.len() == 0 {
        Seq::empty()
    } else if denies.last().scope == DenyScope::Glob {
        glob_denies(denies.drop_last()).push(denies.last())
    } else {
        glob_denies(denies.drop_last())
    }
}

/// The globs of several denies.
pub open spec fn patterns_of(denies: Seq<Deny>) -> Seq<Seq<char>> {
    Seq::new(denies.len(), |i: int| denies[i].pattern)
}

fn collect_glob_denies(denies: &Vec<NormalizedDeny>) -> (globs: Vec<NormalizedDeny>)
    ensures
        models(globs@) == glob_denies(models(denies@)),
{
    let ghost all = models(denies@);
    let mut globs: Vec<NormalizedDeny> = Vec::new();
    let mut i: usize = 0;
    assert(all.take(0) =~= Seq::empty());
    assert(models(globs@) =~= Seq::empty());
    while i < denies.len()
        invariant
            i <= denies@.len(),
            all == models(denies@),
            models(globs@) == glob_denies(all.take(i as int)),
        decreases denies@.len() - i,
    {
        let ghost before = models(globs@);
        if denies[i].scope == DenyScope::Glob {
            globs.push(denies[i].clone());
            assert(models(globs@) =~= before.push(denies@[i as int]@));
        }
        i = i + 1;
        assert(all.take(i as int).drop_last() =~= all.take(i - 1));
        assert(all.take(i as int).last() == denies@[i - 1]@);
    }
    assert(all.take(i as int) =~= all);
    globs
}

fn collect_patterns(globs: &Vec<NormalizedDeny>) -> (patterns: Vec<String>)
    ensures
        texts(patterns@) == patterns_of(models(globs@)),
{
    let ghost all = patterns_of(models(globs@));
    let mut patterns: Vec<String> = Vec::new();
    let mut i: usize = 0;
    assert(all.take(0) =~= texts(patterns@));
    while i < globs.len()
        invariant
            i <= globs@.len(),
            all == patterns_of(models(globs@)),
            texts(patterns@) == all.take(i as int),
        decreases globs@.len() - i,
    {
        let ghost before = texts(patterns@);
        patterns.push(globs[i].pattern.clone());
        i = i + 1;
        assert(texts(patterns@) =~= before.push(all[i - 1]));
        assert(all.take(i as int) =~= all.take(i - 1).push(all[i - 1]));
    }
    assert(all.take(i as int) =~= all);
    patterns
}

/// The table with one path that a deny is about: not where the path is exempt,
/// and under its resolved form where it is a symbolic link.
pub open spec fn deny_placed(
    host: Host,
    table: Seq<DeniedPath>,
    deny: Deny,
    path: Seq<char>,
) -> Decision<Seq<DeniedPath>> {
    if under_any(path, deny.exempt_roots) {
        Ok(table)
    } else {
        match host.path(path) {
            Err(halt) => Err(halt),
            Ok(facts) => if facts.is_link() {
                match facts.canonical {
                    Err(error) => refusal("cannot resolve deny symlink "@ + path + ": "@ + error),
                    Ok(target) => Ok(
                        deny_insertion(table, DeniedPath { access: deny.access, path: target }),
                    ),
                }
            } else {
                Ok(deny_insertion(table, DeniedPath { access: deny.access, path }))
            },
        }
    }
}

/// Puts one path that a deny is about into the table.
///
/// # Errors
///
/// Refuses a symbolic link that cannot be resolved.
pub fn insert_concrete_deny(table: &mut DenyTable, deny: &NormalizedDeny, path: &str, facts: &Facts) -> (
result: Result<(), Halt>)
    ensures
        match result {
            Ok(_) => deny_placed(facts@, old(table)@, deny@, path@) == Ok::<
                Seq<DeniedPath>,
                HaltModel,
            >(final(table)@),
            Err(halt) => deny_placed(facts@, old(table)@, deny@, path@) == Err::<
                Seq<DeniedPath>,
                HaltModel,
            >(halt@),
        },
{
    if is_under_any(path, &deny.exempt_roots) {
        return Ok(());
    }
    let known = match facts.path(path) {
        Ok(known) => known,
        Err(halt) => {
            return Err(halt);
        },
    };
    if known.is_link() {
        match &known.canonical {
            Ok(target) => {
                table.insert(target.clone(), deny.access);
            },
            Err(error) => {
                return Err(
                    refused(
                        joined4("cannot resolve deny symlink ", path, ": ", error.as_str()),
                    ),
                );
            },
        }
    } else {
        table.insert(path.to_owned(), deny.access);
    }
    Ok(())
}

/// The table of the denies whose paths exist.
pub open spec fn fixed_placed(host: Host, denies: Seq<Deny>) -> Decision<Seq<DeniedPath>>
    decreases denies.len(),
{
    if denies.len() == 0 {
        Ok(Seq::empty())
    } else {
        match fixed_placed(host, denies.drop_last()) {
            Err(halt) => Err(halt),
            Ok(table) => {
                let deny = denies.last();
                if deny.scope == DenyScope::Glob || deny.path is None {
                    Ok(table)
                } else {
                    match host.path(deny.path->Some_0) {
                        Err(halt) => Err(halt),
                        Ok(facts) => if facts.is_present() {
                            deny_placed(host, table, deny, deny.path->Some_0)
                        } else {
                            Ok(table)
                        },
                    }
                }
            },
        }
    }
}

/// The table with each of several paths that a deny is about.
pub open spec fn paths_placed(
    host: Host,
    table: Seq<DeniedPath>,
    deny: Deny,
    paths: Seq<Seq<char>>,
) -> Decision<Seq<DeniedPath>>
    decreases paths.len(),
{
    if paths.len() == 0 {
        Ok(table)
    } else {
        match paths_placed(host, table, deny, paths.drop_last()) {
            Err(halt) => Err(halt),
            Ok(before) => deny_placed(host, before, deny, paths.last()),
        }
    }
}

/// The table with the matches of the first `n` globs.
pub open spec fn globs_placed(
    host: Host,
    table: Seq<DeniedPath>,
    globs: Seq<Deny>,
    found: Seq<Seq<Seq<char>>>,
    n: nat,
) -> Decision<Seq<DeniedPath>>
    decreases n,
{
    if n == 0 {
        Ok(table)
    } else {
        match globs_placed(host, table, globs, found, (n - 1) as nat) {
            Err(halt) => Err(halt),
            Ok(before) => paths_placed(host, before, globs[n - 1], found[n - 1]),
        }
    }
}

/// All items of several lists.
pub open spec fn flattened(lists: Seq<Seq<Seq<char>>>) -> Seq<Seq<char>>
    decreases lists.len(),
{
    if lists.len() == 0 {
        Seq::empty()
    } else {
        flattened(lists.drop_last()) + lists.last()
    }
}

/// The smaller of two lengths.
pub open spec fn shorter(a: nat, b: nat) -> nat {
    if a < b {
        a
    } else {
        b
    }
}

/// The paths that the denies of a request come to, in order, each path once.
pub open spec fn concrete(host: Host, now: u64, denies: Seq<Deny>, cwd: Seq<char>) -> Decision<
    Seq<DeniedPath>,
> {
    match fixed_placed(host, denies) {
        Err(halt) => Err(halt),
        Ok(table) => {
            let globs = glob_denies(denies);
            match glob_matches(host, now, patterns_of(globs), cwd) {
                Err(halt) => Err(halt),
                Ok(found) => match all_known(host, flattened(found)) {
                    Err(halt) => Err(halt),
                    Ok(_) => globs_placed(
                        host,
                        table,
                        globs,
                        found,
                        shorter(globs.len(), found.len()),
                    ),
                },
            }
        },
    }
}

proof fn lemma_fixed_stays(host: Host, denies: Seq<Deny>, i: int)
    requires
        0 <= i <= denies.len(),
        fixed_placed(host, denies.take(i)) is Err,
    ensures
        fixed_placed(host, denies) == fixed_placed(host, denies.take(i)),
    decreases denies.len(),
{
    if i == denies.len() {
        assert(denies.take(i) =~= denies);
    } else {
        assert(denies.drop_last().take(i) =~= denies.take(i));
        lemma_fixed_stays(host, denies.drop_last(), i);
    }
}

proof fn lemma_paths_stay(
    host: Host,
    table: Seq<DeniedPath>,
    deny: Deny,
    paths: Seq<Seq<char>>,
    i: int,
)
    requires
        0 <= i <= paths.len(),
        paths_placed(host, table, deny, paths.take(i)) is Err,
    ensures
        paths_placed(host, table, deny, paths) == paths_placed(host, table, deny, paths.take(i)),
    decreases paths.len(),
{
    if i == paths.len() {
        assert(paths.take(i) =~= paths);
    } else {
        assert(paths.drop_last().take(i) =~= paths.take(i));
        lemma_paths_stay(host, table, deny, paths.drop_last(), i);
    }
}

proof fn lemma_globs_stay(
    host: Host,
    table: Seq<DeniedPath>,
    globs: Seq<Deny>,
    found: Seq<Seq<Seq<char>>>,
    from: nat,
    to: nat,
)
    requires
        from <= to,
        globs_placed(host, table, globs, found, from) is Err,
    ensures
        globs_placed(host, table, globs, found, to) == globs_placed(
            host,
            table,
            globs,
            found,
            from,
        ),
    decreases to - from,
{
    if from < to {
        lemma_globs_stay(host, table, globs, found, from, (to - 1) as nat);
    }
}

fn place_fixed(denies: &Vec<NormalizedDeny>, facts: &Facts) -> (result: Result<DenyTable, Halt>)
    ensures
        decided(result) == fixed_placed(facts@, models(denies@)),
{
    let ghost all = models(denies@);
    let mut table = DenyTable::new();
    let mut i: usize = 0;
    assert(all.take(0) =~= Seq::empty());
    while i < denies.len()
        invariant
            i <= denies@.len(),
            all == models(denies@),
            fixed_placed(facts@, all.take(i as int)) == Ok::<Seq<DeniedPath>, HaltModel>(table@),
        decreases denies@.len() - i,
    {
        let deny = &denies[i];
        i = i + 1;
        assert(all.take(i as int).drop_last() =~= all.take(i - 1));
        assert(all.take(i as int).last() == deny@);
        if deny.scope != DenyScope::Glob {
            if let Some(path) = &deny.path {
                let placed = match facts.path(path.as_str()) {
                    Ok(known) => if known.is_present() {
                        insert_concrete_deny(&mut table, deny, path.as_str(), facts)
                    } else {
                        Ok(())
                    },
                    Err(halt) => Err(halt),
                };
                match placed {
                    Ok(_) => {},
                    Err(halt) => {
                        proof {
                            lemma_fixed_stays(facts@, all, i as int);
                        }
                        return Err(halt);
                    },
                }
            }
        }
    }
    assert(all.take(i as int) =~= all);
    Ok(table)
}

fn place_paths(table: &mut DenyTable, deny: &NormalizedDeny, paths: &Vec<String>, facts: &Facts) -> (
result: Result<(), Halt>)
    ensures
        match result {
            Ok(_) => paths_placed(facts@, old(table)@, deny@, texts(paths@)) == Ok::<
                Seq<DeniedPath>,
                HaltModel,
            >(final(table)@),
            Err(halt) => paths_placed(facts@, old(table)@, deny@, texts(paths@)) == Err::<
                Seq<DeniedPath>,
                HaltModel,
            >(halt@),
        },
{
    let ghost start = table@;
    let ghost all = texts(paths@);
    let mut i: usize = 0;
    assert(all.take(0) =~= Seq::empty());
    while i < paths.len()
        invariant
            i <= paths@.len(),
            start == old(table)@,
            all == texts(paths@),
            paths_placed(facts@, start, deny@, all.take(i as int)) == Ok::<
                Seq<DeniedPath>,
                HaltModel,
            >(table@),
        decreases paths@.len() - i,
    {
        let placed = insert_concrete_deny(table, deny, paths[i].as_str(), facts);
        i = i + 1;
        assert(all.take(i as int).drop_last() =~= all.take(i - 1));
        assert(all.take(i as int).last() == paths@[i - 1]@);
        match placed {
            Ok(_) => {},
            Err(halt) => {
                proof {
                    lemma_paths_stay(facts@, start, deny@, all, i as int);
                }
                return Err(halt);
            },
        }
    }
    assert(all.take(i as int) =~= all);
    Ok(())
}

fn flatten(found: &Vec<Vec<String>>) -> (paths: Vec<String>)
    ensures
        texts(paths@) == flattened(lists(found@)),
{
    let ghost all = lists(found@);
    let mut paths: Vec<String> = Vec::new();
    let mut i: usize = 0;
    assert(all.take(0) =~= Seq::empty());
    assert(texts(paths@) =~= Seq::empty());
    while i < found.len()
        invariant
            i <= found@.len(),
            all == lists(found@),
            texts(paths@) == flattened(all.take(i as int)),
        decreases found@.len() - i,
    {
        let ghost before = texts(paths@);
        let ghost paths_before = paths@;
        let mut part = crate::text::copy_texts(&found[i]);
        let ghost copied = part@;
        paths.append(&mut part);
        i = i + 1;
        assert(paths@ == paths_before + copied);
        assert(texts(paths@) =~= before + texts(copied));
        assert(all.take(i as int).drop_last() =~= all.take(i - 1));
        assert(all.take(i as int).last() == texts(copied));
    }
    assert(all.take(i as int) =~= all);
    paths
}

/// Finds the paths that the denies of a request come to.
///
/// # Errors
///
/// Refuses globs that cannot be expanded within bounds and symbolic links that
/// cannot be resolved, and asks for the facts that are missing.
pub fn concrete_denies(denies: &Vec<NormalizedDeny>, cwd: &str, facts: &Facts, now: u64) -> (result:
    Result<Vec<ConcreteDeny>, Halt>)
    ensures
        crate::facts::decided_all(result) == concrete(facts@, now, models(denies@), cwd@),
{
    let mut table = match place_fixed(denies, facts) {
        Ok(table) => table,
        Err(halt) => {
            return Err(halt);
        },
    };
    let ghost start = table@;
    let globs = collect_glob_denies(denies);
    let patterns = collect_patterns(&globs);
    let found = match expand_globs(&patterns, cwd, facts, now) {
        Ok(found) => found,
        Err(halt) => {
            return Err(halt);
        },
    };
    match require_paths(&flatten(&found), facts) {
        Ok(_) => {},
        Err(halt) => {
            return Err(halt);
        },
    }
    let ghost all = models(globs@);
    let ghost matches = lists(found@);
    let ghost n = shorter(all.len(), matches.len());
    let mut i: usize = 0;
    while i < globs.len() && i < found.len()
        invariant
            i <= globs@.len(),
            i <= found@.len(),
            all == models(globs@),
            all == glob_denies(models(denies@)),
            matches == lists(found@),
            n == shorter(all.len(), matches.len()),
            fixed_placed(facts@, models(denies@)) == Ok::<Seq<DeniedPath>, HaltModel>(start),
            glob_matches(facts@, now, patterns_of(all), cwd@) == Ok::<
                Seq<Seq<Seq<char>>>,
                HaltModel,
            >(matches),
            all_known(facts@, flattened(matches)) is Ok,
            globs_placed(facts@, start, all, matches, i as nat) == Ok::<Seq<DeniedPath>, HaltModel>(
                table@,
            ),
        decreases globs@.len() - i,
    {
        assert(all[i as int] == globs@[i as int]@);
        assert(matches[i as int] == texts(found@[i as int]@));
        match place_paths(&mut table, &globs[i], &found[i], facts) {
            Ok(_) => {},
            Err(halt) => {
                proof {
                    lemma_globs_stay(facts@, start, all, matches, (i + 1) as nat, n);
                }
                return Err(halt);
            },
        }
        i = i + 1;
    }
    assert(i == n);
    Ok(table.into_denies())
}

} // verus!
