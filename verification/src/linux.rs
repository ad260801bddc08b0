//! Bubblewrap invocations: what a validated command needs mounted, hidden and
//! isolated, and the arguments that say so.

use vstd::prelude::*;
use vstd::string::*;

use crate::expansion::{collect_items, control_paths, protected_workspace_paths};
use crate::facts::{
    decided, decided_all, each, lemma_each_step, models, refusal, refused, Decision, Facts, Halt,
    HaltModel, Host, Listing,
};
use crate::mounts::{
    all_known, collect_deny_paths, concrete, concrete_denies, deny_paths, mountable_step,
    reject_missing_concrete_denies, require_paths, ConcreteDeny, DeniedPath,
};
use crate::order::{
    collected, collected_is_a_set, contains_item, holds, in_order, item_same, Order,
};
use crate::paths::{
    a_pushed_name_is_a_component, components, file_name_of, is_absolute, is_entry_name, lies_under,
    path_components, path_depth, path_join, path_of_parts, path_starts_with, paths_equal, pushed,
    rendered, same_path,
};
use crate::profile::{is_control_grant, opens_control, select_writable, write_rights};
use crate::protocol::{Access, DeniedAccess, NetworkRequest, PathScope};
use crate::seatbelt::{NormalizedRight, Right};
use crate::text::{copy_texts, joined4, texts};
use crate::validation::{Validated, ValidatedExec, ValidatedNetworkPolicy};

verus! {

pub const PROXY_LOOPBACK_PORT: u16 = 31_128;

/// Where the launcher is mounted inside the sandbox.
pub const SANDBOX_LAUNCHER_PATH: &'static str = "/tmp/.pi-sandbox-launcher";

/// Items put in order of their depth, those of one depth left as they were.
pub open spec fn depth_insertion<T>(list: Seq<T>, item: T, depth: spec_fn(T) -> nat) -> Seq<T>
    decreases list.len(),
{
    if list.len() == 0 {
        seq![item]
    } else if depth(list.last()) <= depth(item) {
        list.push(item)
    } else {
        depth_insertion(list.drop_last(), item, depth).push(list.last())
    }
}

/// Items in order of their depth, those of one depth as they were.
pub open spec fn by_depth<T>(items: Seq<T>, depth: spec_fn(T) -> nat) -> Seq<T>
    decreases items.len(),
{
    if items.len() == 0 {
        Seq::empty()
    } else {
        depth_insertion(by_depth(items.drop_last(), depth), items.last(), depth)
    }
}

/// Whether items stand in order of their depth.
pub open spec fn in_depth_order<T>(list: Seq<T>, depth: spec_fn(T) -> nat) -> bool {
    forall|i: int, j: int|
        0 <= i <= j < list.len() ==> depth(#[trigger] list[i]) <= depth(#[trigger] list[j])
}

proof fn lemma_depth_insertion<T>(list: Seq<T>, item: T, depth: spec_fn(T) -> nat)
    requires
        in_depth_order(list, depth),
    ensures
        in_depth_order(depth_insertion(list, item, depth), depth),
        depth_insertion(list, item, depth).len() == list.len() + 1,
        depth_insertion(list, item, depth).to_multiset() == list.to_multiset().insert(item),
        forall|i: int|
            0 <= i < list.len() + 1 ==> depth(
                #[trigger] depth_insertion(list, item, depth)[i],
            ) <= depth(item) || (list.len() > 0 && depth(depth_insertion(list, item, depth)[i])
                <= depth(list.last())),
    decreases list.len(),
{
    broadcast use vstd::seq_lib::group_to_multiset_ensures;

    let out = depth_insertion(list, item, depth);
    if list.len() == 0 {
        assert(out =~= list.push(item));
    } else if depth(list.last()) <= depth(item) {
        assert forall|i: int, j: int| 0 <= i <= j < out.len() implies depth(#[trigger] out[i])
            <= depth(#[trigger] out[j]) by {
            if j == list.len() && i < list.len() {
                assert(depth(list[i]) <= depth(list[list.len() - 1]));
            }
        }
    } else {
        let front = list.drop_last();
        let inner = depth_insertion(front, item, depth);
        assert forall|i: int, j: int| 0 <= i <= j < front.len() implies depth(#[trigger] front[i])
            <= depth(#[trigger] front[j]) by {
            assert(front[i] == list[i] && front[j] == list[j]);
        }
        lemma_depth_insertion(front, item, depth);
        assert(list =~= front.push(list.last()));
        assert forall|i: int, j: int| 0 <= i <= j < out.len() implies depth(#[trigger] out[i])
            <= depth(#[trigger] out[j]) by {
            if j == inner.len() && i < inner.len() {
                assert(out[i] == inner[i]);
                if front.len() > 0 {
                    assert(front.last() == list[list.len() - 2]);
                    assert(depth(list[list.len() - 2]) <= depth(list[list.len() - 1]));
                }
            } else if j < inner.len() {
                assert(out[i] == inner[i] && out[j] == inner[j]);
            }
        }
        assert forall|i: int| 0 <= i < list.len() + 1 implies depth(#[trigger] out[i]) <= depth(
            item,
        ) || depth(out[i]) <= depth(list.last()) by {
            if i < inner.len() {
                assert(out[i] == inner[i]);
                if front.len() > 0 {
                    assert(front.last() == list[list.len() - 2]);
                    assert(depth(list[list.len() - 2]) <= depth(list[list.len() - 1]));
                }
            }
        }
    }
}

/// Mounts are made from the outside in: putting items in order of their depth
/// loses none, adds none, and never puts a deeper one before a shallower one.
pub proof fn depth_order_is_a_reordering<T>(items: Seq<T>, depth: spec_fn(T) -> nat)
    ensures
        in_depth_order(by_depth(items, depth), depth),
        by_depth(items, depth).to_multiset() == items.to_multiset(),
    decreases items.len(),
{
    broadcast use vstd::seq_lib::group_to_multiset_ensures;

    if items.len() > 0 {
        depth_order_is_a_reordering(items.drop_last(), depth);
        lemma_depth_insertion(by_depth(items.drop_last(), depth), items.last(), depth);
        assert(items =~= items.drop_last().push(items.last()));
    }
}

/// The depth of a right.
pub open spec fn right_depth() -> spec_fn(Right) -> nat {
    |right: Right| components(right.path).len()
}

/// The depth of a denied path.
pub open spec fn denied_depth() -> spec_fn(DeniedPath) -> nat {
    |deny: DeniedPath| components(deny.path).len()
}

proof fn lemma_depth_position<T>(list: Seq<T>, item: T, depth: spec_fn(T) -> nat, at: int)
    requires
        0 <= at <= list.len(),
        forall|j: int| at <= j < list.len() ==> depth(#[trigger] list[j]) > depth(item),
        at > 0 ==> depth(list[at - 1]) <= depth(item),
    ensures
        depth_insertion(list, item, depth) == list.insert(at, item),
    decreases list.len(),
{
    if list.len() == 0 {
        assert(list.insert(at, item) =~= seq![item]);
    } else if at == list.len() {
        assert(list.insert(at, item) =~= list.push(item));
    } else {
        let front = list.drop_last();
        assert(depth(list[list.len() - 1]) > depth(item));
        assert forall|j: int| at <= j < front.len() implies depth(#[trigger] front[j]) > depth(
            item,
        ) by {
            assert(front[j] == list[j]);
        }
        lemma_depth_position(front, item, depth, at);
        assert(list.insert(at, item) =~= front.insert(at, item).push(list.last()));
    }
}

fn depth_position(depths: &Vec<usize>, depth: usize) -> (at: usize)
    ensures
        at <= depths@.len(),
        forall|j: int| at <= j < depths@.len() ==> #[trigger] depths@[j] > depth,
        at > 0 ==> depths@[at - 1] <= depth,
{
    let mut at: usize = depths.len();
    while at > 0 && depths[at - 1] > depth
        invariant
            at <= depths@.len(),
            forall|j: int| at <= j < depths@.len() ==> #[trigger] depths@[j] > depth,
        decreases at,
    {
        at = at - 1;
    }
    at
}

fn sort_rights(rights: Vec<NormalizedRight>) -> (sorted: Vec<NormalizedRight>)
    ensures
        models(sorted@) == by_depth(models(rights@), right_depth()),
{
    let ghost all = models(rights@);
    let ghost depth = right_depth();
    let mut sorted: Vec<NormalizedRight> = Vec::new();
    let mut depths: Vec<usize> = Vec::new();
    let mut i: usize = 0;
    assert(all.take(0) =~= Seq::empty());
    assert(models(sorted@) =~= Seq::empty());
    while i < rights.len()
        invariant
            i <= rights@.len(),
            all == models(rights@),
            depth == right_depth(),
            sorted@.len() == depths@.len(),
            forall|j: int|
                0 <= j < sorted@.len() ==> depth(models(sorted@)[j]) == #[trigger] depths@[j],
            models(sorted@) == by_depth(all.take(i as int), depth),
        decreases rights@.len() - i,
    {
        let ghost before = models(sorted@);
        let right = rights[i].clone();
        let level = path_depth(right.path.as_str());
        let at = depth_position(&depths, level);
        proof {
            assert forall|j: int| at <= j < before.len() implies depth(#[trigger] before[j])
                > depth(right@) by {
                assert(depths@[j] > level);
            }
            if at > 0 {
                assert(depths@[at - 1] <= level);
            }
            lemma_depth_position(before, right@, depth, at as int);
        }
        let ghost depths_before = depths@;
        sorted.insert(at, right);
        depths.insert(at, level);
        i = i + 1;
        assert(models(sorted@) =~= before.insert(at as int, right@));
        assert forall|j: int| 0 <= j < sorted@.len() implies depth(models(sorted@)[j])
            == #[trigger] depths@[j] by {
            if j < at {
                assert(depths@[j] == depths_before[j]);
            } else if j > at {
                assert(depths@[j] == depths_before[j - 1]);
            }
        }
        assert(all.take(i as int).drop_last() =~= all.take(i - 1));
        assert(all.take(i as int).last() == right@);
    }
    assert(all.take(i as int) =~= all);
    sorted
}

fn sort_denies(denies: Vec<ConcreteDeny>) -> (sorted: Vec<ConcreteDeny>)
    ensures
        models(sorted@) == by_depth(models(denies@), denied_depth()),
{
    let ghost all = models(denies@);
    let ghost depth = denied_depth();
    let mut sorted: Vec<ConcreteDeny> = Vec::new();
    let mut depths: Vec<usize> = Vec::new();
    let mut i: usize = 0;
    assert(all.take(0) =~= Seq::empty());
    assert(models(sorted@) =~= Seq::empty());
    while i < denies.len()
        invariant
            i <= denies@.len(),
            all == models(denies@),
            depth == denied_depth(),
            sorted@.len() == depths@.len(),
            forall|j: int|
                0 <= j < sorted@.len() ==> depth(models(sorted@)[j]) == #[trigger] depths@[j],
            models(sorted@) == by_depth(all.take(i as int), depth),
        decreases denies@.len() - i,
    {
        let ghost before = models(sorted@);
        let deny = ConcreteDeny { access: denies[i].access, path: denies[i].path.clone() };
        let level = path_depth(deny.path.as_str());
        let at = depth_position(&depths, level);
        proof {
            assert forall|j: int| at <= j < before.len() implies depth(#[trigger] before[j])
                > depth(deny@) by {
                assert(depths@[j] > level);
            }
            if at > 0 {
                assert(depths@[at - 1] <= level);
            }
            lemma_depth_position(before, deny@, depth, at as int);
        }
        let ghost depths_before = depths@;
        sorted.insert(at, deny);
        depths.insert(at, level);
        i = i + 1;
        assert(models(sorted@) =~= before.insert(at as int, deny@));
        assert forall|j: int| 0 <= j < sorted@.len() implies depth(models(sorted@)[j])
            == #[trigger] depths@[j] by {
            if j < at {
                assert(depths@[j] == depths_before[j]);
            } else if j > at {
                assert(depths@[j] == depths_before[j - 1]);
            }
        }
        assert(all.take(i as int).drop_last() =~= all.take(i - 1));
        assert(all.take(i as int).last() == deny@);
    }
    assert(all.take(i as int) =~= all);
    sorted
}

/// Whether a path lies below one of the rights.
pub open spec fn under_right(path: Seq<char>, rights: Seq<Right>) -> bool {
    exists|i: int| 0 <= i < rights.len() && lies_under(path, (#[trigger] rights[i]).path)
}

fn is_under_right(path: &str, rights: &Vec<NormalizedRight>) -> (found: bool)
    ensures
        found == under_right(path@, models(rights@)),
{
    let mut i: usize = 0;
    while i < rights.len()
        invariant
            i <= rights@.len(),
            forall|j: int|
                0 <= j < i ==> !lies_under(path@, (#[trigger] models(rights@)[j]).path),
        decreases rights@.len() - i,
    {
        assert(models(rights@)[i as int] == rights@[i as int]@);
        if path_starts_with(path, rights[i].path.as_str()) {
            return true;
        }
        i = i + 1;
    }
    false
}

/// The path that is made of the first `n` components of `path`.
pub open spec fn leading_path(path: Seq<char>, n: int) -> Seq<char> {
    rendered(components(path).take(n))
}

/// Whether a denied path can be reached from its first `n` components on
/// without crossing a symbolic link that the command could replace.
pub open spec fn crossing_free(host: Host, path: Seq<char>, writable: Seq<Right>, n: int) -> Decision<
    (),
>
    decreases components(path).len() + 1 - n,
{
    if n < 0 || n > components(path).len() {
        Ok(())
    } else {
        let current = leading_path(path, n);
        match host.path(current) {
            Err(halt) => Err(halt),
            Ok(facts) => match facts.link {
                None => Ok(()),
                Some(link) => if link && under_right(current, writable) {
                    refusal(
                        "cannot enforce deny path "@ + path + " across writable symlink "@
                            + current,
                    )
                } else {
                    crossing_free(host, path, writable, n + 1)
                },
            },
        }
    }
}

/// How denied paths are checked for crossings.
pub open spec fn crossing_step(host: Host, writable: Seq<Right>) -> spec_fn(DeniedPath) -> Decision<
    (),
> {
    |deny: DeniedPath| crossing_free(host, deny.path, writable, 1)
}

/// The paths that lead to a path, itself included.
pub open spec fn leading_paths(path: Seq<char>) -> Seq<Seq<char>> {
    Seq::new(components(path).len(), |i: int| leading_path(path, i + 1))
}

/// The paths that lead to denied paths, and the denied paths as they are written.
pub open spec fn all_leading_paths(denies: Seq<DeniedPath>) -> Seq<Seq<char>>
    decreases denies.len(),
{
    if denies.len() == 0 {
        Seq::empty()
    } else {
        all_leading_paths(denies.drop_last()) + leading_paths(denies.last().path).push(
            denies.last().path,
        )
    }
}

fn push_leading_paths(paths: &mut Vec<String>, path: &str)
    ensures
        texts(final(paths)@) == texts(old(paths)@) + leading_paths(path@).push(path@),
{
    let ghost start = texts(paths@);
    let ghost leading = leading_paths(path@);
    let parts = path_components(path);
    assert(texts(parts@).len() == parts@.len());
    let mut i: usize = 0;
    assert(start + leading.take(0) =~= start);
    while i < parts.len()
        invariant
            i <= parts@.len(),
            texts(parts@) == components(path@),
            parts@.len() == components(path@).len(),
            leading == leading_paths(path@),
            texts(paths@) == start + leading.take(i as int),
        decreases parts@.len() - i,
    {
        let ghost before = texts(paths@);
        i = i + 1;
        paths.push(path_of_parts(&parts, i));
        assert(texts(paths@) =~= before.push(leading[i - 1]));
        assert(leading.take(i as int) =~= leading.take(i - 1).push(leading[i - 1]));
        assert(texts(paths@) =~= start + leading.take(i as int));
    }
    assert(leading.take(i as int) =~= leading);
    let ghost before = texts(paths@);
    paths.push(path.to_owned());
    assert(texts(paths@) =~= before.push(path@));
    assert(texts(paths@) =~= start + leading.push(path@));
}

fn collect_leading_paths(denies: &Vec<ConcreteDeny>) -> (paths: Vec<String>)
    ensures
        texts(paths@) == all_leading_paths(models(denies@)),
{
    let ghost all = models(denies@);
    let mut paths: Vec<String> = Vec::new();
    let mut i: usize = 0;
    assert(all.take(0) =~= Seq::empty());
    assert(texts(paths@) =~= Seq::empty());
    while i < denies.len()
        invariant
            i <= denies@.len(),
            all == models(denies@),
            texts(paths@) == all_leading_paths(all.take(i as int)),
        decreases denies@.len() - i,
    {
        push_leading_paths(&mut paths, denies[i].path.as_str());
        i = i + 1;
        assert(all.take(i as int).drop_last() =~= all.take(i - 1));
        assert(all.take(i as int).last() == denies@[i - 1]@);
    }
    assert(all.take(i as int) =~= all);
    paths
}

fn check_crossing(path: &str, writable: &Vec<NormalizedRight>, facts: &Facts) -> (result: Result<
    (),
    Halt,
>)
    ensures
        decided(result) == crossing_free(facts@, path@, models(writable@), 1),
{
    let parts = path_components(path);
    assert(texts(parts@).len() == parts@.len());
    let mut i: usize = 0;
    while i < parts.len()
        invariant
            i <= parts@.len(),
            texts(parts@) == components(path@),
            parts@.len() == components(path@).len(),
            crossing_free(facts@, path@, models(writable@), 1) == crossing_free(
                facts@,
                path@,
                models(writable@),
                i + 1,
            ),
        decreases parts@.len() - i,
    {
        let current = path_of_parts(&parts, i + 1);
        let known = match facts.path(current.as_str()) {
            Ok(known) => known,
            Err(halt) => {
                return Err(halt);
            },
        };
        match known.link {
            None => {
                return Ok(());
            },
            Some(link) => {
                if link && is_under_right(current.as_str(), writable) {
                    return Err(
                        refused(
                            joined4(
                                "cannot enforce deny path ",
                                path,
                                " across writable symlink ",
                                current.as_str(),
                            ),
                        ),
                    );
                }
            },
        }
        i = i + 1;
    }
    Ok(())
}

/// Refuses denied paths that are reached through symbolic links which the
/// command could replace.
///
/// # Errors
///
/// Refuses a denied path with such a link on the way to it.
pub fn reject_writable_symlink_crossings(
    denies: &Vec<ConcreteDeny>,
    writable: &Vec<NormalizedRight>,
    facts: &Facts,
) -> (result: Result<(), Halt>)
    ensures
        match result {
            Ok(_) => each(models(denies@), crossing_step(facts@, models(writable@))) is Ok,
            Err(halt) => each(models(denies@), crossing_step(facts@, models(writable@))) == Err::<
                Seq<()>,
                HaltModel,
            >(halt@),
        },
{
    let ghost all = models(denies@);
    let ghost step = crossing_step(facts@, models(writable@));
    let mut i: usize = 0;
    assert(all.take(0) =~= Seq::empty());
    while i < denies.len()
        invariant
            i <= denies@.len(),
            all == models(denies@),
            step == crossing_step(facts@, models(writable@)),
            each(all.take(i as int), step) is Ok,
        decreases denies@.len() - i,
    {
        proof {
            lemma_each_step(all, step, i as int);
        }
        assert(all[i as int] == denies@[i as int]@);
        match check_crossing(denies[i].path.as_str(), writable, facts) {
            Ok(_) => {},
            Err(halt) => {
                return Err(halt);
            },
        }
        i = i + 1;
    }
    assert(all.take(i as int) =~= all);
    Ok(())
}

/// The control directories that rights open, in the order of the rights.
pub open spec fn opened_controls(rights: Seq<Right>) -> Seq<Seq<char>>
    decreases rights.len(),
{
    if rights.len() == 0 {
        Seq::empty()
    } else if opens_control(rights.last()) {
        opened_controls(rights.drop_last()).push(rights.last().path)
    } else {
        opened_controls(rights.drop_last())
    }
}

fn collect_opened_controls(rights: &Vec<NormalizedRight>) -> (paths: Vec<String>)
    ensures
        texts(paths@) == collected(Order::Path, opened_controls(models(rights@))),
{
    let ghost all = models(rights@);
    let mut paths: Vec<String> = Vec::new();
    let mut i: usize = 0;
    assert(all.take(0) =~= Seq::empty());
    assert(texts(paths@) =~= Seq::empty());
    while i < rights.len()
        invariant
            i <= rights@.len(),
            all == models(rights@),
            texts(paths@) == opened_controls(all.take(i as int)),
        decreases rights@.len() - i,
    {
        let ghost before = texts(paths@);
        if is_control_grant(&rights[i]) {
            paths.push(rights[i].path.clone());
            assert(texts(paths@) =~= before.push(rights@[i as int].path@));
        }
        i = i + 1;
        assert(all.take(i as int).drop_last() =~= all.take(i - 1));
        assert(all.take(i as int).last() == rights@[i - 1]@);
    }
    assert(all.take(i as int) =~= all);
    collect_items(Order::Path, &paths)
}

/// A missing host directory which Bubblewrap may create as a mount target. It
/// is removed only if it remains an empty directory after the command.
#[derive(Debug)]
pub struct SyntheticDirectory(String);

impl View for SyntheticDirectory {
    type V = Seq<char>;

    closed spec fn view(&self) -> Seq<char> {
        self.0@
    }
}

impl SyntheticDirectory {
    /// The directory at `path`.
    pub fn new(path: String) -> (directory: SyntheticDirectory)
        ensures
            directory@ == path@,
    {
        SyntheticDirectory(path)
    }

    /// The path of the directory.
    pub fn path(&self) -> (path: &str)
        ensures
            path@ == self@,
    {
        self.0.as_str()
    }

    /// Whether the directory may be removed: it can be listed and holds nothing.
    pub fn is_removable(&self, listing: &Listing) -> (removable: bool)
        ensures
            removable == (*listing is Ok && listing->Ok_0@.len() == 0),
    {
        match listing {
            Ok(entries) => entries.len() == 0,
            Err(_) => false,
        }
    }
}

/// Whether a control directory of the workspace has to be masked: it is
/// missing, and no right opens it.
pub open spec fn is_masked(host: Host, path: Seq<char>, approved: Seq<Seq<char>>) -> bool {
    !host.paths[path].is_present() && !holds(Order::Path, approved, path)
}

/// The missing control directories of the workspace that are masked.
pub open spec fn masked_controls(host: Host, cwd: Seq<char>, approved: Seq<Seq<char>>) -> Decision<
    Seq<Seq<char>>,
> {
    let git = pushed(cwd, ".git"@);
    let pi = pushed(cwd, ".pi"@);
    match all_known(host, seq![git, pi]) {
        Err(halt) => Err(halt),
        Ok(_) => {
            let first = if is_masked(host, git, approved) {
                seq![git]
            } else {
                Seq::empty()
            };
            if is_masked(host, pi, approved) {
                Ok(first.push(pi))
            } else {
                Ok(first)
            }
        },
    }
}

/// Finds the missing control directories of the workspace that are masked.
///
/// # Errors
///
/// Asks for the facts that are missing.
pub fn missing_workspace_control_paths(cwd: &str, approved: &Vec<String>, facts: &Facts) -> (result:
    Result<Vec<SyntheticDirectory>, Halt>)
    requires
        in_order(Order::Path, texts(approved@)),
    ensures
        decided_all(result) == masked_controls(facts@, cwd@, texts(approved@)),
{
    let git = path_join(cwd, ".git");
    let pi = path_join(cwd, ".pi");
    let mut paths: Vec<String> = Vec::new();
    paths.push(git.clone());
    paths.push(pi.clone());
    assert(texts(paths@) =~= seq![git@, pi@]);
    match require_paths(&paths, facts) {
        Ok(_) => {},
        Err(halt) => {
            return Err(halt);
        },
    }
    proof {
        reveal_with_fuel(crate::mounts::unknown_paths, 3);
        assert(seq![git@, pi@].drop_last() =~= seq![git@]);
        assert(seq![git@].drop_last() =~= Seq::<Seq<char>>::empty());
    }
    let mut masked: Vec<SyntheticDirectory> = Vec::new();
    assert(models(masked@) =~= Seq::empty());
    match facts.path(git.as_str()) {
        Ok(known) => {
            if !known.is_present() && !contains_item(Order::Path, approved, git.as_str()) {
                masked.push(SyntheticDirectory::new(git));
                assert(models(masked@) =~= seq![git@]);
            }
        },
        Err(halt) => {
            return Err(halt);
        },
    }
    let ghost before = models(masked@);
    match facts.path(pi.as_str()) {
        Ok(known) => {
            if !known.is_present() && !contains_item(Order::Path, approved, pi.as_str()) {
                masked.push(SyntheticDirectory::new(pi));
                assert(models(masked@) =~= before.push(pi@));
            }
        },
        Err(halt) => {
            return Err(halt);
        },
    }
    Ok(masked)
}

/// How a command reaches the network.
#[derive(Debug)]
pub struct LaunchNetwork {
    /// Whether the command has a network of its own.
    pub enabled: bool,
    /// The host proxy's socket, where traffic may leave that network.
    pub proxy_socket: Option<String>,
    /// Whether the command may accept connections in that network.
    pub allow_local_binding: bool,
}

/// What a command needs mounted, hidden and isolated.
#[derive(Debug)]
pub struct PreparedLaunch {
    /// The rights to write, from the outside in.
    pub writable: Vec<NormalizedRight>,
    /// The control directories that stay read-only, in order.
    pub protected: Vec<String>,
    /// The missing control directories that are masked.
    pub synthetic_directories: Vec<SyntheticDirectory>,
    /// The denied paths, from the outside in.
    pub denies: Vec<ConcreteDeny>,
    /// Whether a file has to be hidden.
    pub needs_hidden_file: bool,
    pub network: LaunchNetwork,
    pub cwd: String,
    pub command: Vec<String>,
}

/// How a command reaches the network.
pub struct NetworkPlan {
    pub enabled: bool,
    pub proxy_socket: Option<Seq<char>>,
    pub allow_local_binding: bool,
}

/// What a command needs mounted, hidden and isolated.
pub struct LaunchPlan {
    pub writable: Seq<Right>,
    pub protected: Seq<Seq<char>>,
    pub synthetic_directories: Seq<Seq<char>>,
    pub denies: Seq<DeniedPath>,
    pub needs_hidden_file: bool,
    pub network: NetworkPlan,
    pub cwd: Seq<char>,
    pub command: Seq<Seq<char>>,
}

impl View for LaunchNetwork {
    type V = NetworkPlan;

    open spec fn view(&self) -> NetworkPlan {
        NetworkPlan {
            enabled: self.enabled,
            proxy_socket: crate::protocol::text_option(self.proxy_socket),
            allow_local_binding: self.allow_local_binding,
        }
    }
}

impl View for PreparedLaunch {
    type V = LaunchPlan;

    open spec fn view(&self) -> LaunchPlan {
        LaunchPlan {
            writable: models(self.writable@),
            protected: texts(self.protected@),
            synthetic_directories: models(self.synthetic_directories@),
            denies: models(self.denies@),
            needs_hidden_file: self.needs_hidden_file,
            network: self.network@,
            cwd: self.cwd@,
            command: texts(self.command@),
        }
    }
}

/// How a network mode is carried out.
pub open spec fn network_plan(network: NetworkRequest) -> NetworkPlan {
    match network {
        NetworkRequest::Blocked => NetworkPlan {
            enabled: false,
            proxy_socket: None,
            allow_local_binding: false,
        },
        NetworkRequest::Loopback => NetworkPlan {
            enabled: true,
            proxy_socket: None,
            allow_local_binding: true,
        },
        NetworkRequest::Proxy { tcp_port, unix_socket, allow_local_binding } => NetworkPlan {
            enabled: true,
            proxy_socket: Some(unix_socket),
            allow_local_binding,
        },
    }
}

fn plan_network(network: &ValidatedNetworkPolicy) -> (plan: LaunchNetwork)
    ensures
        plan@ == network_plan(network@),
{
    match network {
        ValidatedNetworkPolicy::Blocked => LaunchNetwork {
            enabled: false,
            proxy_socket: None,
            allow_local_binding: false,
        },
        ValidatedNetworkPolicy::Loopback => LaunchNetwork {
            enabled: true,
            proxy_socket: None,
            allow_local_binding: true,
        },
        ValidatedNetworkPolicy::Proxy { tcp_port: _, unix_socket, allow_local_binding } => {
            LaunchNetwork {
                enabled: true,
                proxy_socket: Some(unix_socket.clone()),
                allow_local_binding: *allow_local_binding,
            }
        },
    }
}

/// Whether the rights of a request let the whole filesystem be read.
pub open spec fn reads_everything(rights: Seq<Right>) -> bool {
    exists|i: int|
        0 <= i < rights.len() && (#[trigger] rights[i]).access == Access::Read && rights[i].scope
            == PathScope::Tree && same_path(rights[i].path, "/"@)
}

fn may_read_everything(rights: &Vec<NormalizedRight>) -> (found: bool)
    ensures
        found == reads_everything(models(rights@)),
{
    let mut i: usize = 0;
    while i < rights.len()
        invariant
            i <= rights@.len(),
            forall|j: int|
                0 <= j < i ==> !((#[trigger] models(rights@)[j]).access == Access::Read && models(
                    rights@,
                )[j].scope == PathScope::Tree && same_path(models(rights@)[j].path, "/"@)),
        decreases rights@.len() - i,
    {
        assert(models(rights@)[i as int] == rights@[i as int]@);
        if rights[i].access == Access::Read && rights[i].scope == PathScope::Tree && paths_equal(
            rights[i].path.as_str(),
            "/",
        ) {
            return true;
        }
        i = i + 1;
    }
    false
}

/// Whether a denied path is a file that has to be hidden.
pub open spec fn is_hidden_file(host: Host, deny: DeniedPath) -> bool {
    !(host.paths.contains_key(deny.path) && host.paths[deny.path].is_dir()) && deny.access
        != DeniedAccess::Write
}

/// Whether one of the denied paths is a file that has to be hidden.
pub open spec fn hides_a_file(host: Host, denies: Seq<DeniedPath>) -> bool {
    exists|i: int| 0 <= i < denies.len() && is_hidden_file(host, #[trigger] denies[i])
}

fn needs_hidden_file(denies: &Vec<ConcreteDeny>, facts: &Facts) -> (needed: bool)
    ensures
        needed == hides_a_file(facts@, models(denies@)),
{
    let mut i: usize = 0;
    while i < denies.len()
        invariant
            i <= denies@.len(),
            forall|j: int| 0 <= j < i ==> !is_hidden_file(facts@, #[trigger] models(denies@)[j]),
        decreases denies@.len() - i,
    {
        assert(models(denies@)[i as int] == denies@[i as int]@);
        let directory = match facts.path(denies[i].path.as_str()) {
            Ok(known) => known.is_dir(),
            Err(_) => false,
        };
        if !directory && denies[i].access != DeniedAccess::Write {
            return true;
        }
        i = i + 1;
    }
    false
}

/// The launch of a validated command, or why there is none.
pub open spec fn launch_plan(
    host: Host,
    now: u64,
    request: Validated,
    command: Seq<Seq<char>>,
) -> Decision<LaunchPlan> {
    if request.unix_socket_roots.len() > 0 {
        refusal("Unix socket roots are only supported by the macOS Seatbelt backend"@)
    } else if !reads_everything(request.rights) {
        refusal("Linux protocol v4 requires an explicit read right for /"@)
    } else if command.len() == 0 {
        refusal("command is empty"@)
    } else {
        let writable = by_depth(write_rights(request.rights), right_depth());
        match all_known(host, deny_paths(request.denies)) {
            Err(halt) => Err(halt),
            Ok(_) => match each(request.denies, mountable_step(host, writable)) {
                Err(halt) => Err(halt),
                Ok(_) => {
                    let approved = collected(Order::Path, opened_controls(writable));
                    match control_paths(host, now, request.cwd, approved) {
                        Err(halt) => Err(halt),
                        Ok(protected) => match masked_controls(host, request.cwd, approved) {
                            Err(halt) => Err(halt),
                            Ok(synthetic_directories) => match concrete(
                                host,
                                now,
                                request.denies,
                                request.cwd,
                            ) {
                                Err(halt) => Err(halt),
                                Ok(found) => {
                                    let denies = by_depth(found, denied_depth());
                                    match all_known(host, all_leading_paths(denies)) {
                                        Err(halt) => Err(halt),
                                        Ok(_) => match each(
                                            denies,
                                            crossing_step(host, writable),
                                        ) {
                                            Err(halt) => Err(halt),
                                            Ok(_) => Ok(
                                                LaunchPlan {
                                                    writable,
                                                    protected,
                                                    synthetic_directories,
                                                    denies,
                                                    needs_hidden_file: hides_a_file(host, denies),
                                                    network: network_plan(request.network),
                                                    cwd: request.cwd,
                                                    command,
                                                },
                                            ),
                                        },
                                    }
                                },
                            },
                        },
                    }
                },
            },
        }
    }
}

/// Decides what a validated command needs mounted, hidden and isolated.
///
/// # Errors
///
/// Refuses a request that Bubblewrap cannot carry out as it stands or whose
/// policy cannot be scanned within bounds, and asks for the facts that are
/// missing.
pub fn prepare(request: &ValidatedExec, command: &Vec<String>, facts: &Facts, now: u64) -> (result:
    Result<PreparedLaunch, Halt>)
    ensures
        decided(result) == launch_plan(facts@, now, request@, texts(command@)),
{
    assert(texts(request.unix_socket_roots@).len() == request.unix_socket_roots@.len());
    if request.unix_socket_roots.len() > 0 {
        return Err(
            refused(
                "Unix socket roots are only supported by the macOS Seatbelt backend".to_owned(),
            ),
        );
    }
    if !may_read_everything(&request.rights) {
        return Err(
            refused("Linux protocol v4 requires an explicit read right for /".to_owned()),
        );
    }
    assert(texts(command@).len() == command@.len());
    if command.len() == 0 {
        return Err(refused("command is empty".to_owned()));
    }
    let writable = sort_rights(select_writable(&request.rights));
    match require_paths(&collect_deny_paths(&request.denies), facts) {
        Ok(_) => {},
        Err(halt) => {
            return Err(halt);
        },
    }
    match reject_missing_concrete_denies(&request.denies, &writable, facts) {
        Ok(_) => {},
        Err(halt) => {
            return Err(halt);
        },
    }
    let approved = collect_opened_controls(&writable);
    proof {
        collected_is_a_set(Order::Path, opened_controls(models(writable@)));
    }
    let protected = match protected_workspace_paths(request.cwd.as_str(), &approved, facts, now) {
        Ok(protected) => protected,
        Err(halt) => {
            return Err(halt);
        },
    };
    assert(models(protected@) =~= texts(protected@));
    let synthetic_directories = match missing_workspace_control_paths(
        request.cwd.as_str(),
        &approved,
        facts,
    ) {
        Ok(directories) => directories,
        Err(halt) => {
            return Err(halt);
        },
    };
    let denies = match concrete_denies(&request.denies, request.cwd.as_str(), facts, now) {
        Ok(denies) => sort_denies(denies),
        Err(halt) => {
            return Err(halt);
        },
    };
    match require_paths(&collect_leading_paths(&denies), facts) {
        Ok(_) => {},
        Err(halt) => {
            return Err(halt);
        },
    }
    match reject_writable_symlink_crossings(&denies, &writable, facts) {
        Ok(_) => {},
        Err(halt) => {
            return Err(halt);
        },
    }
    let hidden = needs_hidden_file(&denies, facts);
    Ok(
        PreparedLaunch {
            writable,
            protected,
            synthetic_directories,
            denies,
            needs_hidden_file: hidden,
            network: plan_network(&request.network),
            cwd: request.cwd.clone(),
            command: copy_texts(command),
        },
    )
}

proof fn lemma_opened_controls(rights: Seq<Right>)
    ensures
        forall|i: int|
            0 <= i < opened_controls(rights).len() ==> file_name_of(
                #[trigger] opened_controls(rights)[i],
            ) == Some(".git"@),
    decreases rights.len(),
{
    if rights.len() > 0 {
        lemma_opened_controls(rights.drop_last());
    }
}

/// A launch masks a missing `.pi` of the workspace, whatever rights there are, and
/// asks for no general socket path.
pub proof fn a_missing_pi_is_masked(
    host: Host,
    now: u64,
    request: Validated,
    command: Seq<Seq<char>>,
)
    requires
        is_absolute(request.cwd),
        launch_plan(host, now, request, command) is Ok,
        !host.paths[pushed(request.cwd, ".pi"@)].is_present(),
    ensures
        launch_plan(host, now, request, command)->Ok_0.synthetic_directories.contains(
            pushed(request.cwd, ".pi"@),
        ),
        request.unix_socket_roots.len() == 0,
{
    let pi = pushed(request.cwd, ".pi"@);
    let writable = by_depth(write_rights(request.rights), right_depth());
    let opened = opened_controls(writable);
    let approved = collected(Order::Path, opened);
    reveal_strlit(".pi");
    reveal_strlit(".git");
    assert(is_entry_name(".pi"@)) by {
        assert(".pi"@.len() == 3);
        assert(!".pi"@.contains('/'));
    }
    a_pushed_name_is_a_component(request.cwd, ".pi"@);
    assert(components(pi).last() == ".pi"@);
    lemma_opened_controls(writable);
    collected_is_a_set(Order::Path, opened);
    if holds(Order::Path, approved, pi) {
        assert(holds(Order::Path, opened, pi));
        let i = choose|i: int| 0 <= i < opened.len() && item_same(Order::Path, opened[i], pi);
        assert(file_name_of(opened[i]) == Some(".git"@));
        assert(components(opened[i]).last() == ".git"@);
        assert(".git"@.len() == 4);
    }
    let masked = masked_controls(host, request.cwd, approved)->Ok_0;
    assert(masked.last() == pi);
    assert(masked[masked.len() - 1] == pi);
}

} // verus!
