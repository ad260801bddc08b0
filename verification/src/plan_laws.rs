//! What the launch of an accepted command takes over from its request.

use vstd::prelude::*;

use crate::bubblewrap::{launch_arguments, missing_target, type_step, Descriptors};
use crate::expansion::{control_paths, glob_matches};
use crate::facts::{EntryKind, EntryModel, FileKind, HaltModel, Host, ProbeModel};
use crate::guarantees::lemma_each_all;
use crate::launch_laws::{at_least, every_fixed_deny_is_part_of_a_launch, is_enforced, place_of};
use crate::linux::{
    crossing_free, crossing_step, denied_depth, depth_order_is_a_reordering, launch_plan,
    leading_path, opened_controls, right_depth, LaunchPlan,
};
use crate::mount_laws::{can_be_read, can_be_written, is_put_last, read_denied_paths_cannot_be_read};
use crate::mounts::{
    all_known, concrete, deny_insertion, deny_placed, fixed_placed, glob_denies, globs_placed,
    mountable_step, paths_placed, patterns_of, shorter, unknown_paths, DeniedPath,
};
use crate::order::{collected, collected_is_a_set, holds, item_same, Order};
use crate::paths::{
    components, file_name_of, is_absolute, is_entry_name, lies_under, parent_of, pushed, rendered,
    same_path,
};
use crate::profile::write_rights;
use crate::profile_laws::write_rights_are_the_rights_to_write;
use crate::protocol::{Access, DeniedAccess, DenyScope, NetworkRequest, PathScope};
use crate::search_laws::{every_control_directory_is_found, is_among, is_looked_at};
use crate::seatbelt::{under_any, Deny, Right};
use crate::validation::Validated;

verus! {

/// A launch is that of its request: in the same directory, of the given command, with
/// the network that was asked for; and it is made only for a request that may read
/// everything and asks for no sockets of its own.
pub proof fn launches_carry_the_request(
    host: Host,
    now: u64,
    request: Validated,
    command: Seq<Seq<char>>,
)
    ensures
        launch_plan(host, now, request, command) matches Ok(plan) ==> {
            &&& plan.cwd == request.cwd
            &&& plan.command == command
            &&& command.len() > 0
            &&& request.unix_socket_roots.len() == 0
            &&& exists|i: int|
                0 <= i < request.rights.len() && (#[trigger] request.rights[i]).access
                    == Access::Read && request.rights[i].scope == PathScope::Tree && components(
                    request.rights[i].path,
                ) == components("/"@)
            &&& match request.network {
                NetworkRequest::Blocked => !plan.network.enabled && plan.network.proxy_socket
                    is None,
                NetworkRequest::Loopback => plan.network.enabled && plan.network.proxy_socket
                    is None && plan.network.allow_local_binding,
                NetworkRequest::Proxy { unix_socket, allow_local_binding, .. } => {
                    &&& plan.network.enabled
                    &&& plan.network.proxy_socket == Some(unix_socket)
                    &&& plan.network.allow_local_binding == allow_local_binding
                },
            }
            &&& plan.needs_hidden_file <==> exists|k: int|
                0 <= k < plan.denies.len() && (#[trigger] plan.denies[k]).access
                    != DeniedAccess::Write && !(host.paths.contains_key(plan.denies[k].path)
                    && host.paths[plan.denies[k].path].is_dir())
        },
{
}

/// What a launch opens for writing is what the rights to write of its request name, all
/// of it and nothing else, and what lies deeper comes later.
pub proof fn launches_open_the_rights_to_write(
    host: Host,
    now: u64,
    request: Validated,
    command: Seq<Seq<char>>,
)
    ensures
        launch_plan(host, now, request, command) matches Ok(plan) ==> {
            &&& forall|right: Right| #[trigger]
                plan.writable.contains(right) <==> right.access == Access::Write
                    && request.rights.contains(right)
            &&& forall|i: int, j: int|
                0 <= i <= j < plan.writable.len() ==> components(
                    (#[trigger] plan.writable[i]).path,
                ).len() <= components((#[trigger] plan.writable[j]).path).len()
        },
{
    broadcast use vstd::seq_lib::group_to_multiset_ensures;

    if let Ok(plan) = launch_plan(host, now, request, command) {
        let rights = write_rights(request.rights);
        write_rights_are_the_rights_to_write(request.rights);
        depth_order_is_a_reordering(rights, right_depth());
        assert forall|right: Right| #[trigger] plan.writable.contains(right) <==> right.access
            == Access::Write && request.rights.contains(right) by {
            assert(plan.writable.contains(right) <==> plan.writable.to_multiset().count(right)
                > 0);
            assert(rights.contains(right) <==> rights.to_multiset().count(right) > 0);
        }
        assert forall|i: int, j: int| 0 <= i <= j < plan.writable.len() implies components(
            (#[trigger] plan.writable[i]).path,
        ).len() <= components((#[trigger] plan.writable[j]).path).len() by {
            assert(right_depth()(plan.writable[i]) <= right_depth()(plan.writable[j]));
        }
    }
}

/// What is denied comes from the outside in, so that the deeper deny decides.
pub proof fn deeper_denies_come_later(
    host: Host,
    now: u64,
    request: Validated,
    command: Seq<Seq<char>>,
)
    ensures
        launch_plan(host, now, request, command) matches Ok(plan) ==> forall|i: int, j: int|
            0 <= i <= j < plan.denies.len() ==> components((#[trigger] plan.denies[i]).path).len()
                <= components((#[trigger] plan.denies[j]).path).len(),
{
    if let Ok(plan) = launch_plan(host, now, request, command) {
        let all = concrete(host, now, request.denies, request.cwd)->Ok_0;
        depth_order_is_a_reordering(all, denied_depth());
        assert forall|i: int, j: int| 0 <= i <= j < plan.denies.len() implies components(
            (#[trigger] plan.denies[i]).path,
        ).len() <= components((#[trigger] plan.denies[j]).path).len() by {
            assert(denied_depth()(plan.denies[i]) <= denied_depth()(plan.denies[j]));
        }
    }
}

/// No command is launched that could make what is denied to it: a denied path that does
/// not exist neither lies below a right to write nor above one.
pub proof fn missing_denies_meet_no_right_to_write(
    host: Host,
    now: u64,
    request: Validated,
    command: Seq<Seq<char>>,
    d: int,
    right: Right,
)
    requires
        launch_plan(host, now, request, command) is Ok,
        0 <= d < request.denies.len(),
        request.denies[d].scope != DenyScope::Glob,
        request.denies[d].path is Some,
        host.paths[request.denies[d].path->0].target is Err,
        request.rights.contains(right),
        right.access == Access::Write,
    ensures
        !lies_under(request.denies[d].path->0, right.path),
        !lies_under(right.path, request.denies[d].path->0),
{
    let plan = launch_plan(host, now, request, command)->Ok_0;
    launches_open_the_rights_to_write(host, now, request, command);
    assert(plan.writable.contains(right));
    let i = choose|i: int| 0 <= i < plan.writable.len() && plan.writable[i] == right;
    lemma_each_all(request.denies, mountable_step(host, plan.writable));
    assert(mountable_step(host, plan.writable)(request.denies[d]) is Ok);
    assert(plan.writable[i].path == right.path);
}

proof fn lemma_crossing(host: Host, path: Seq<char>, writable: Seq<Right>, from: int, n: int)
    requires
        crossing_free(host, path, writable, from) is Ok,
        0 <= from <= n <= components(path).len(),
        forall|m: int|
            from <= m <= n ==> host.paths[#[trigger] leading_path(path, m)].link is Some,
        host.paths[leading_path(path, n)].link == Some(true),
    ensures
        forall|i: int|
            0 <= i < writable.len() ==> !lies_under(
                leading_path(path, n),
                (#[trigger] writable[i]).path,
            ),
    decreases n - from,
{
    assert(host.paths[leading_path(path, from)].link is Some);
    if from < n {
        lemma_crossing(host, path, writable, from + 1, n);
    }
}

/// No denied path is reached through a link that the command could replace: where a part
/// of the way to it is a symbolic link, no right to write is over that link.
pub proof fn no_writable_link_leads_to_a_denied_path(
    host: Host,
    now: u64,
    request: Validated,
    command: Seq<Seq<char>>,
    k: int,
    n: int,
    right: Right,
)
    requires
        launch_plan(host, now, request, command) is Ok,
        0 <= k < launch_plan(host, now, request, command)->Ok_0.denies.len(),
        ({
            let path = launch_plan(host, now, request, command)->Ok_0.denies[k].path;
            &&& 1 <= n <= components(path).len()
            &&& forall|m: int|
                1 <= m <= n ==> host.paths[#[trigger] rendered(components(path).take(m))].link
                    is Some
            &&& host.paths[rendered(components(path).take(n))].link == Some(true)
        }),
        request.rights.contains(right),
        right.access == Access::Write,
    ensures
        !lies_under(
            rendered(
                components(launch_plan(host, now, request, command)->Ok_0.denies[k].path).take(n),
            ),
            right.path,
        ),
{
    let plan = launch_plan(host, now, request, command)->Ok_0;
    let path = plan.denies[k].path;
    launches_open_the_rights_to_write(host, now, request, command);
    assert(plan.writable.contains(right));
    let i = choose|i: int| 0 <= i < plan.writable.len() && plan.writable[i] == right;
    lemma_each_all(plan.denies, crossing_step(host, plan.writable));
    assert(crossing_step(host, plan.writable)(plan.denies[k]) is Ok);
    assert forall|m: int| 1 <= m <= n implies host.paths[#[trigger] leading_path(path, m)].link
        is Some by {
        assert(leading_path(path, m) == rendered(components(path).take(m)));
    }
    lemma_crossing(host, path, plan.writable, 1, n);
    assert(plan.writable[i].path == right.path);
}

/// Whether a deny is about a kind of access: about reading, or about writing.
pub open spec fn is_about(access: DeniedAccess, reading: bool) -> bool {
    if reading {
        access != DeniedAccess::Write
    } else {
        access != DeniedAccess::Read
    }
}

/// Whether a deny names a path that it does not exempt, and takes hold at `place`: on
/// the path itself, or on what a link leads to.
pub open spec fn takes_hold(
    host: Host,
    deny: Deny,
    path: Seq<char>,
    place: Seq<char>,
) -> bool {
    &&& forall|e: int|
        0 <= e < deny.exempt_roots.len() ==> !lies_under(path, #[trigger] deny.exempt_roots[e])
    &&& host.paths[path].link == Some(true) ==> host.paths[path].canonical is Ok && components(
        place,
    ) == components(host.paths[path].canonical->Ok_0)
    &&& host.paths[path].link != Some(true) ==> components(place) == components(path)
}

/// Whether some deny of an access takes hold at a place: by its path, which exists, or
/// by what its glob matches.
pub open spec fn is_called_for(
    host: Host,
    denies: Seq<Deny>,
    found: Seq<Seq<Seq<char>>>,
    reading: bool,
    place: Seq<char>,
) -> bool {
    ||| exists|d: int|
        {
            &&& 0 <= d < denies.len()
            &&& denies[d].scope != DenyScope::Glob
            &&& denies[d].path is Some
            &&& is_about(denies[d].access, reading)
            &&& host.paths[denies[d].path->0].target is Ok
            &&& takes_hold(host, #[trigger] denies[d], denies[d].path->0, place)
        }
    ||| exists|j: int, i: int|
        {
            let globs = glob_denies(denies);
            &&& 0 <= j < globs.len()
            &&& 0 <= j < found.len()
            &&& 0 <= i < found[j].len()
            &&& is_about(globs[j].access, reading)
            &&& takes_hold(host, globs[j], #[trigger] found[j][i], place)
        }
}

/// Whether each denied path is called for, in each access that is denied of it.
#[verifier::opaque]
pub open spec fn all_called_for(
    host: Host,
    denies: Seq<Deny>,
    found: Seq<Seq<Seq<char>>>,
    table: Seq<DeniedPath>,
) -> bool {
    forall|k: int|
        0 <= k < table.len() ==> {
            &&& is_about((#[trigger] table[k]).access, true) ==> is_called_for(
                host,
                denies,
                found,
                true,
                table[k].path,
            )
            &&& is_about(table[k].access, false) ==> is_called_for(
                host,
                denies,
                found,
                false,
                table[k].path,
            )
        }
}

proof fn lemma_called_same(
    host: Host,
    denies: Seq<Deny>,
    found: Seq<Seq<Seq<char>>>,
    reading: bool,
    a: Seq<char>,
    b: Seq<char>,
)
    requires
        components(a) == components(b),
        is_called_for(host, denies, found, reading, a),
    ensures
        is_called_for(host, denies, found, reading, b),
{
    if exists|d: int|
        {
            &&& 0 <= d < denies.len()
            &&& denies[d].scope != DenyScope::Glob
            &&& denies[d].path is Some
            &&& is_about(denies[d].access, reading)
            &&& host.paths[denies[d].path->0].target is Ok
            &&& takes_hold(host, #[trigger] denies[d], denies[d].path->0, a)
        } {
        let d = choose|d: int|
            {
                &&& 0 <= d < denies.len()
                &&& denies[d].scope != DenyScope::Glob
                &&& denies[d].path is Some
                &&& is_about(denies[d].access, reading)
                &&& host.paths[denies[d].path->0].target is Ok
                &&& takes_hold(host, #[trigger] denies[d], denies[d].path->0, a)
            };
        assert(takes_hold(host, denies[d], denies[d].path->0, b));
    } else {
        let globs = glob_denies(denies);
        let (j, i) = choose|j: int, i: int|
            {
                &&& 0 <= j < globs.len()
                &&& 0 <= j < found.len()
                &&& 0 <= i < found[j].len()
                &&& is_about(globs[j].access, reading)
                &&& takes_hold(host, globs[j], #[trigger] found[j][i], a)
            };
        assert(takes_hold(host, globs[j], found[j][i], b));
    }
}

proof fn lemma_insertion_called(
    host: Host,
    denies: Seq<Deny>,
    found: Seq<Seq<Seq<char>>>,
    table: Seq<DeniedPath>,
    deny: DeniedPath,
)
    requires
        all_called_for(host, denies, found, table),
        is_about(deny.access, true) ==> is_called_for(host, denies, found, true, deny.path),
        is_about(deny.access, false) ==> is_called_for(host, denies, found, false, deny.path),
    ensures
        all_called_for(host, denies, found, deny_insertion(table, deny)),
    decreases table.len(),
{
    reveal(all_called_for);
    let out = deny_insertion(table, deny);
    if table.len() > 0 {
        let last = table.last();
        let front = table.drop_last();
        assert(all_called_for(host, denies, found, front)) by {
            assert forall|k: int| 0 <= k < front.len() implies #[trigger] front[k] == table[k] by {}
        }
        assert(table[table.len() - 1] == last);
        lemma_insertion_called(host, denies, found, front, deny);
        if same_path(last.path, deny.path) {
            if is_about(deny.access, true) {
                lemma_called_same(host, denies, found, true, deny.path, last.path);
            }
            if is_about(deny.access, false) {
                lemma_called_same(host, denies, found, false, deny.path, last.path);
            }
        }
    }
}

proof fn lemma_placed_called(
    host: Host,
    denies: Seq<Deny>,
    found: Seq<Seq<Seq<char>>>,
    table: Seq<DeniedPath>,
    deny: Deny,
    path: Seq<char>,
)
    requires
        all_called_for(host, denies, found, table),
        deny_placed(host, table, deny, path) is Ok,
        forall|reading: bool, place: Seq<char>|
            is_about(deny.access, reading) && #[trigger] takes_hold(host, deny, path, place)
                ==> #[trigger] is_called_for(host, denies, found, reading, place),
    ensures
        all_called_for(host, denies, found, deny_placed(host, table, deny, path)->Ok_0),
{
    if !under_any(path, deny.exempt_roots) {
        let facts = host.paths[path];
        let place = if facts.link == Some(true) {
            facts.canonical->Ok_0
        } else {
            path
        };
        assert(takes_hold(host, deny, path, place)) by {
            assert forall|e: int| 0 <= e < deny.exempt_roots.len() implies !lies_under(
                path,
                #[trigger] deny.exempt_roots[e],
            ) by {}
        }
        if is_about(deny.access, true) {
            assert(is_called_for(host, denies, found, true, place));
        }
        if is_about(deny.access, false) {
            assert(is_called_for(host, denies, found, false, place));
        }
        lemma_insertion_called(
            host,
            denies,
            found,
            table,
            DeniedPath { access: deny.access, path: place },
        );
    }
}

proof fn lemma_fixed_called(
    host: Host,
    denies: Seq<Deny>,
    found: Seq<Seq<Seq<char>>>,
    n: int,
)
    requires
        0 <= n <= denies.len(),
        fixed_placed(host, denies.take(n)) is Ok,
    ensures
        all_called_for(host, denies, found, fixed_placed(host, denies.take(n))->Ok_0),
    decreases n,
{
    let part = denies.take(n);
    if n == 0 {
        reveal(all_called_for);
    } else {
        assert(part.drop_last() =~= denies.take(n - 1));
        lemma_fixed_called(host, denies, found, n - 1);
        let deny = part.last();
        assert(deny == denies[n - 1]);
        let table = fixed_placed(host, denies.take(n - 1))->Ok_0;
        if deny.scope != DenyScope::Glob && deny.path is Some && host.paths[deny.path->0].target
            is Ok {
            assert forall|reading: bool, place: Seq<char>|
                is_about(deny.access, reading) && #[trigger] takes_hold(
                    host,
                    deny,
                    deny.path->0,
                    place,
                ) implies #[trigger] is_called_for(host, denies, found, reading, place) by {
                assert(takes_hold(host, denies[n - 1], denies[n - 1].path->0, place));
            }
            lemma_placed_called(host, denies, found, table, deny, deny.path->0);
        }
    }
}

proof fn lemma_paths_called(
    host: Host,
    denies: Seq<Deny>,
    found: Seq<Seq<Seq<char>>>,
    table: Seq<DeniedPath>,
    j: int,
    n: int,
)
    requires
        0 <= j < glob_denies(denies).len(),
        0 <= j < found.len(),
        0 <= n <= found[j].len(),
        all_called_for(host, denies, found, table),
        paths_placed(host, table, glob_denies(denies)[j], found[j].take(n)) is Ok,
    ensures
        all_called_for(
            host,
            denies,
            found,
            paths_placed(host, table, glob_denies(denies)[j], found[j].take(n))->Ok_0,
        ),
    decreases n,
{
    let deny = glob_denies(denies)[j];
    let part = found[j].take(n);
    if n > 0 {
        assert(part.drop_last() =~= found[j].take(n - 1));
        lemma_paths_called(host, denies, found, table, j, n - 1);
        let before = paths_placed(host, table, deny, found[j].take(n - 1))->Ok_0;
        assert(part.last() == found[j][n - 1]);
        assert forall|reading: bool, place: Seq<char>|
            is_about(deny.access, reading) && #[trigger] takes_hold(
                host,
                deny,
                part.last(),
                place,
            ) implies #[trigger] is_called_for(host, denies, found, reading, place) by {
            assert(takes_hold(host, glob_denies(denies)[j], found[j][n - 1], place));
        }
        lemma_placed_called(host, denies, found, before, deny, part.last());
    }
}

proof fn lemma_globs_called(
    host: Host,
    denies: Seq<Deny>,
    found: Seq<Seq<Seq<char>>>,
    table: Seq<DeniedPath>,
    n: nat,
)
    requires
        n <= glob_denies(denies).len(),
        n <= found.len(),
        all_called_for(host, denies, found, table),
        globs_placed(host, table, glob_denies(denies), found, n) is Ok,
    ensures
        all_called_for(
            host,
            denies,
            found,
            globs_placed(host, table, glob_denies(denies), found, n)->Ok_0,
        ),
    decreases n,
{
    if n > 0 {
        let globs = glob_denies(denies);
        let m = (n - 1) as nat;
        lemma_globs_called(host, denies, found, table, m);
        let before = globs_placed(host, table, globs, found, m)->Ok_0;
        let len = found[n - 1].len() as int;
        assert(found[n - 1].take(len) =~= found[n - 1]);
        lemma_paths_called(host, denies, found, before, n - 1, len);
    }
}

/// A launch denies nothing that was not asked for: where it denies reading or writing at
/// a place, a deny of the request is about that access and takes hold there, by its own
/// path or by what its glob matches.
pub proof fn launches_deny_only_what_is_asked_for(
    host: Host,
    now: u64,
    request: Validated,
    command: Seq<Seq<char>>,
    k: int,
)
    requires
        launch_plan(host, now, request, command) is Ok,
        0 <= k < launch_plan(host, now, request, command)->Ok_0.denies.len(),
    ensures
        ({
            let deny = launch_plan(host, now, request, command)->Ok_0.denies[k];
            let found = glob_matches(
                host,
                now,
                patterns_of(glob_denies(request.denies)),
                request.cwd,
            )->Ok_0;
            &&& is_about(deny.access, true) ==> is_called_for(
                host,
                request.denies,
                found,
                true,
                deny.path,
            )
            &&& is_about(deny.access, false) ==> is_called_for(
                host,
                request.denies,
                found,
                false,
                deny.path,
            )
        }),
{
    broadcast use vstd::seq_lib::group_to_multiset_ensures;

    let plan = launch_plan(host, now, request, command)->Ok_0;
    let denies = request.denies;
    let globs = glob_denies(denies);
    let found = glob_matches(host, now, patterns_of(globs), request.cwd)->Ok_0;
    let table = fixed_placed(host, denies)->Ok_0;
    let all = concrete(host, now, denies, request.cwd)->Ok_0;
    assert(denies.take(denies.len() as int) =~= denies);
    lemma_fixed_called(host, denies, found, denies.len() as int);
    lemma_globs_called(host, denies, found, table, shorter(globs.len(), found.len()));
    depth_order_is_a_reordering(all, denied_depth());
    assert(plan.denies.contains(plan.denies[k]));
    assert(plan.denies.to_multiset().count(plan.denies[k]) > 0);
    assert(all.contains(plan.denies[k]));
    let i = choose|i: int| 0 <= i < all.len() && all[i] == plan.denies[k];
    reveal(all_called_for);
    assert(is_about(all[i].access, true) ==> is_called_for(host, denies, found, true, all[i].path));
}

/// What a request may not read, its command cannot read: a path that a deny of reading
/// names, that exists and that the deny does not exempt, nor anything below the place
/// where the deny takes hold. Only a deeper deny of writing alone, the proxy's directory
/// and the launcher put something else there.
pub proof fn what_is_denied_to_a_request_cannot_be_read(
    host: Host,
    now: u64,
    request: Validated,
    command: Seq<Seq<char>>,
    later: Host,
    descriptors: Descriptors,
    d: int,
    place: Seq<char>,
    path: Seq<char>,
)
    requires
        launch_plan(host, now, request, command) is Ok,
        0 <= d < request.denies.len(),
        request.denies[d].scope != DenyScope::Glob,
        request.denies[d].path is Some,
        request.denies[d].access != DeniedAccess::Write,
        host.paths[request.denies[d].path->0].target is Ok,
        takes_hold(host, request.denies[d], request.denies[d].path->0, place),
        lies_under(path, place),
        ({
            let plan = launch_plan(host, now, request, command)->Ok_0;
            &&& launch_arguments(later, plan, descriptors) is Ok
            &&& !is_put_last(plan, path)
            &&& forall|k: int|
                0 <= k < plan.denies.len() ==> {
                    &&& components((#[trigger] plan.denies[k]).path) == components(place)
                        ==> later.paths[plan.denies[k].path].target is Ok
                    &&& plan.denies[k].access == DeniedAccess::Write ==> !lies_under(
                        path,
                        plan.denies[k].path,
                    )
                }
        }),
    ensures
        ({
            let arguments = launch_arguments(
                later,
                launch_plan(host, now, request, command)->Ok_0,
                descriptors,
            )->Ok_0;
            !can_be_read(arguments, path) && !can_be_written(arguments, path)
        }),
{
    let plan = launch_plan(host, now, request, command)->Ok_0;
    let deny = request.denies[d];
    assert(!under_any(deny.path->0, deny.exempt_roots));
    every_fixed_deny_is_part_of_a_launch(host, now, request, command, d);
    let held = place_of(host, deny.path->0);
    assert(components(held) == components(place));
    assert(is_enforced(plan.denies, deny.access, held));
    let k = choose|k: int|
        0 <= k < plan.denies.len() && same_path((#[trigger] plan.denies[k]).path, held)
            && at_least(plan.denies[k].access, deny.access);
    assert(lies_under(path, plan.denies[k].path));
    read_denied_paths_cannot_be_read(later, plan, descriptors, k, path);
}

/// A missing `.git` of the workspace is masked, unless a granted right to write is on
/// it; and nothing is masked but the missing `.git` and `.pi` of the workspace.
pub proof fn missing_control_directories_are_masked(
    host: Host,
    now: u64,
    request: Validated,
    command: Seq<Seq<char>>,
)
    requires
        launch_plan(host, now, request, command) is Ok,
    ensures
        ({
            let plan = launch_plan(host, now, request, command)->Ok_0;
            let git = pushed(request.cwd, ".git"@);
            let pi = pushed(request.cwd, ".pi"@);
            &&& host.paths[git].target is Err && (forall|i: int|
                0 <= i < request.rights.len() && (#[trigger] request.rights[i]).access
                    == Access::Write && request.rights[i].approved ==> components(
                    request.rights[i].path,
                ) != components(git)) ==> plan.synthetic_directories.contains(git)
            &&& forall|i: int|
                0 <= i < plan.synthetic_directories.len() ==> {
                    let path = #[trigger] plan.synthetic_directories[i];
                    (path == git || path == pi) && host.paths[path].target is Err
                }
        }),
{
    let plan = launch_plan(host, now, request, command)->Ok_0;
    let git = pushed(request.cwd, ".git"@);
    let pi = pushed(request.cwd, ".pi"@);
    let approved = collected(
        Order::Path,
        opened_controls(plan.writable),
    );
    if host.paths[git].target is Err && (forall|i: int|
        0 <= i < request.rights.len() && (#[trigger] request.rights[i]).access == Access::Write
            && request.rights[i].approved ==> components(request.rights[i].path) != components(
            git,
        )) {
        assert(!holds(Order::Path, approved, git)) by {
            if holds(Order::Path, approved, git) {
                collected_is_a_set(
                    Order::Path,
                    opened_controls(plan.writable),
                );
                let opened = opened_controls(plan.writable);
                assert(holds(Order::Path, opened, git));
                let o = choose|o: int|
                    0 <= o < opened.len() && item_same(
                        Order::Path,
                        #[trigger] opened[o],
                        git,
                    );
                let w = lemma_opened(plan.writable, o);
                launches_open_the_rights_to_write(host, now, request, command);
                assert(plan.writable.contains(plan.writable[w]));
                let i = choose|i: int|
                    0 <= i < request.rights.len() && request.rights[i] == plan.writable[w];
                assert(request.rights[i].approved);
            }
        }
        assert(plan.synthetic_directories[0] == git);
    }
}

proof fn lemma_opened(rights: Seq<Right>, o: int) -> (w: int)
    requires
        0 <= o < opened_controls(rights).len(),
    ensures
        0 <= w < rights.len(),
        rights[w].approved,
        file_name_of(rights[w].path) == Some(".git"@),
        rights[w].path == opened_controls(rights)[o],
    decreases rights.len(),
{
    let front = rights.drop_last();
    if o < opened_controls(front).len() {
        lemma_opened(front, o)
    } else {
        rights.len() - 1
    }
}

/// What a launch opens for writing is there, and is what its right says: a directory for
/// a tree, something else for a file.
pub proof fn writable_roots_are_what_they_say(
    host: Host,
    plan: LaunchPlan,
    descriptors: Descriptors,
    i: int,
)
    requires
        launch_arguments(host, plan, descriptors) is Ok,
        0 <= i < plan.writable.len(),
    ensures
        host.paths[plan.writable[i].path].target is Ok,
        host.paths[plan.writable[i].path].target->Ok_0.kind == FileKind::Directory
            <==> plan.writable[i].scope == PathScope::Tree,
{
    lemma_each_all(plan.writable, type_step(host));
    assert(type_step(host)(plan.writable[i]) is Ok);
}

/// What has to be made before a launch is what is missing: the path of the right, as a
/// file or a directory as its scope says, in the directory above it.
pub proof fn only_what_is_missing_is_made(host: Host, right: Right)
    ensures
        missing_target(host, right) matches Ok(Some(target)) ==> {
            &&& host.paths[right.path].target is Err
            &&& target.path == right.path
            &&& target.scope == right.scope
            &&& parent_of(right.path) == Some(target.parent)
        },
        missing_target(host, right) matches Ok(None) ==> host.paths[right.path].target is Ok,
{
}

/// A launch protects the control directories of its workspace: in every directory that
/// was looked at, the workspace first of all, whatever is called `.pi` stays read-only,
/// and whatever is called `.git`, unless it lies at or below a `.git` that a granted
/// right to write is on. None of these is a link.
pub proof fn launches_protect_control_directories(
    host: Host,
    now: u64,
    request: Validated,
    command: Seq<Seq<char>>,
) -> (tree: Set<Seq<char>>)
    requires
        launch_plan(host, now, request, command) is Ok,
    ensures
        tree.contains(request.cwd),
        forall|directory: Seq<char>, i: int| #[trigger]
            tree.contains(directory) ==> host.listings.contains_key(directory)
                && host.listings[directory] is Ok && (0 <= i < host.listings[directory]->Ok_0.len()
                ==> {
                &&& #[trigger] host.listings[directory]->Ok_0[i] matches EntryModel::Entry {
                    name,
                    kind: Ok(kind),
                }
                &&& is_absolute(directory) && is_entry_name(name) ==> {
                    let path = pushed(directory, name);
                    let kept = is_among(
                        launch_plan(host, now, request, command)->Ok_0.protected,
                        path,
                    );
                    &&& name == ".pi"@ ==> kind != EntryKind::Symlink && kept
                    &&& name == ".git"@ ==> kind != EntryKind::Symlink && (kept || is_granted(
                        request.rights,
                        path,
                    ))
                    &&& kind == EntryKind::Directory && name != ".pi"@ && name != ".git"@
                        ==> is_looked_at(host, tree, path)
                }
            }),
{
    let plan = launch_plan(host, now, request, command)->Ok_0;
    let opened = opened_controls(plan.writable);
    let approved = collected(Order::Path, opened);
    let tree = every_control_directory_is_found(host, now, request.cwd, approved);
    assert(plan.protected == control_paths(host, now, request.cwd, approved)->Ok_0);
    assert forall|path: Seq<char>, a: int|
        0 <= a < approved.len() && lies_under(path, #[trigger] approved[a]) implies #[trigger]
        is_granted(request.rights, path) by {
        collected_is_a_set(Order::Path, opened);
        assert(item_same(Order::Path, approved[a], approved[a]));
        assert(holds(Order::Path, approved, approved[a]));
        assert(holds(Order::Path, opened, approved[a]));
        let o = choose|o: int|
            0 <= o < opened.len() && item_same(Order::Path, #[trigger] opened[o], approved[a]);
        let w = lemma_opened(plan.writable, o);
        launches_open_the_rights_to_write(host, now, request, command);
        assert(plan.writable.contains(plan.writable[w]));
        let r = choose|r: int|
            0 <= r < request.rights.len() && request.rights[r] == plan.writable[w];
        assert(lies_under(path, request.rights[r].path));
    }
    tree
}

/// Whether a path lies at or below a `.git` that a granted right to write is on.
pub open spec fn is_granted(rights: Seq<Right>, path: Seq<char>) -> bool {
    exists|r: int|
        {
            &&& 0 <= r < rights.len()
            &&& (#[trigger] rights[r]).approved
            &&& rights[r].access == Access::Write
            &&& file_name_of(rights[r].path) == Some(".git"@)
            &&& lies_under(path, rights[r].path)
        }
}

/// What is asked for of several paths is what nothing is known of: all of it, and nothing
/// else.
pub proof fn only_unknown_paths_are_asked_for(host: Host, paths: Seq<Seq<char>>)
    ensures
        all_known(host, paths) is Ok <==> forall|i: int|
            0 <= i < paths.len() ==> host.paths.contains_key(#[trigger] paths[i]),
        all_known(host, paths) is Err ==> all_known(host, paths)->Err_0 is Probe,
        all_known(host, paths) matches Err(HaltModel::Probe(probes)) ==> {
            &&& probes.len() > 0
            &&& forall|path: Seq<char>| #[trigger]
                probes.contains(ProbeModel::Path(path)) <==> paths.contains(path)
                    && !host.paths.contains_key(path)
            &&& forall|k: int| 0 <= k < probes.len() ==> #[trigger] probes[k] is Path
        },
{
    lemma_unknown(host, paths);
    let probes = unknown_paths(host, paths);
    if probes.len() > 0 {
        assert(probes.contains(probes[0]));
        let path = probes[0]->Path_0;
        assert(probes.contains(ProbeModel::Path(path)));
        let i = choose|i: int| 0 <= i < paths.len() && paths[i] == path;
        assert(!host.paths.contains_key(paths[i]));
    } else {
        assert forall|i: int| 0 <= i < paths.len() implies host.paths.contains_key(
            #[trigger] paths[i],
        ) by {
            if !host.paths.contains_key(paths[i]) {
                assert(paths.contains(paths[i]));
                assert(probes.contains(ProbeModel::Path(paths[i])));
            }
        }
    }
}

proof fn lemma_unknown(host: Host, paths: Seq<Seq<char>>)
    ensures
        forall|path: Seq<char>| #[trigger]
            unknown_paths(host, paths).contains(ProbeModel::Path(path)) <==> paths.contains(path)
                && !host.paths.contains_key(path),
        forall|k: int|
            0 <= k < unknown_paths(host, paths).len() ==> #[trigger] unknown_paths(host, paths)[k]
                is Path,
    decreases paths.len(),
{
    if paths.len() > 0 {
        let front = paths.drop_last();
        let last = paths.last();
        lemma_unknown(host, front);
        let before = unknown_paths(host, front);
        let all = unknown_paths(host, paths);
        assert forall|path: Seq<char>| #[trigger]
            all.contains(ProbeModel::Path(path)) <==> paths.contains(path)
            && !host.paths.contains_key(path) by {
            let probe = ProbeModel::Path(path);
            if paths.contains(path) {
                let i = choose|i: int| 0 <= i < paths.len() && paths[i] == path;
                if i < front.len() {
                    assert(front[i] == path);
                }
            }
            if front.contains(path) {
                let i = choose|i: int| 0 <= i < front.len() && front[i] == path;
                assert(paths[i] == path);
            }
            if before.contains(probe) {
                let k = choose|k: int| 0 <= k < before.len() && before[k] == probe;
                assert(all[k] == probe);
            }
            if all.contains(probe) {
                let k = choose|k: int| 0 <= k < all.len() && all[k] == probe;
                if k < before.len() {
                    assert(before[k] == probe);
                } else {
                    assert(paths[paths.len() - 1] == path);
                }
            }
            if path == last && !host.paths.contains_key(path) {
                assert(all[all.len() - 1] == probe);
            }
        }
    }
}

} // verus!
