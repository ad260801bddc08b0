//! What holds of every launch in a Bubblewrap sandbox.

use vstd::prelude::*;

use crate::bubblewrap::{
    base_arguments, deny_mounts, launch_arguments, launch_mounts, launcher_arguments,
    missing_target, mounted_paths, seccomp_arguments, type_fits, type_step, Descriptors,
};
use crate::expansion::{control_paths, glob_matches};
use crate::facts::{each, EntryModel, Host};
use crate::guarantees::{is_reached, lemma_each_stands};
use crate::launcher::proxy_plan;
use crate::linux::{
    a_missing_pi_is_masked, all_leading_paths, by_depth, crossing_free, crossing_step, denied_depth,
    depth_order_is_a_reordering, hides_a_file, is_hidden_file, launch_plan, leading_path,
    masked_controls, opened_controls, right_depth, LaunchPlan, SANDBOX_LAUNCHER_PATH,
};
use crate::mount_order::{
    can_write, protected_paths_cannot_be_written, protecting_points, reaches, MountPoint,
};
use crate::mounts::{
    all_known, concrete, deny_insertion, deny_paths, deny_placed, fixed_placed, flattened,
    glob_denies, globs_placed, merged, mountable, mountable_step, paths_placed, patterns_of,
    shorter, DeniedPath,
};
use crate::order::{collected, holds, item_same, Order};
use crate::paths::{
    a_pushed_name_is_a_component, components, file_name_of, is_absolute, is_entry_name, lies_under,
    pushed, same_path,
};
use crate::profile::write_rights;
use crate::protocol::{DeniedAccess, DenyScope, NetworkRequest};
use crate::scan_bounds::glob_scans_are_bounded;
use crate::scan_laws::{
    control_directories_stand, matches_stand, no_control_directory_is_missed,
};
use crate::seatbelt::{under_any, Deny, Right};
use crate::text::decimal;
use crate::validation::Validated;

verus! {

proof fn lemma_known(host: Host, paths: Seq<Seq<char>>)
    ensures
        all_known(host, paths) is Ok <==> forall|i: int|
            0 <= i < paths.len() ==> host.paths.contains_key(#[trigger] paths[i]),
    decreases paths.len(),
{
    if paths.len() > 0 {
        let front = paths.drop_last();
        lemma_known(host, front);
        if all_known(host, paths) is Ok {
            assert forall|i: int| 0 <= i < paths.len() implies host.paths.contains_key(
                #[trigger] paths[i],
            ) by {
                if i < front.len() {
                    assert(front[i] == paths[i]);
                }
            }
        } else if forall|i: int|
            0 <= i < paths.len() ==> host.paths.contains_key(#[trigger] paths[i]) {
            assert(host.paths.contains_key(paths[paths.len() - 1]));
            assert forall|i: int| 0 <= i < front.len() implies host.paths.contains_key(
                #[trigger] front[i],
            ) by {
                assert(front[i] == paths[i]);
            }
        }
    }
}

proof fn lemma_known_stands(host: Host, later: Host, paths: Seq<Seq<char>>)
    requires
        host.extended_by(later),
        all_known(host, paths) is Ok,
    ensures
        all_known(later, paths) is Ok,
{
    lemma_known(host, paths);
    lemma_known(later, paths);
}

proof fn lemma_crossing_stands(
    host: Host,
    later: Host,
    path: Seq<char>,
    writable: Seq<Right>,
    n: int,
)
    requires
        host.extended_by(later),
        is_reached(crossing_free(host, path, writable, n)),
    ensures
        crossing_free(later, path, writable, n) == crossing_free(host, path, writable, n),
    decreases components(path).len() + 1 - n,
{
    if 0 <= n <= components(path).len() {
        let current = leading_path(path, n);
        assert(host.path(current) is Ok);
        if let Some(link) = host.path(current)->Ok_0.link {
            if !(link && crate::linux::under_right(current, writable)) {
                lemma_crossing_stands(host, later, path, writable, n + 1);
            }
        }
    }
}

proof fn lemma_fixed_stands(host: Host, later: Host, denies: Seq<Deny>)
    requires
        host.extended_by(later),
        is_reached(fixed_placed(host, denies)),
    ensures
        fixed_placed(later, denies) == fixed_placed(host, denies),
    decreases denies.len(),
{
    if denies.len() > 0 {
        let front = denies.drop_last();
        lemma_fixed_stands(host, later, front);
    }
}

proof fn lemma_paths_stand(
    host: Host,
    later: Host,
    table: Seq<DeniedPath>,
    deny: Deny,
    paths: Seq<Seq<char>>,
)
    requires
        host.extended_by(later),
        is_reached(paths_placed(host, table, deny, paths)),
    ensures
        paths_placed(later, table, deny, paths) == paths_placed(host, table, deny, paths),
    decreases paths.len(),
{
    if paths.len() > 0 {
        lemma_paths_stand(host, later, table, deny, paths.drop_last());
    }
}

proof fn lemma_placed_stands(
    host: Host,
    later: Host,
    table: Seq<DeniedPath>,
    globs: Seq<Deny>,
    found: Seq<Seq<Seq<char>>>,
    n: nat,
)
    requires
        host.extended_by(later),
        is_reached(globs_placed(host, table, globs, found, n)),
    ensures
        globs_placed(later, table, globs, found, n) == globs_placed(host, table, globs, found, n),
    decreases n,
{
    if n > 0 {
        let m = (n - 1) as nat;
        lemma_placed_stands(host, later, table, globs, found, m);
        if let Ok(before) = globs_placed(host, table, globs, found, m) {
            lemma_paths_stand(host, later, before, globs[n - 1], found[n - 1]);
        }
    }
}

proof fn lemma_concrete_stands(
    host: Host,
    later: Host,
    now: u64,
    denies: Seq<Deny>,
    cwd: Seq<char>,
)
    requires
        host.extended_by(later),
        is_reached(concrete(host, now, denies, cwd)),
    ensures
        concrete(later, now, denies, cwd) == concrete(host, now, denies, cwd),
{
    lemma_fixed_stands(host, later, denies);
    if let Ok(table) = fixed_placed(host, denies) {
        let globs = glob_denies(denies);
        matches_stand(host, later, now, patterns_of(globs), cwd);
        if let Ok(found) = glob_matches(host, now, patterns_of(globs), cwd) {
            assert(all_known(host, flattened(found)) is Ok);
            lemma_known_stands(host, later, flattened(found));
            lemma_placed_stands(
                host,
                later,
                table,
                globs,
                found,
                shorter(globs.len(), found.len()),
            );
        }
    }
}

proof fn lemma_deny_paths_known(host: Host, denies: Seq<DeniedPath>)
    requires
        all_known(host, all_leading_paths(denies)) is Ok,
    ensures
        forall|i: int|
            0 <= i < denies.len() ==> host.paths.contains_key(#[trigger] denies[i].path),
    decreases denies.len(),
{
    if denies.len() > 0 {
        let all = all_leading_paths(denies);
        let front = all_leading_paths(denies.drop_last());
        lemma_known(host, all);
        lemma_known(host, front);
        assert forall|i: int| 0 <= i < front.len() implies host.paths.contains_key(
            #[trigger] front[i],
        ) by {
            assert(front[i] == all[i]);
        }
        lemma_deny_paths_known(host, denies.drop_last());
        assert(all[all.len() - 1] == denies.last().path);
        assert forall|i: int| 0 <= i < denies.len() implies host.paths.contains_key(
            #[trigger] denies[i].path,
        ) by {
            if i < denies.len() - 1 {
                assert(denies.drop_last()[i] == denies[i]);
            }
        }
    }
}

proof fn lemma_hiding_stands(host: Host, later: Host, denies: Seq<DeniedPath>)
    requires
        host.extended_by(later),
        all_known(host, all_leading_paths(denies)) is Ok,
    ensures
        hides_a_file(later, denies) == hides_a_file(host, denies),
{
    lemma_deny_paths_known(host, denies);
    assert forall|i: int| 0 <= i < denies.len() implies is_hidden_file(later, #[trigger] denies[i])
        == is_hidden_file(host, denies[i]) by {
        assert(host.paths.contains_key(denies[i].path));
    }
    if hides_a_file(host, denies) {
        let i = choose|i: int| 0 <= i < denies.len() && is_hidden_file(host, #[trigger] denies[i]);
        assert(is_hidden_file(later, denies[i]));
    }
    if hides_a_file(later, denies) {
        let i = choose|i: int| 0 <= i < denies.len() && is_hidden_file(later, #[trigger] denies[i]);
        assert(is_hidden_file(host, denies[i]));
    }
}

/// What was decided of a launch stands: where no fact was missing, more facts change
/// neither the plan nor a refusal.
pub proof fn launches_stand(
    host: Host,
    later: Host,
    now: u64,
    request: Validated,
    command: Seq<Seq<char>>,
)
    requires
        host.extended_by(later),
        is_reached(launch_plan(host, now, request, command)),
    ensures
        launch_plan(later, now, request, command) == launch_plan(host, now, request, command),
{
    let writable = by_depth(write_rights(request.rights), right_depth());
    let approved = collected(Order::Path, opened_controls(writable));
    if all_known(host, deny_paths(request.denies)) is Ok {
        lemma_known_stands(host, later, deny_paths(request.denies));
        let early = mountable_step(host, writable);
        let late = mountable_step(later, writable);
        assert forall|deny: Deny| is_reached(#[trigger] early(deny)) implies late(deny) == early(
            deny,
        ) by {
            assert(is_reached(mountable(host, deny, writable)));
        }
        if is_reached(each(request.denies, early)) {
            lemma_each_stands(request.denies, early, late);
        }
        if each(request.denies, early) is Ok {
            if is_reached(control_paths(host, now, request.cwd, approved)) {
                control_directories_stand(host, later, now, request.cwd, approved);
            }
            let controls = seq![pushed(request.cwd, ".git"@), pushed(request.cwd, ".pi"@)];
            if masked_controls(host, request.cwd, approved) is Ok {
                lemma_known_stands(host, later, controls);
                lemma_known(host, controls);
                assert(host.paths.contains_key(controls[0]));
                assert(host.paths.contains_key(controls[1]));
                assert(masked_controls(later, request.cwd, approved) == masked_controls(
                    host,
                    request.cwd,
                    approved,
                ));
            }
            if is_reached(concrete(host, now, request.denies, request.cwd)) {
                lemma_concrete_stands(host, later, now, request.denies, request.cwd);
            }
            if let Ok(found) = concrete(host, now, request.denies, request.cwd) {
                let denies = by_depth(found, denied_depth());
                if all_known(host, all_leading_paths(denies)) is Ok {
                    lemma_known_stands(host, later, all_leading_paths(denies));
                    lemma_hiding_stands(host, later, denies);
                    let early = crossing_step(host, writable);
                    let late = crossing_step(later, writable);
                    assert forall|deny: DeniedPath| is_reached(
                        #[trigger] early(deny),
                    ) implies late(deny) == early(deny) by {
                        lemma_crossing_stands(host, later, deny.path, writable, 1);
                    }
                    if is_reached(each(denies, early)) {
                        lemma_each_stands(denies, early, late);
                    }
                }
            }
        }
    }
}

proof fn lemma_deny_mounts_stand(
    host: Host,
    later: Host,
    denies: Seq<DeniedPath>,
    hidden_file: Option<u32>,
)
    requires
        host.extended_by(later),
        is_reached(deny_mounts(host, denies, hidden_file)),
    ensures
        deny_mounts(later, denies, hidden_file) == deny_mounts(host, denies, hidden_file),
    decreases denies.len(),
{
    if denies.len() > 0 {
        lemma_deny_mounts_stand(host, later, denies.drop_last(), hidden_file);
    }
}

/// The arguments of a launch stand: where no fact was missing, more facts change
/// neither them nor a refusal.
pub proof fn launch_arguments_stand(
    host: Host,
    later: Host,
    plan: LaunchPlan,
    descriptors: Descriptors,
)
    requires
        host.extended_by(later),
        is_reached(launch_arguments(host, plan, descriptors)),
    ensures
        launch_arguments(later, plan, descriptors) == launch_arguments(host, plan, descriptors),
{
    if plan.network.enabled != (descriptors.seccomp is Some) && all_known(
        host,
        mounted_paths(plan),
    ) is Ok {
        lemma_known_stands(host, later, mounted_paths(plan));
        let early = type_step(host);
        let late = type_step(later);
        assert forall|right: Right| is_reached(#[trigger] early(right)) implies late(right)
            == early(right) by {
            assert(is_reached(type_fits(host, right)));
        }
        lemma_each_stands(plan.writable, early, late);
        if each(plan.writable, early) is Ok {
            lemma_deny_mounts_stand(host, later, plan.denies, descriptors.hidden_file);
        }
    }
}

/// How the launcher is entered for a network mode.
pub open spec fn launcher_entry(network: NetworkRequest) -> Seq<Seq<char>> {
    match network {
        NetworkRequest::Blocked => seq!["__linux_sandbox_launch"@],
        NetworkRequest::Loopback => seq!["__linux_proxy_launch"@, "-"@, "allow-local-binding"@],
        NetworkRequest::Proxy { tcp_port, unix_socket, allow_local_binding } => seq![
            "__linux_proxy_launch"@,
            unix_socket,
            if allow_local_binding {
                "allow-local-binding"@
            } else {
                "deny-local-binding"@
            },
        ],
    }
}

/// A command without network is launched without capabilities and under a seccomp
/// program, and no other command is; each one starts in its directory, behind the
/// launcher, which is entered as the network mode asks for.
pub proof fn commands_are_launched_as_their_network_asks(
    host: Host,
    later: Host,
    now: u64,
    request: Validated,
    command: Seq<Seq<char>>,
    descriptors: Descriptors,
)
    requires
        launch_plan(host, now, request, command) is Ok,
        launch_arguments(
            later,
            launch_plan(host, now, request, command)->Ok_0,
            descriptors,
        ) is Ok,
    ensures
        ({
            let plan = launch_plan(host, now, request, command)->Ok_0;
            let blocked = request.network is Blocked;
            let filter = if blocked {
                seq!["--seccomp"@, decimal(descriptors.seccomp->0 as nat)]
            } else {
                Seq::empty()
            };
            &&& descriptors.seccomp is Some <==> blocked
            &&& launch_arguments(later, plan, descriptors)->Ok_0 == base_arguments(blocked)
                + launch_mounts(later, plan, descriptors)->Ok_0 + filter + seq![
                "--chdir"@,
                request.cwd,
                "--"@,
                SANDBOX_LAUNCHER_PATH@,
            ] + launcher_entry(request.network) + seq!["--"@] + command
        }),
{
    let plan = launch_plan(host, now, request, command)->Ok_0;
    assert(launcher_arguments(plan.network) =~= seq![SANDBOX_LAUNCHER_PATH@] + launcher_entry(
        request.network,
    ) + seq!["--"@]);
    let mounts = launch_mounts(later, plan, descriptors)->Ok_0;
    let filter = seccomp_arguments(descriptors.seccomp);
    let front = base_arguments(!plan.network.enabled) + mounts + filter;
    assert(front + seq!["--chdir"@, request.cwd, "--"@] + launcher_arguments(plan.network)
        + command =~= front + seq!["--chdir"@, request.cwd, "--"@, SANDBOX_LAUNCHER_PATH@]
        + launcher_entry(request.network) + seq!["--"@] + command);
}

/// What has to be made for a right to write stands where no fact was missing.
pub proof fn missing_targets_stand(host: Host, later: Host, right: Right)
    requires
        host.extended_by(later),
        is_reached(missing_target(host, right)),
    ensures
        missing_target(later, right) == missing_target(host, right),
{
}

/// What a launcher with a network decided stands where no fact was missing.
pub proof fn network_launches_stand(host: Host, later: Host, arguments: Seq<Seq<char>>)
    requires
        host.extended_by(later),
        is_reached(proxy_plan(host, arguments)),
    ensures
        proxy_plan(later, arguments) == proxy_plan(host, arguments),
{
}

/// Whether one deny is as strong as another.
pub open spec fn at_least(strong: DeniedAccess, weak: DeniedAccess) -> bool {
    strong == weak || strong == DeniedAccess::ReadWrite
}

/// Whether denied paths keep an access from a path.
pub open spec fn is_enforced(
    denies: Seq<DeniedPath>,
    access: DeniedAccess,
    path: Seq<char>,
) -> bool {
    exists|k: int|
        0 <= k < denies.len() && same_path((#[trigger] denies[k]).path, path) && at_least(
            denies[k].access,
            access,
        )
}

spec fn keeps(early: Seq<DeniedPath>, late: Seq<DeniedPath>) -> bool {
    forall|access: DeniedAccess, path: Seq<char>| #[trigger]
        is_enforced(early, access, path) ==> is_enforced(late, access, path)
}

proof fn lemma_insertion_enforces(table: Seq<DeniedPath>, deny: DeniedPath)
    ensures
        is_enforced(deny_insertion(table, deny), deny.access, deny.path),
        keeps(table, deny_insertion(table, deny)),
    decreases table.len(),
{
    let out = deny_insertion(table, deny);
    if table.len() == 0 {
        assert(out[0] == deny);
    } else {
        let last = table.last();
        let front = table.drop_last();
        lemma_insertion_enforces(front, deny);
        let inner = deny_insertion(front, deny);
        let n = table.len() - 1;
        if same_path(last.path, deny.path) {
            assert(out[n].path == last.path);
            assert(at_least(out[n].access, deny.access));
        } else if out == table.push(deny) {
            assert(out[n + 1] == deny);
        } else {
            let k = choose|k: int|
                0 <= k < inner.len() && same_path((#[trigger] inner[k]).path, deny.path)
                    && at_least(inner[k].access, deny.access);
            assert(out[k] == inner[k]);
        }
        assert forall|access: DeniedAccess, path: Seq<char>| #[trigger]
            is_enforced(table, access, path) implies is_enforced(out, access, path) by {
            let k = choose|k: int|
                0 <= k < table.len() && same_path((#[trigger] table[k]).path, path) && at_least(
                    table[k].access,
                    access,
                );
            if same_path(last.path, deny.path) {
                if k == n {
                    assert(at_least(merged(last.access, deny.access), access));
                    assert(same_path(out[n].path, path));
                } else {
                    assert(out[k] == table[k]);
                }
            } else if out == table.push(deny) {
                assert(out[k] == table[k]);
            } else if k == n {
                assert(out[out.len() - 1] == last);
            } else {
                assert(front[k] == table[k]);
                assert(is_enforced(front, access, path));
                let j = choose|j: int|
                    0 <= j < inner.len() && same_path((#[trigger] inner[j]).path, path) && at_least(
                        inner[j].access,
                        access,
                    );
                assert(out[j] == inner[j]);
            }
        }
    }
}

/// Where a deny on a path takes hold: on the path, or on what a link leads to.
pub open spec fn place_of(host: Host, path: Seq<char>) -> Seq<char> {
    if host.paths[path].is_link() && host.paths[path].canonical is Ok {
        host.paths[path].canonical->Ok_0
    } else {
        path
    }
}

proof fn lemma_placed_enforces(host: Host, table: Seq<DeniedPath>, deny: Deny, path: Seq<char>)
    requires
        deny_placed(host, table, deny, path) is Ok,
    ensures
        keeps(table, deny_placed(host, table, deny, path)->Ok_0),
        !under_any(path, deny.exempt_roots) ==> is_enforced(
            deny_placed(host, table, deny, path)->Ok_0,
            deny.access,
            place_of(host, path),
        ),
{
    if !under_any(path, deny.exempt_roots) {
        lemma_insertion_enforces(
            table,
            DeniedPath { access: deny.access, path: place_of(host, path) },
        );
    }
}

proof fn lemma_fixed_enforces(host: Host, denies: Seq<Deny>, i: int)
    requires
        fixed_placed(host, denies) is Ok,
        0 <= i < denies.len(),
        denies[i].scope != DenyScope::Glob,
        denies[i].path is Some,
        host.paths[denies[i].path->0].is_present(),
        !under_any(denies[i].path->0, denies[i].exempt_roots),
    ensures
        is_enforced(
            fixed_placed(host, denies)->Ok_0,
            denies[i].access,
            place_of(host, denies[i].path->0),
        ),
    decreases denies.len(),
{
    let front = denies.drop_last();
    let table = fixed_placed(host, front)->Ok_0;
    let deny = denies.last();
    let applies = deny.scope != DenyScope::Glob && deny.path is Some && host.path(
        deny.path->0,
    )->Ok_0.is_present();
    if applies {
        lemma_placed_enforces(host, table, deny, deny.path->0);
    }
    if i < front.len() {
        assert(front[i] == denies[i]);
        lemma_fixed_enforces(host, front, i);
    }
}

proof fn lemma_paths_enforce(
    host: Host,
    table: Seq<DeniedPath>,
    deny: Deny,
    paths: Seq<Seq<char>>,
)
    requires
        paths_placed(host, table, deny, paths) is Ok,
    ensures
        keeps(table, paths_placed(host, table, deny, paths)->Ok_0),
        forall|i: int|
            0 <= i < paths.len() && !under_any(#[trigger] paths[i], deny.exempt_roots)
                ==> is_enforced(
                paths_placed(host, table, deny, paths)->Ok_0,
                deny.access,
                place_of(host, paths[i]),
            ),
    decreases paths.len(),
{
    if paths.len() > 0 {
        let front = paths.drop_last();
        lemma_paths_enforce(host, table, deny, front);
        let before = paths_placed(host, table, deny, front)->Ok_0;
        let after = paths_placed(host, table, deny, paths)->Ok_0;
        lemma_placed_enforces(host, before, deny, paths.last());
        assert(keeps(table, after)) by {
            assert forall|access: DeniedAccess, path: Seq<char>| #[trigger]
                is_enforced(table, access, path) implies is_enforced(after, access, path) by {
                assert(is_enforced(before, access, path));
            }
        }
        assert forall|i: int|
            0 <= i < paths.len() && !under_any(
                #[trigger] paths[i],
                deny.exempt_roots,
            ) implies is_enforced(after, deny.access, place_of(host, paths[i])) by {
            if i < front.len() {
                assert(front[i] == paths[i]);
                assert(is_enforced(before, deny.access, place_of(host, front[i])));
            }
        }
    }
}

proof fn lemma_globs_enforce(
    host: Host,
    table: Seq<DeniedPath>,
    globs: Seq<Deny>,
    found: Seq<Seq<Seq<char>>>,
    n: nat,
)
    requires
        globs_placed(host, table, globs, found, n) is Ok,
    ensures
        keeps(table, globs_placed(host, table, globs, found, n)->Ok_0),
        forall|j: int, i: int|
            0 <= j < n && 0 <= i < found[j].len() && !under_any(
                #[trigger] found[j][i],
                globs[j].exempt_roots,
            ) ==> is_enforced(
                globs_placed(host, table, globs, found, n)->Ok_0,
                globs[j].access,
                place_of(host, found[j][i]),
            ),
    decreases n,
{
    if n > 0 {
        let m = (n - 1) as nat;
        lemma_globs_enforce(host, table, globs, found, m);
        let before = globs_placed(host, table, globs, found, m)->Ok_0;
        let after = globs_placed(host, table, globs, found, n)->Ok_0;
        lemma_paths_enforce(host, before, globs[n - 1], found[n - 1]);
        assert(keeps(table, after)) by {
            assert forall|access: DeniedAccess, path: Seq<char>| #[trigger]
                is_enforced(table, access, path) implies is_enforced(after, access, path) by {
                assert(is_enforced(before, access, path));
            }
        }
        assert forall|j: int, i: int|
            0 <= j < n && 0 <= i < found[j].len() && !under_any(
                #[trigger] found[j][i],
                globs[j].exempt_roots,
            ) implies is_enforced(after, globs[j].access, place_of(host, found[j][i])) by {
            if j < m {
                assert(is_enforced(before, globs[j].access, place_of(host, found[j][i])));
            }
        }
    }
}

proof fn lemma_depth_keeps(denies: Seq<DeniedPath>)
    ensures
        keeps(denies, by_depth(denies, denied_depth())),
{
    broadcast use vstd::seq_lib::group_to_multiset_ensures;

    let ordered = by_depth(denies, denied_depth());
    depth_order_is_a_reordering(denies, denied_depth());
    assert forall|access: DeniedAccess, path: Seq<char>| #[trigger]
        is_enforced(denies, access, path) implies is_enforced(ordered, access, path) by {
        let k = choose|k: int|
            0 <= k < denies.len() && same_path((#[trigger] denies[k]).path, path) && at_least(
                denies[k].access,
                access,
            );
        assert(denies.contains(denies[k]));
        assert(denies.to_multiset().count(denies[k]) > 0);
        assert(ordered.contains(denies[k]));
        let j = choose|j: int| 0 <= j < ordered.len() && ordered[j] == denies[k];
        assert(same_path(ordered[j].path, path));
    }
}

/// Every deny of a path is part of a launch: where the path exists and is not exempt,
/// the path, or what a link leads to, is among the denied ones, with at least the
/// access that is denied.
pub proof fn every_fixed_deny_is_part_of_a_launch(
    host: Host,
    now: u64,
    request: Validated,
    command: Seq<Seq<char>>,
    i: int,
)
    requires
        launch_plan(host, now, request, command) is Ok,
        0 <= i < request.denies.len(),
        request.denies[i].scope != DenyScope::Glob,
        request.denies[i].path is Some,
        host.paths[request.denies[i].path->0].is_present(),
        !under_any(request.denies[i].path->0, request.denies[i].exempt_roots),
    ensures
        is_enforced(
            launch_plan(host, now, request, command)->Ok_0.denies,
            request.denies[i].access,
            place_of(host, request.denies[i].path->0),
        ),
{
    let denies = request.denies;
    let table = fixed_placed(host, denies)->Ok_0;
    let globs = glob_denies(denies);
    let found = glob_matches(host, now, patterns_of(globs), request.cwd)->Ok_0;
    let all = concrete(host, now, denies, request.cwd)->Ok_0;
    lemma_fixed_enforces(host, denies, i);
    lemma_globs_enforce(host, table, globs, found, shorter(globs.len(), found.len()));
    lemma_depth_keeps(all);
}

/// Every match of a deny glob is part of a launch: where it is not exempt, it, or what
/// a link leads to, is among the denied paths, with at least the access that is
/// denied.
pub proof fn every_match_is_part_of_a_launch(
    host: Host,
    now: u64,
    request: Validated,
    command: Seq<Seq<char>>,
    j: int,
    i: int,
)
    requires
        launch_plan(host, now, request, command) is Ok,
        ({
            let globs = glob_denies(request.denies);
            let found = glob_matches(host, now, patterns_of(globs), request.cwd)->Ok_0;
            &&& 0 <= j < globs.len()
            &&& 0 <= i < found[j].len()
            &&& !under_any(found[j][i], globs[j].exempt_roots)
        }),
    ensures
        ({
            let globs = glob_denies(request.denies);
            let found = glob_matches(host, now, patterns_of(globs), request.cwd)->Ok_0;
            is_enforced(
                launch_plan(host, now, request, command)->Ok_0.denies,
                globs[j].access,
                place_of(host, found[j][i]),
            )
        }),
{
    let denies = request.denies;
    let table = fixed_placed(host, denies)->Ok_0;
    let globs = glob_denies(denies);
    let found = glob_matches(host, now, patterns_of(globs), request.cwd)->Ok_0;
    let all = concrete(host, now, denies, request.cwd)->Ok_0;
    lemma_globs_enforce(host, table, globs, found, shorter(globs.len(), found.len()));
    lemma_depth_keeps(all);
    glob_scans_are_bounded(host, now, patterns_of(globs), request.cwd);
    assert(!under_any(found[j][i], globs[j].exempt_roots));
}

/// What a launch denies cannot be written: neither a denied path that exists, nor
/// anything below it.
pub proof fn denied_paths_cannot_be_written(
    host: Host,
    plan: LaunchPlan,
    path: Seq<char>,
    k: int,
)
    requires
        0 <= k < plan.denies.len(),
        lies_under(path, plan.denies[k].path),
        host.paths.contains_key(plan.denies[k].path),
        host.paths[plan.denies[k].path].is_present(),
    ensures
        !can_write(host, plan, path),
{
    let points = protecting_points(plan);
    let at = plan.protected.len() + plan.synthetic_directories.len() + k;
    assert(points[at] == MountPoint::Denied(plan.denies[k]));
    assert(reaches(host, points[at], path));
    protected_paths_cannot_be_written(host, plan, path);
}

/// Whether a directory was listed with an entry called `name` in it.
pub open spec fn is_listed(host: Host, directory: Seq<char>, name: Seq<char>) -> bool {
    host.listings.contains_key(directory) && host.listings[directory] is Ok && exists|i: int|
        0 <= i < host.listings[directory]->Ok_0.len() && #[trigger] entry_name(
            host.listings[directory]->Ok_0[i],
        ) == Some(name)
}

/// The name of an entry, where it could be read.
pub open spec fn entry_name(entry: EntryModel) -> Option<Seq<char>> {
    match entry {
        EntryModel::Entry { name, .. } => Some(name),
        _ => None,
    }
}

/// The `.pi` of the workspace cannot be written, nor anything below it, whatever
/// rights there are: where it is missing, it is masked, and where it is listed in the
/// workspace, it stays read-only.
pub proof fn no_launch_opens_pi(
    host: Host,
    now: u64,
    request: Validated,
    command: Seq<Seq<char>>,
    path: Seq<char>,
)
    requires
        is_absolute(request.cwd),
        launch_plan(host, now, request, command) is Ok,
        host.paths[pushed(request.cwd, ".pi"@)].is_present() ==> is_listed(
            host,
            request.cwd,
            ".pi"@,
        ),
        lies_under(path, pushed(request.cwd, ".pi"@)),
    ensures
        !can_write(host, launch_plan(host, now, request, command)->Ok_0, path),
{
    let plan = launch_plan(host, now, request, command)->Ok_0;
    let pi = pushed(request.cwd, ".pi"@);
    let points = protecting_points(plan);
    if !host.paths[pi].is_present() {
        a_missing_pi_is_masked(host, now, request, command);
        let i = choose|i: int|
            0 <= i < plan.synthetic_directories.len() && plan.synthetic_directories[i] == pi;
        assert(points[plan.protected.len() + i] == MountPoint::Mask(pi));
        assert(reaches(host, points[plan.protected.len() + i], path));
    } else {
        let writable = by_depth(write_rights(request.rights), right_depth());
        let approved = collected(Order::Path, opened_controls(writable));
        let tree = no_control_directory_is_missed(host, now, request.cwd, approved);
        assert(tree.contains(request.cwd));
        let entries = host.listings[request.cwd]->Ok_0;
        let i = choose|i: int| 0 <= i < entries.len() && #[trigger] entry_name(entries[i]) == Some(
            ".pi"@,
        );
        assert(host.listings[request.cwd]->Ok_0[i] is Entry);
        reveal_strlit(".pi");
        reveal_strlit(".git");
        assert(".git"@.len() == 4);
        assert(is_entry_name(".pi"@)) by {
            assert(".pi"@.len() == 3);
            assert(!".pi"@.contains('/'));
        }
        a_pushed_name_is_a_component(request.cwd, ".pi"@);
        assert(components(pi).last() == ".pi"@);
        assert(".pi"@ != seq!['.', '.']);
        assert(file_name_of(pi) == Some(".pi"@));
        assert(holds(Order::Path, plan.protected, pi));
        let k = choose|k: int|
            0 <= k < plan.protected.len() && item_same(
                Order::Path,
                #[trigger] plan.protected[k],
                pi,
            );
        assert(points[k] == MountPoint::ReadOnly(plan.protected[k]));
        assert(reaches(host, points[k], path));
    }
    protected_paths_cannot_be_written(host, plan, path);
}

} // verus!
