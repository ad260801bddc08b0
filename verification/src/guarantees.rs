//! What holds of every request that is accepted, and of every decision.

use vstd::prelude::*;
use vstd::utf8::encode_utf8;

use crate::facts::{each, Decision, HaltModel, Host};
use crate::hard_policy::{
    base_denies, cache_root, fixed_denies, host_denies, with_helpers, HostSettings,
};
use crate::order::{collected, insertion, Order};
use crate::paths::{components, is_absolute, lies_under, same_path};
use crate::protocol::{
    CommandRequest, DenyRequest, MissingPathBehavior, NetworkRequest, PolicyRequest, RightRequest,
};
use crate::seatbelt::{
    ancestor, any_covers, deny_step, existing_path, grant_step, nearest_existing, resolved_deny,
    resolved_grant, resolved_path, resolved_policy, resolved_right, right_step, Deny, Right,
    MAX_POLICY_ENTRIES,
};
use crate::text::is_blank;
use crate::validation::{
    absolute_path, argument_step, command_accepted, directory_path, file_path, is_variable_name,
    resolved_network, socket_path, socket_roots, socket_step, text_accepted, validated,
    variable_step, MAX_ARGS, MAX_ARG_ENV_BYTES, MAX_ENV_ENTRIES, MAX_ID_BYTES, MAX_OUTPUT_BYTES,
    MAX_SOCKET_ROOTS, MAX_TIMEOUT_MS,
};

verus! {

/// Where each of several decisions was reached, the results are those of the
/// items, one for one.
pub proof fn lemma_each_all<A, B>(items: Seq<A>, step: spec_fn(A) -> Decision<B>)
    requires
        each(items, step) is Ok,
    ensures
        each(items, step)->Ok_0.len() == items.len(),
        forall|i: int|
            0 <= i < items.len() ==> step(#[trigger] items[i]) == Ok::<B, HaltModel>(
                each(items, step)->Ok_0[i],
            ),
    decreases items.len(),
{
    if items.len() > 0 {
        let before = items.drop_last();
        lemma_each_all(before, step);
        assert forall|i: int| 0 <= i < items.len() implies step(#[trigger] items[i]) == Ok::<
            B,
            HaltModel,
        >(each(items, step)->Ok_0[i]) by {
            if i < before.len() {
                assert(before[i] == items[i]);
            }
        }
    }
}

/// Denies win: an accepted policy holds all hard denies, in front of those that
/// were asked for, whatever the request says.
pub proof fn hard_denies_are_kept(host: Host, policy: PolicyRequest, hard: Seq<Deny>)
    ensures
        resolved_policy(host, policy, hard) matches Ok((rights, denies)) ==> {
            &&& denies.len() == hard.len() + policy.denies.len()
            &&& denies.take(hard.len() as int) == hard
            &&& forall|i: int|
                0 <= i < policy.denies.len() ==> resolved_deny(host, #[trigger] policy.denies[i])
                    == Ok::<Deny, HaltModel>(denies[hard.len() + i])
        },
{
    if let Ok((rights, denies)) = resolved_policy(host, policy, hard) {
        lemma_each_all(policy.denies, deny_step(host));
        let requested = each(policy.denies, deny_step(host))->Ok_0;
        assert((hard + requested).take(hard.len() as int) =~= hard);
        assert forall|i: int| 0 <= i < policy.denies.len() implies resolved_deny(
            host,
            #[trigger] policy.denies[i],
        ) == Ok::<Deny, HaltModel>(denies[hard.len() + i]) by {
            assert(deny_step(host)(policy.denies[i]) == Ok::<Deny, HaltModel>(requested[i]));
        }
    }
}

/// Denies win over grants: no right that a project asked for, and that was
/// accepted, is covered by a deny, leads to a device, or leads elsewhere than it was
/// asked for. Base rights are never taken for such rights.
pub proof fn denies_win_over_grants(host: Host, policy: PolicyRequest, hard: Seq<Deny>)
    ensures
        resolved_policy(host, policy, hard) matches Ok((rights, denies)) ==> {
            &&& rights.len() == policy.base_rights.len() + policy.grants.len()
            &&& rights.len() <= MAX_POLICY_ENTRIES
            &&& denies.len() <= MAX_POLICY_ENTRIES
            &&& forall|i: int|
                0 <= i < policy.base_rights.len() ==> !(#[trigger] rights[i]).approved
            &&& forall|i: int|
                policy.base_rights.len() <= i < rights.len() ==> {
                    &&& (#[trigger] rights[i]).approved
                    &&& !any_covers(denies, rights[i])
                    &&& !lies_under(rights[i].path, "/dev"@)
                    &&& same_path(
                        rights[i].path,
                        policy.grants[i - policy.base_rights.len()].path,
                    )
                }
        },
{
    if let Ok((rights, denies)) = resolved_policy(host, policy, hard) {
        lemma_each_all(policy.base_rights, right_step(host));
        lemma_each_all(policy.grants, grant_step(host, denies));
        let base = each(policy.base_rights, right_step(host))->Ok_0;
        let grants = each(policy.grants, grant_step(host, denies))->Ok_0;
        assert forall|i: int| 0 <= i < policy.base_rights.len() implies !(
        #[trigger] rights[i]).approved by {
            assert(right_step(host)(policy.base_rights[i]) == Ok::<Right, HaltModel>(base[i]));
            assert(resolved_right(host, policy.base_rights[i], false) == Ok::<Right, HaltModel>(
                base[i],
            ));
        }
        assert forall|i: int| policy.base_rights.len() <= i < rights.len() implies {
            &&& (#[trigger] rights[i]).approved
            &&& !any_covers(denies, rights[i])
            &&& !lies_under(rights[i].path, "/dev"@)
            &&& same_path(rights[i].path, policy.grants[i - policy.base_rights.len()].path)
        } by {
            let k = i - policy.base_rights.len();
            assert(grant_step(host, denies)(policy.grants[k]) == Ok::<Right, HaltModel>(grants[k]));
            assert(resolved_grant(host, denies, policy.grants[k]) == Ok::<Right, HaltModel>(
                grants[k],
            ));
            assert(resolved_right(host, policy.grants[k], true) is Ok);
        }
    }
}

/// An accepted request is bounded: its ID, arguments and environment, and the
/// limits of its output and its time. No text in it holds a NUL.
pub proof fn accepted_requests_are_bounded(host: Host, request: CommandRequest, hard: Seq<Deny>)
    ensures
        validated(host, request, hard) matches Ok(accepted) ==> {
            &&& encode_utf8(accepted.id).len() <= MAX_ID_BYTES
            &&& !is_blank(accepted.id)
            &&& !accepted.id.contains('\0')
            &&& is_absolute(request.program)
            &&& is_absolute(request.cwd)
            &&& accepted.args.len() <= MAX_ARGS
            &&& forall|i: int|
                0 <= i < accepted.args.len() ==> !(#[trigger] accepted.args[i]).contains('\0')
            &&& accepted.env.len() <= MAX_ENV_ENTRIES
            &&& forall|i: int|
                0 <= i < accepted.env.len() ==> is_variable_name(#[trigger] accepted.env[i].0)
            &&& forall|i: int|
                0 <= i < accepted.env.len() ==> !(#[trigger] accepted.env[i].1).contains('\0')
            &&& 0 < accepted.output_limit_bytes <= MAX_OUTPUT_BYTES
            &&& accepted.timeout_ms is Some ==> 0 < accepted.timeout_ms->0 <= MAX_TIMEOUT_MS
            &&& accepted.unix_socket_roots.len() <= MAX_SOCKET_ROOTS
            &&& accepted.network matches NetworkRequest::Proxy { tcp_port, .. } ==> tcp_port > 0
        },
{
    if let Ok(accepted) = validated(host, request, hard) {
        lemma_each_all(request.args, argument_step());
        lemma_each_all(request.env, variable_step());
        assert forall|i: int| 0 <= i < accepted.args.len() implies !(
        #[trigger] accepted.args[i]).contains('\0') by {
            assert(argument_step()(request.args[i]) is Ok);
            assert(text_accepted("argument"@, request.args[i], MAX_ARG_ENV_BYTES) is Ok);
        }
        assert forall|i: int| 0 <= i < accepted.env.len() implies is_variable_name(
            #[trigger] accepted.env[i].0,
        ) && !accepted.env[i].1.contains('\0') by {
            assert(variable_step()(request.env[i]) is Ok);
            assert(text_accepted("environment value"@, request.env[i].1, MAX_ARG_ENV_BYTES) is Ok);
        }
        lemma_each_all(request.policy.unix_socket_roots, socket_step(host));
        lemma_collected_len(
            Order::Path,
            each(request.policy.unix_socket_roots, socket_step(host))->Ok_0,
        );
    }
}

proof fn lemma_insertion_len(order: Order, list: Seq<Seq<char>>, item: Seq<char>)
    ensures
        insertion(order, list, item).len() <= list.len() + 1,
    decreases list.len(),
{
    if list.len() > 0 {
        lemma_insertion_len(order, list.drop_last(), item);
    }
}

/// Putting items in order makes no more of them.
pub proof fn lemma_collected_len(order: Order, items: Seq<Seq<char>>)
    ensures
        collected(order, items).len() <= items.len(),
    decreases items.len(),
{
    if items.len() > 0 {
        lemma_collected_len(order, items.drop_last());
        lemma_insertion_len(order, collected(order, items.drop_last()), items.last());
    }
}

/// Rights to read create nothing, and a right creates what it names: a file for a
/// file, a directory for a tree.
pub proof fn rights_create_only_what_they_name(host: Host, right: RightRequest, approved: bool)
    ensures
        resolved_right(host, right, approved) is Ok && right.missing_path
            != MissingPathBehavior::Reject ==> {
            &&& right.access == crate::protocol::Access::Write
            &&& right.missing_path == MissingPathBehavior::CreateFile <==> right.scope
                == crate::protocol::PathScope::File
        },
{
}

/// Whether a decision was reached, for or against, so that no fact is missing.
pub open spec fn is_reached<T>(decision: Decision<T>) -> bool {
    match decision {
        Err(HaltModel::Probe(_)) => false,
        _ => true,
    }
}

/// Decisions on several items stand where each of them does.
pub proof fn lemma_each_stands<A, B>(
    items: Seq<A>,
    early: spec_fn(A) -> Decision<B>,
    late: spec_fn(A) -> Decision<B>,
)
    requires
        forall|item: A| is_reached(#[trigger] early(item)) ==> late(item) == early(item),
        is_reached(each(items, early)),
    ensures
        each(items, late) == each(items, early),
    decreases items.len(),
{
    if items.len() > 0 {
        lemma_each_stands(items.drop_last(), early, late);
        if each(items.drop_last(), early) is Ok {
            assert(is_reached(early(items.last())));
        }
    }
}

proof fn lemma_nearest_stands(host: Host, later: Host, path: Seq<char>, n: int)
    requires
        host.extended_by(later),
        is_reached(nearest_existing(host, path, n)),
    ensures
        nearest_existing(later, path, n) == nearest_existing(host, path, n),
    decreases n,
{
    let facts = host.path(ancestor(path, n));
    assert(facts is Ok);
    if !(facts->Ok_0.is_present()) && n > 1 {
        lemma_nearest_stands(host, later, path, n - 1);
    }
}

proof fn lemma_path_stands(host: Host, later: Host, path: Seq<char>, missing: MissingPathBehavior)
    requires
        host.extended_by(later),
        is_reached(resolved_path(host, path, missing)),
    ensures
        resolved_path(later, path, missing) == resolved_path(host, path, missing),
{
    if crate::seatbelt::clean(path) is Ok {
        assert(host.path(path) is Ok);
        if !(host.path(path)->Ok_0.is_present()) && missing != MissingPathBehavior::Reject {
            let n = components(path).len() as int;
            assert(is_reached(nearest_existing(host, path, n)));
            lemma_nearest_stands(host, later, path, n);
        }
    }
}

proof fn lemma_right_stands(host: Host, later: Host, right: RightRequest, approved: bool)
    requires
        host.extended_by(later),
        is_reached(resolved_right(host, right, approved)),
    ensures
        resolved_right(later, right, approved) == resolved_right(host, right, approved),
{
    if is_reached(resolved_path(host, right.path, right.missing_path)) {
        lemma_path_stands(host, later, right.path, right.missing_path);
    }
}

proof fn lemma_deny_stands(host: Host, later: Host, deny: DenyRequest)
    requires
        host.extended_by(later),
        is_reached(resolved_deny(host, deny)),
    ensures
        resolved_deny(later, deny) == resolved_deny(host, deny),
{
    if is_reached(resolved_path(host, deny.pattern, MissingPathBehavior::CreateTree)) {
        lemma_path_stands(host, later, deny.pattern, MissingPathBehavior::CreateTree);
    }
}

proof fn lemma_policy_stands(host: Host, later: Host, policy: PolicyRequest, hard: Seq<Deny>)
    requires
        host.extended_by(later),
        is_reached(resolved_policy(host, policy, hard)),
    ensures
        resolved_policy(later, policy, hard) == resolved_policy(host, policy, hard),
{
    assert forall|deny: DenyRequest| is_reached(
        #[trigger] deny_step(host)(deny),
    ) implies deny_step(later)(deny) == deny_step(host)(deny) by {
        lemma_deny_stands(host, later, deny);
    }
    lemma_each_stands(policy.denies, deny_step(host), deny_step(later));
    if let Ok(requested) = each(policy.denies, deny_step(host)) {
        let denies = hard + requested;
        assert forall|right: RightRequest| is_reached(
            #[trigger] right_step(host)(right),
        ) implies right_step(later)(right) == right_step(host)(right) by {
            lemma_right_stands(host, later, right, false);
        }
        lemma_each_stands(policy.base_rights, right_step(host), right_step(later));
        if each(policy.base_rights, right_step(host)) is Ok {
            assert forall|right: RightRequest| is_reached(
                #[trigger] grant_step(host, denies)(right),
            ) implies grant_step(later, denies)(right) == grant_step(host, denies)(right) by {
                assert(is_reached(resolved_grant(host, denies, right)));
                lemma_right_stands(host, later, right, true);
            }
            lemma_each_stands(policy.grants, grant_step(host, denies), grant_step(later, denies));
        }
    }
}

proof fn lemma_sockets_stand(host: Host, later: Host, paths: Seq<Seq<char>>)
    requires
        host.extended_by(later),
        is_reached(socket_roots(host, paths)),
    ensures
        socket_roots(later, paths) == socket_roots(host, paths),
{
    if paths.len() <= MAX_SOCKET_ROOTS {
        assert forall|path: Seq<char>| is_reached(
            #[trigger] socket_step(host)(path),
        ) implies socket_step(later)(path) == socket_step(host)(path) by {
            assert(is_reached(socket_path(host, path)));
        }
        lemma_each_stands(paths, socket_step(host), socket_step(later));
    }
}

proof fn lemma_command_stands(host: Host, later: Host, request: CommandRequest)
    requires
        host.extended_by(later),
        is_reached(command_accepted(host, request)),
    ensures
        command_accepted(later, request) == command_accepted(host, request),
{
    if is_reached(absolute_path(host, request.program, "program"@)) {
        assert(absolute_path(later, request.program, "program"@) == absolute_path(
            host,
            request.program,
            "program"@,
        ));
    }
    if is_reached(file_path(host, request.program, "program"@)) {
        assert(file_path(later, request.program, "program"@) == file_path(
            host,
            request.program,
            "program"@,
        ));
    }
    if is_reached(directory_path(host, request.cwd, "cwd"@)) {
        assert(directory_path(later, request.cwd, "cwd"@) == directory_path(
            host,
            request.cwd,
            "cwd"@,
        ));
    }
}

/// What was decided of a request stands: where no fact was missing, more facts
/// change neither an acceptance nor a refusal.
pub proof fn decisions_stand(host: Host, later: Host, request: CommandRequest, hard: Seq<Deny>)
    requires
        host.extended_by(later),
        is_reached(validated(host, request, hard)),
    ensures
        validated(later, request, hard) == validated(host, request, hard),
{
    lemma_command_stands(host, later, request);
    if command_accepted(host, request) is Ok && crate::validation::limits_accepted(request) is Ok {
        lemma_policy_stands(host, later, request.policy, hard);
        if resolved_policy(host, request.policy, hard) is Ok {
            lemma_sockets_stand(host, later, request.policy.unix_socket_roots);
            if socket_roots(host, request.policy.unix_socket_roots) is Ok {
                assert(is_reached(resolved_network(host, request.policy.network)));
            }
        }
    }
}

proof fn lemma_helpers_stand(
    host: Host,
    later: Host,
    denies: Decision<Seq<Deny>>,
    helpers: Seq<Seq<char>>,
)
    requires
        host.extended_by(later),
        is_reached(with_helpers(host, denies, helpers)),
    ensures
        with_helpers(later, denies, helpers) == with_helpers(host, denies, helpers),
    decreases helpers.len(),
{
    if helpers.len() > 0 {
        lemma_helpers_stand(host, later, denies, helpers.drop_last());
    }
}

/// The fixed policy stands: where no fact was missing, more facts change neither its
/// denies nor a refusal.
pub proof fn fixed_policies_stand(host: Host, later: Host, settings: HostSettings)
    requires
        host.extended_by(later),
        is_reached(host_denies(host, settings)),
    ensures
        host_denies(later, settings) == host_denies(host, settings),
{
    if let Some(home) = settings.home {
        if let Ok(home) = existing_path(host, home) {
            if let Ok(executable) = settings.executable {
                if let Ok(broker) = existing_path(host, executable) {
                    let cache = match settings.development_cache {
                        None => None,
                        Some(path) => Some(cache_root(host, path, home)),
                    };
                    if cache is None || cache->0 is Ok {
                        let root = match cache {
                            None => None,
                            Some(decision) => Some(decision->Ok_0),
                        };
                        assert(is_reached(fixed_denies(host, home, broker)));
                        assert(fixed_denies(later, home, broker) == fixed_denies(
                            host,
                            home,
                            broker,
                        ));
                        let base = base_denies(host, home, broker, root);
                        if let Ok(helpers) = settings.helpers {
                            if base is Ok {
                                lemma_helpers_stand(host, later, base, helpers);
                            }
                        }
                    }
                }
            }
        }
    }
}

} // verus!
