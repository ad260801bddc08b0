//! What an accepted request keeps of the request, and why a request is refused.

use vstd::prelude::*;
use vstd::utf8::encode_utf8;

use crate::facts::{each, Decision, FileKind, HaltModel, Host};
use crate::globs::seatbelt_regex;
use crate::guarantees::{denies_win_over_grants, hard_denies_are_kept, lemma_each_all};
use crate::order::{collected_is_a_set, holds, item_same, Order};
use crate::outside::{regex_accepts, regex_error};
use crate::paths::{components, is_absolute, lies_under, parent_of, pushed, same_path};
use crate::protocol::{
    Access, CommandRequest, DeniedAccess, DenyRequest, DenyScope, MissingPathBehavior,
    NetworkRequest, PathScope, PolicyRequest, RightRequest,
};
use crate::seatbelt::{
    ancestor, clean, deny_covers, deny_step, existing_path, grant_step, nearest_existing,
    resolved_deny, resolved_grant, resolved_path, resolved_policy, resolved_right, right_step, Deny,
    Right,
};
use crate::text::is_space;
use crate::validation::{
    argument_step, command_accepted, is_name_char, is_variable_name, resolved_network, socket_path,
    socket_step, total_bytes, validated, variable_bytes, variable_step,
};

verus! {

/// An accepted request runs what was asked for: its identity, arguments, variables and
/// limits are those of the request, word for word.
pub proof fn accepted_requests_are_kept(host: Host, request: CommandRequest, hard: Seq<Deny>)
    ensures
        validated(host, request, hard) matches Ok(accepted) ==> {
            &&& accepted.id == request.id
            &&& accepted.args == request.args
            &&& accepted.env == request.env
            &&& accepted.timeout_ms == request.timeout_ms
            &&& accepted.interactive == request.interactive
            &&& accepted.output_limit_bytes == request.policy.output_limit_bytes
        },
{
}

/// The program of an accepted request is the file, and its directory the directory,
/// that the host resolves the requested paths to.
pub proof fn accepted_paths_are_those_of_the_host(
    host: Host,
    request: CommandRequest,
    hard: Seq<Deny>,
)
    ensures
        validated(host, request, hard) matches Ok(accepted) ==> {
            &&& request.program.len() > 0 && request.program[0] == '/'
            &&& request.cwd.len() > 0 && request.cwd[0] == '/'
            &&& host.paths.contains_key(request.program)
            &&& host.paths[request.program].canonical == Ok::<Seq<char>, Seq<char>>(
                accepted.program,
            )
            &&& host.paths[accepted.program].target is Ok
            &&& host.paths[accepted.program].target->Ok_0.kind == FileKind::File
            &&& host.paths.contains_key(request.cwd)
            &&& host.paths[request.cwd].canonical == Ok::<Seq<char>, Seq<char>>(accepted.cwd)
            &&& host.paths[accepted.cwd].target is Ok
            &&& host.paths[accepted.cwd].target->Ok_0.kind == FileKind::Directory
        },
{
}

/// A resolved right gives what was asked for, to what was asked for: the same access
/// and scope, on the host's resolved form of a path that exists, which is a directory
/// for a tree and something else for a file. An approved right is on the very path that
/// was approved.
pub proof fn resolved_rights_are_those_requested(host: Host, right: RightRequest, approved: bool)
    ensures
        resolved_right(host, right, approved) matches Ok(resolved) ==> {
            &&& resolved.access == right.access
            &&& resolved.scope == right.scope
            &&& resolved.approved == approved
            &&& host.paths[right.path].target is Ok ==> host.paths[right.path].canonical
                == Ok::<Seq<char>, Seq<char>>(resolved.path)
            &&& host.paths[right.path].target is Err ==> right.access == Access::Write && (
            right.missing_path == MissingPathBehavior::CreateFile && right.scope == PathScope::File
                || right.missing_path == MissingPathBehavior::CreateTree && right.scope
                == PathScope::Tree)
            &&& host.paths[resolved.path].target is Ok ==> (host.paths[resolved.path].target->Ok_0.kind
                == FileKind::Directory <==> right.scope == PathScope::Tree)
            &&& approved ==> components(resolved.path) == components(right.path)
        },
{
}

/// A resolved deny forbids what was asked for: the same access and scope, a glob on the
/// very pattern, anything else on the host's resolved form of a path that exists. No
/// requested deny exempts anything.
pub proof fn resolved_denies_are_those_requested(host: Host, deny: DenyRequest)
    ensures
        resolved_deny(host, deny) matches Ok(resolved) ==> {
            &&& resolved.access == deny.access
            &&& resolved.scope == deny.scope
            &&& resolved.exempt_roots.len() == 0
            &&& deny.scope == DenyScope::Glob ==> resolved.pattern == deny.pattern && resolved.path
                is None
            &&& deny.scope != DenyScope::Glob ==> resolved.path == Some(resolved.pattern)
            &&& deny.scope != DenyScope::Glob && host.paths[deny.pattern].target is Ok
                ==> host.paths[deny.pattern].canonical == Ok::<Seq<char>, Seq<char>>(
                resolved.pattern,
            )
        },
{
}

/// The rights of an accepted request are its base rights, then its grants, each one
/// resolved; only the grants count as approved.
pub proof fn accepted_rights_are_those_requested(
    host: Host,
    request: CommandRequest,
    hard: Seq<Deny>,
)
    ensures
        validated(host, request, hard) matches Ok(accepted) ==> {
            let base = request.policy.base_rights;
            let grants = request.policy.grants;
            &&& accepted.rights.len() == base.len() + grants.len()
            &&& forall|i: int|
                0 <= i < base.len() ==> resolved_right(host, #[trigger] base[i], false) == Ok::<
                    Right,
                    HaltModel,
                >(accepted.rights[i])
            &&& forall|i: int|
                0 <= i < grants.len() ==> resolved_right(host, #[trigger] grants[i], true) == Ok::<
                    Right,
                    HaltModel,
                >(accepted.rights[base.len() + i])
        },
{
    if let Ok(accepted) = validated(host, request, hard) {
        let policy = request.policy;
        let (rights, denies) = resolved_policy(host, policy, hard)->Ok_0;
        lemma_each_all(policy.base_rights, right_step(host));
        lemma_each_all(policy.grants, grant_step(host, denies));
        let base = each(policy.base_rights, right_step(host))->Ok_0;
        let grants = each(policy.grants, grant_step(host, denies))->Ok_0;
        assert forall|i: int| 0 <= i < policy.base_rights.len() implies resolved_right(
            host,
            #[trigger] policy.base_rights[i],
            false,
        ) == Ok::<Right, HaltModel>(accepted.rights[i]) by {
            assert(right_step(host)(policy.base_rights[i]) == Ok::<Right, HaltModel>(base[i]));
        }
        assert forall|i: int| 0 <= i < policy.grants.len() implies resolved_right(
            host,
            #[trigger] policy.grants[i],
            true,
        ) == Ok::<Right, HaltModel>(accepted.rights[policy.base_rights.len() + i]) by {
            assert(grant_step(host, denies)(policy.grants[i]) == Ok::<Right, HaltModel>(grants[i]));
        }
    }
}

/// The denies of an accepted request are those of the host, then its own, each one
/// resolved.
pub proof fn accepted_denies_are_those_requested(
    host: Host,
    request: CommandRequest,
    hard: Seq<Deny>,
)
    ensures
        validated(host, request, hard) matches Ok(accepted) ==> {
            let asked = request.policy.denies;
            &&& accepted.denies.len() == hard.len() + asked.len()
            &&& forall|i: int| 0 <= i < hard.len() ==> accepted.denies[i] == #[trigger] hard[i]
            &&& forall|i: int|
                0 <= i < asked.len() ==> resolved_deny(host, #[trigger] asked[i]) == Ok::<
                    Deny,
                    HaltModel,
                >(accepted.denies[hard.len() + i])
        },
{
    hard_denies_are_kept(host, request.policy, hard);
    if let Ok(accepted) = validated(host, request, hard) {
        assert forall|i: int| 0 <= i < hard.len() implies accepted.denies[i]
            == #[trigger] hard[i] by {
            assert(accepted.denies.take(hard.len() as int)[i] == hard[i]);
        }
    }
}

/// Whether a kind of denied access takes in an access: both do, each takes in its own.
pub open spec fn takes_in(denied: DeniedAccess, access: Access) -> bool {
    ||| denied == DeniedAccess::ReadWrite
    ||| denied == DeniedAccess::Read && access == Access::Read
    ||| denied == DeniedAccess::Write && access == Access::Write
}

/// No granted right of an accepted request is on what a deny of its access names: not
/// on the file of a file deny, not at or below the root of a tree deny, not on a path
/// that the expression of a glob accepts. Only what the deny exempts is left to it. And
/// no grant is on a device.
pub proof fn granted_rights_avoid_every_deny(
    host: Host,
    request: CommandRequest,
    hard: Seq<Deny>,
    k: int,
    d: int,
)
    requires
        validated(host, request, hard) is Ok,
        request.policy.base_rights.len() <= k < validated(host, request, hard)->Ok_0.rights.len(),
        0 <= d < validated(host, request, hard)->Ok_0.denies.len(),
    ensures
        ({
            let accepted = validated(host, request, hard)->Ok_0;
            let right = accepted.rights[k];
            let deny = accepted.denies[d];
            &&& !lies_under(right.path, "/dev"@)
            &&& takes_in(deny.access, right.access) && (forall|i: int|
                0 <= i < deny.exempt_roots.len() ==> !lies_under(
                    right.path,
                    #[trigger] deny.exempt_roots[i],
                )) ==> {
                &&& deny.scope == DenyScope::File && deny.path is Some ==> components(right.path)
                    != components(deny.path->0)
                &&& deny.scope == DenyScope::Tree && deny.path is Some ==> !lies_under(
                    right.path,
                    deny.path->0,
                )
                &&& deny.scope == DenyScope::Glob && seatbelt_regex(deny.pattern) is Ok
                    && regex_error(seatbelt_regex(deny.pattern)->Ok_0) is None ==> !regex_accepts(
                    seatbelt_regex(deny.pattern)->Ok_0,
                    right.path,
                )
            }
        }),
{
    denies_win_over_grants(host, request.policy, hard);
    let accepted = validated(host, request, hard)->Ok_0;
    assert(accepted.rights[k].approved);
    assert(!deny_covers(accepted.denies[d], accepted.rights[k]));
}

/// A grant is not refused for a deny of another access, nor for one that exempts the
/// path, nor for one that names something else: where no deny of its access names what
/// the grant is on, and that is no device, the grant comes out as the right it asks for.
pub proof fn grants_beside_every_deny_are_kept(
    host: Host,
    denies: Seq<Deny>,
    grant: RightRequest,
    right: Right,
)
    requires
        resolved_right(host, grant, true) == Ok::<Right, HaltModel>(right),
        !lies_under(right.path, "/dev"@),
        forall|d: int|
            0 <= d < denies.len() ==> {
                let deny = #[trigger] denies[d];
                ||| !takes_in(deny.access, right.access)
                ||| exists|i: int|
                    0 <= i < deny.exempt_roots.len() && lies_under(
                        right.path,
                        #[trigger] deny.exempt_roots[i],
                    )
                ||| deny.scope == DenyScope::File && !(deny.path is Some && components(
                    deny.path->0,
                ) == components(right.path))
                ||| deny.scope == DenyScope::Tree && !(deny.path is Some && lies_under(
                    right.path,
                    deny.path->0,
                ))
                ||| deny.scope == DenyScope::Glob && !(seatbelt_regex(deny.pattern) is Ok
                    && regex_accepts(seatbelt_regex(deny.pattern)->Ok_0, right.path))
            },
    ensures
        resolved_grant(host, denies, grant) == Ok::<Right, HaltModel>(right),
{
    assert forall|d: int| 0 <= d < denies.len() implies !deny_covers(
        #[trigger] denies[d],
        right,
    ) by {}
}

/// The network of an accepted request is the one asked for: the same mode, and for a
/// proxy the same port and the same leave to bind, on a socket that exists.
pub proof fn accepted_network_is_the_one_requested(
    host: Host,
    request: CommandRequest,
    hard: Seq<Deny>,
)
    ensures
        validated(host, request, hard) matches Ok(accepted) ==> match request.policy.network {
            NetworkRequest::Blocked => accepted.network == NetworkRequest::Blocked,
            NetworkRequest::Loopback => accepted.network == NetworkRequest::Loopback,
            NetworkRequest::Proxy { tcp_port, unix_socket, allow_local_binding } => {
                &&& accepted.network matches NetworkRequest::Proxy {
                    tcp_port: port,
                    unix_socket: socket,
                    allow_local_binding: binding,
                }
                &&& port == tcp_port && port > 0
                &&& binding == allow_local_binding
                &&& host.paths[unix_socket].target is Ok ==> host.paths[unix_socket].canonical
                    == Ok::<Seq<char>, Seq<char>>(socket)
                &&& host.paths[socket].target is Ok
                &&& host.paths[socket].target->Ok_0.kind == FileKind::Socket
            },
        },
{
}

/// The socket roots of an accepted request are the requested ones, resolved: each of
/// them is among the requested ones, and each requested one is among them.
pub proof fn accepted_socket_roots_are_those_requested(
    host: Host,
    request: CommandRequest,
    hard: Seq<Deny>,
)
    ensures
        validated(host, request, hard) matches Ok(accepted) ==> {
            let asked = request.policy.unix_socket_roots;
            &&& asked.len() <= 16
            &&& forall|i: int|
                0 <= i < asked.len() ==> (#[trigger] socket_path(host, asked[i])) is Ok && exists|
                    k: int,
                |
                    0 <= k < accepted.unix_socket_roots.len() && same_path(
                        #[trigger] accepted.unix_socket_roots[k],
                        socket_path(host, asked[i])->Ok_0,
                    )
            &&& forall|k: int|
                0 <= k < accepted.unix_socket_roots.len() ==> exists|i: int|
                    0 <= i < asked.len() && same_path(
                        #[trigger] accepted.unix_socket_roots[k],
                        (#[trigger] socket_path(host, asked[i]))->Ok_0,
                    )
        },
{
    if let Ok(accepted) = validated(host, request, hard) {
        let asked = request.policy.unix_socket_roots;
        let roots = accepted.unix_socket_roots;
        let resolved = each(asked, socket_step(host))->Ok_0;
        lemma_each_all(asked, socket_step(host));
        collected_is_a_set(Order::Path, resolved);
        assert forall|i: int| 0 <= i < asked.len() implies (#[trigger] socket_path(host, asked[i]))
            is Ok && exists|k: int|
            0 <= k < roots.len() && same_path(
                #[trigger] roots[k],
                socket_path(host, asked[i])->Ok_0,
            ) by {
            assert(socket_step(host)(asked[i]) == Ok::<Seq<char>, HaltModel>(resolved[i]));
            assert(item_same(Order::Path, resolved[i], resolved[i]));
            assert(holds(Order::Path, resolved, resolved[i]));
            assert(holds(Order::Path, roots, resolved[i]));
            let k = choose|k: int|
                0 <= k < roots.len() && item_same(Order::Path, #[trigger] roots[k], resolved[i]);
            assert(same_path(roots[k], resolved[i]));
        }
        assert forall|k: int| 0 <= k < roots.len() implies exists|i: int|
            0 <= i < asked.len() && same_path(
                #[trigger] roots[k],
                (#[trigger] socket_path(host, asked[i]))->Ok_0,
            ) by {
            assert(item_same(Order::Path, roots[k], roots[k]));
            assert(holds(Order::Path, roots, roots[k]));
            assert(holds(Order::Path, resolved, roots[k]));
            let i = choose|i: int|
                0 <= i < resolved.len() && item_same(
                    Order::Path,
                    #[trigger] resolved[i],
                    roots[k],
                );
            assert(socket_step(host)(asked[i]) == Ok::<Seq<char>, HaltModel>(resolved[i]));
            assert(same_path(roots[k], socket_path(host, asked[i])->Ok_0));
        }
    }
}

/// A socket is named by the host's resolved form of its path where it exists, else by
/// the resolved form of its directory, with its name behind.
pub proof fn sockets_are_resolved_from_what_exists(host: Host, path: Seq<char>)
    ensures
        socket_path(host, path) matches Ok(socket) ==> {
            &&& path.len() > 0 && path[0] == '/'
            &&& !path.contains('\0')
            &&& !components(path).contains(seq!['.', '.'])
            &&& host.paths[path].target is Ok ==> host.paths[path].canonical == Ok::<
                Seq<char>,
                Seq<char>,
            >(socket)
            &&& host.paths[path].target is Err ==> {
                let directory = parent_of(path)->0;
                &&& host.paths[directory].canonical is Ok
                &&& socket == pushed(
                    host.paths[directory].canonical->Ok_0,
                    components(path).last(),
                )
            }
        },
{
}

/// An accepted command is within the limits: its texts are short enough and free of NUL,
/// its name is not blank, its arguments and variables are not too many and not too large
/// together.
pub proof fn accepted_commands_are_within_the_limits(
    host: Host,
    request: CommandRequest,
    hard: Seq<Deny>,
)
    requires
        validated(host, request, hard) is Ok,
    ensures
        fits(request.id, 256),
        exists|i: int| 0 <= i < request.id.len() && !is_space(#[trigger] request.id[i]),
        fits(request.program, 524_288),
        request.args.len() <= 4_096,
        forall|i: int| 0 <= i < request.args.len() ==> fits(#[trigger] request.args[i], 524_288),
        request.env.len() <= 1_024,
        forall|i: int|
            0 <= i < request.env.len() ==> names_variable((#[trigger] request.env[i]).0) && fits(
                request.env[i].1,
                524_288,
            ),
        encode_utf8(request.program).len() + bytes_of(request.args) + bytes_of_pairs(request.env)
            <= 524_288,
        0 < request.policy.output_limit_bytes <= 10_485_760,
        request.timeout_ms is Some ==> 0 < request.timeout_ms->0 <= 86_400_000,
        hard.len() + request.policy.denies.len() <= 128,
        request.policy.base_rights.len() + request.policy.grants.len() <= 128,
{
    lemma_bytes(request.args);
    lemma_bytes_of_pairs(request.env);
    lemma_each_all(request.args, argument_step());
    lemma_each_all(request.env, variable_step());
    hard_denies_are_kept(host, request.policy, hard);
    denies_win_over_grants(host, request.policy, hard);
    assert forall|i: int| 0 <= i < request.args.len() implies fits(
        #[trigger] request.args[i],
        524_288,
    ) by {
        assert(argument_step()(request.args[i]) is Ok);
    }
    assert forall|i: int| 0 <= i < request.env.len() implies names_variable(
        (#[trigger] request.env[i]).0,
    ) && fits(request.env[i].1, 524_288) by {
        assert(variable_step()(request.env[i]) is Ok);
        lemma_variable_name(request.env[i].0);
    }
}

/// Whether a decision is a refusal.
pub open spec fn is_refused<T>(decision: Decision<T>) -> bool {
    decision matches Err(HaltModel::Refused(_))
}

/// Whether a text may stand in a command: not too long, and free of NUL.
pub open spec fn fits(text: Seq<char>, maximum: nat) -> bool {
    encode_utf8(text).len() <= maximum && !text.contains('\0')
}

/// Whether a text can name a variable: letters, digits and underscores, the first of
/// them no digit.
pub open spec fn names_variable(name: Seq<char>) -> bool {
    &&& name.len() > 0
    &&& !('0' <= name[0] <= '9')
    &&& forall|i: int|
        0 <= i < name.len() ==> ('a' <= #[trigger] name[i] <= 'z' || 'A' <= name[i] <= 'Z' || '0'
            <= name[i] <= '9' || name[i] == '_')
}

proof fn lemma_variable_name(name: Seq<char>)
    ensures
        is_variable_name(name) <==> names_variable(name),
{
    if is_variable_name(name) {
        assert forall|i: int| 0 <= i < name.len() implies ('a' <= #[trigger] name[i] <= 'z' || 'A'
            <= name[i] <= 'Z' || '0' <= name[i] <= '9' || name[i] == '_') by {
            assert(is_name_char(name[i]));
        }
    }
    if names_variable(name) {
        assert forall|i: int| 0 <= i < name.len() implies is_name_char(#[trigger] name[i]) by {}
    }
}

/// The number of bytes of several texts.
pub open spec fn bytes_of(items: Seq<Seq<char>>) -> nat {
    items.fold_left(0nat, |sum: nat, item: Seq<char>| sum + encode_utf8(item).len())
}

/// The number of bytes of the names and values of several variables.
pub open spec fn bytes_of_pairs(items: Seq<(Seq<char>, Seq<char>)>) -> nat {
    items.fold_left(
        0nat,
        |sum: nat, item: (Seq<char>, Seq<char>)|
            sum + encode_utf8(item.0).len() + encode_utf8(item.1).len(),
    )
}

proof fn lemma_bytes(items: Seq<Seq<char>>)
    ensures
        total_bytes(items) == bytes_of(items),
    decreases items.len(),
{
    if items.len() > 0 {
        lemma_bytes(items.drop_last());
    }
}

proof fn lemma_bytes_of_pairs(items: Seq<(Seq<char>, Seq<char>)>)
    ensures
        variable_bytes(items) == bytes_of_pairs(items),
    decreases items.len(),
{
    if items.len() > 0 {
        lemma_bytes_of_pairs(items.drop_last());
    }
}

proof fn lemma_none_refused<A, B>(items: Seq<A>, step: spec_fn(A) -> Decision<B>)
    requires
        forall|i: int| 0 <= i < items.len() ==> !is_refused(step(#[trigger] items[i])),
    ensures
        !is_refused(each(items, step)),
    decreases items.len(),
{
    if items.len() > 0 {
        let front = items.drop_last();
        assert forall|i: int| 0 <= i < front.len() implies !is_refused(step(#[trigger] front[i])) by {
            assert(front[i] == items[i]);
        }
        lemma_none_refused(front, step);
        assert(items[items.len() - 1] == items.last());
    }
}

/// A command within the limits is not refused: where its texts are short enough and
/// free of NUL, its name not blank, its arguments and variables not too many and not
/// too large together, its program a file and its directory a directory.
pub proof fn commands_within_the_limits_are_not_refused(host: Host, request: CommandRequest)
    requires
        fits(request.id, 256),
        exists|i: int| 0 <= i < request.id.len() && !is_space(#[trigger] request.id[i]),
        fits(request.program, 524_288),
        request.args.len() <= 4_096,
        forall|i: int| 0 <= i < request.args.len() ==> fits(#[trigger] request.args[i], 524_288),
        request.env.len() <= 1_024,
        forall|i: int|
            0 <= i < request.env.len() ==> names_variable(
                (#[trigger] request.env[i]).0,
            ) && fits(request.env[i].1, 524_288),
        encode_utf8(request.program).len() + bytes_of(request.args) + bytes_of_pairs(request.env)
            <= 524_288,
        is_absolute(request.program),
        is_absolute(request.cwd),
        host.paths.contains_key(request.program) ==> host.paths[request.program].canonical is Ok,
        host.paths.contains_key(request.cwd) ==> host.paths[request.cwd].canonical is Ok,
        host.paths.contains_key(host.paths[request.program].canonical->Ok_0)
            ==> host.paths[host.paths[request.program].canonical->Ok_0].is_file(),
        host.paths.contains_key(host.paths[request.cwd].canonical->Ok_0)
            ==> host.paths[host.paths[request.cwd].canonical->Ok_0].is_dir(),
    ensures
        !is_refused(command_accepted(host, request)),
{
    assert forall|i: int| 0 <= i < request.args.len() implies !is_refused(
        argument_step()(#[trigger] request.args[i]),
    ) by {
        assert(fits(request.args[i], 524_288));
    }
    lemma_bytes(request.args);
    lemma_bytes_of_pairs(request.env);
    lemma_none_refused(request.args, argument_step());
    assert forall|i: int| 0 <= i < request.env.len() implies !is_refused(
        variable_step()(#[trigger] request.env[i]),
    ) by {
        assert(fits(request.env[i].1, 524_288));
        lemma_variable_name(request.env[i].0);
    }
    lemma_none_refused(request.env, variable_step());
}

/// A request is refused for its command, its limits, its policy or its network, and for
/// nothing else: where none of these is, an output limit from one byte to ten mebibytes
/// and a positive timeout of at most a day are enough.
pub proof fn requests_within_the_limits_are_not_refused(
    host: Host,
    request: CommandRequest,
    hard: Seq<Deny>,
)
    requires
        !is_refused(command_accepted(host, request)),
        0 < request.policy.output_limit_bytes <= 10_485_760,
        request.timeout_ms is Some ==> 0 < request.timeout_ms->0 <= 86_400_000,
        !is_refused(resolved_policy(host, request.policy, hard)),
        request.policy.unix_socket_roots.len() <= 16,
        forall|i: int|
            0 <= i < request.policy.unix_socket_roots.len() ==> !is_refused(
                socket_path(host, #[trigger] request.policy.unix_socket_roots[i]),
            ),
        !is_refused(resolved_network(host, request.policy.network)),
    ensures
        !is_refused(validated(host, request, hard)),
{
    assert forall|i: int| 0 <= i < request.policy.unix_socket_roots.len() implies !is_refused(
        socket_step(host)(#[trigger] request.policy.unix_socket_roots[i]),
    ) by {}
    lemma_none_refused(request.policy.unix_socket_roots, socket_step(host));
}

/// A policy is refused for one of its rights, denies or grants, or for having too many,
/// and for nothing else.
pub proof fn policies_within_the_limits_are_not_refused(
    host: Host,
    policy: PolicyRequest,
    hard: Seq<Deny>,
)
    requires
        hard.len() + policy.denies.len() <= 128,
        policy.base_rights.len() + policy.grants.len() <= 128,
        forall|i: int|
            0 <= i < policy.denies.len() ==> !is_refused(
                resolved_deny(host, #[trigger] policy.denies[i]),
            ),
        forall|i: int|
            0 <= i < policy.base_rights.len() ==> !is_refused(
                resolved_right(host, #[trigger] policy.base_rights[i], false),
            ),
        each(policy.denies, deny_step(host)) matches Ok(requested) ==> forall|i: int|
            0 <= i < policy.grants.len() ==> !is_refused(
                resolved_grant(host, hard + requested, #[trigger] policy.grants[i]),
            ),
    ensures
        !is_refused(resolved_policy(host, policy, hard)),
{
    assert forall|i: int| 0 <= i < policy.denies.len() implies !is_refused(
        deny_step(host)(#[trigger] policy.denies[i]),
    ) by {}
    lemma_none_refused(policy.denies, deny_step(host));
    assert forall|i: int| 0 <= i < policy.base_rights.len() implies !is_refused(
        right_step(host)(#[trigger] policy.base_rights[i]),
    ) by {}
    lemma_none_refused(policy.base_rights, right_step(host));
    if each(policy.denies, deny_step(host)) is Ok {
        lemma_each_all(policy.denies, deny_step(host));
        let denies = hard + each(policy.denies, deny_step(host))->Ok_0;
        assert forall|i: int| 0 <= i < policy.grants.len() implies !is_refused(
            grant_step(host, denies)(#[trigger] policy.grants[i]),
        ) by {
            assert(!is_refused(resolved_grant(host, denies, policy.grants[i])));
        }
        lemma_none_refused(policy.grants, grant_step(host, denies));
        if each(policy.base_rights, right_step(host)) is Ok {
            lemma_each_all(policy.base_rights, right_step(host));
        }
        if each(policy.grants, grant_step(host, denies)) is Ok {
            lemma_each_all(policy.grants, grant_step(host, denies));
        }
    }
}

proof fn lemma_nearest_not_refused(host: Host, path: Seq<char>, n: int)
    requires
        1 <= n <= components(path).len(),
        host.paths.contains_key(ancestor(path, 1)) ==> host.paths[ancestor(path, 1)].is_present(),
    ensures
        !is_refused(nearest_existing(host, path, n)),
        nearest_existing(host, path, n) matches Ok(m) ==> 1 <= m <= n && host.paths.contains_key(
            ancestor(path, m),
        ) && host.paths[ancestor(path, m)].is_present(),
    decreases n,
{
    if n > 1 {
        lemma_nearest_not_refused(host, path, n - 1);
    }
}

/// A clean path is not refused where what exists of it can be resolved, and where it
/// exists itself or may be missing.
pub proof fn clean_paths_are_not_refused(host: Host, path: Seq<char>, missing: MissingPathBehavior)
    requires
        path.len() > 0 && path[0] == '/',
        !path.contains('\0'),
        !components(path).contains(seq!['.']),
        !components(path).contains(seq!['.', '.']),
        host.paths.contains_key(path) && missing == MissingPathBehavior::Reject
            ==> host.paths[path].is_present(),
        host.paths.contains_key(ancestor(path, 1)) ==> host.paths[ancestor(path, 1)].is_present(),
        forall|n: int|
            1 <= n <= components(path).len() && host.paths.contains_key(
                #[trigger] ancestor(path, n),
            ) && host.paths[ancestor(path, n)].is_present() ==> host.paths[ancestor(
                path,
                n,
            )].canonical is Ok && clean(ancestor(path, n)) is Ok,
    ensures
        !is_refused(resolved_path(host, path, missing)),
{
    let len = components(path).len() as int;
    assert(components(path)[0] == seq!['/']);
    assert(ancestor(path, len) == path);
    lemma_nearest_not_refused(host, path, len);
}

/// A right whose path is not refused is itself refused only where it is to create what
/// it may not, where an approved path came out as another, or where its scope does not
/// fit what is there.
pub proof fn fitting_rights_are_not_refused(host: Host, right: RightRequest, approved: bool)
    requires
        !is_refused(resolved_path(host, right.path, right.missing_path)),
        right.missing_path == MissingPathBehavior::Reject || right.access == Access::Write && (
        right.missing_path == MissingPathBehavior::CreateFile <==> right.scope == PathScope::File),
        resolved_path(host, right.path, right.missing_path) matches Ok(path) ==> {
            &&& approved ==> components(path) == components(right.path)
            &&& host.paths.contains_key(path) && host.paths[path].target is Ok ==> (
            host.paths[path].target->Ok_0.kind == FileKind::Directory <==> right.scope
                == PathScope::Tree)
        },
    ensures
        !is_refused(resolved_right(host, right, approved)),
{
}

/// A deny is refused only for a NUL, for a path that cannot be resolved, or for a glob
/// that has no expression.
pub proof fn sound_denies_are_not_refused(host: Host, deny: DenyRequest)
    requires
        !deny.pattern.contains('\0'),
        deny.scope == DenyScope::Glob ==> is_absolute(deny.pattern) && !components(
            deny.pattern,
        ).contains(seq!['.']) && !components(deny.pattern).contains(seq!['.', '.'])
            && seatbelt_regex(deny.pattern) is Ok,
        deny.scope != DenyScope::Glob ==> !is_refused(
            resolved_path(host, deny.pattern, MissingPathBehavior::CreateTree),
        ),
    ensures
        !is_refused(resolved_deny(host, deny)),
{
}

/// What was resolved was clean: absolute, without a NUL, and with no name that stands for
/// the directory itself or the one above.
pub proof fn only_clean_paths_are_resolved(
    host: Host,
    path: Seq<char>,
    missing: MissingPathBehavior,
)
    requires
        resolved_path(host, path, missing) is Ok || existing_path(host, path) is Ok,
    ensures
        path.len() > 0 && path[0] == '/',
        !path.contains('\0'),
        !components(path).contains(seq!['.']),
        !components(path).contains(seq!['.', '.']),
{
}

/// Of several decisions the first that was not reached is told: those before it were
/// reached, and those behind it do not matter.
pub proof fn the_first_halt_is_told<A, B>(items: Seq<A>, step: spec_fn(A) -> Decision<B>) -> (i: int)
    requires
        each(items, step) is Err,
    ensures
        0 <= i < items.len(),
        step(items[i]) is Err,
        step(items[i])->Err_0 == each(items, step)->Err_0,
        forall|j: int| 0 <= j < i ==> step(#[trigger] items[j]) is Ok,
    decreases items.len(),
{
    let front = items.drop_last();
    if each(front, step) is Err {
        let i = the_first_halt_is_told(front, step);
        assert(front[i] == items[i]);
        assert forall|j: int| 0 <= j < i implies step(#[trigger] items[j]) is Ok by {
            assert(front[j] == items[j]);
        }
        i
    } else {
        lemma_each_all(front, step);
        assert forall|j: int| 0 <= j < front.len() implies step(#[trigger] items[j]) is Ok by {
            assert(front[j] == items[j]);
        }
        items.len() - 1
    }
}

} // verus!
